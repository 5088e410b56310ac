//! DockDoe: the decisions behind a Docker host monitor.

pub mod access;
pub mod auth;
pub mod collector;
pub mod config;
pub mod controls;
pub mod docker;
pub mod federation;
pub mod hex;
pub mod history;
pub mod host;
pub mod lifecycle;
pub mod links;
pub mod logs;
pub mod model;
pub mod notify;
pub mod num;
pub mod order;
pub mod page;
pub mod reading;
pub mod stack;
pub mod store;
pub mod table;
pub mod terminal;
pub mod text;
pub mod trend;
