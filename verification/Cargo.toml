[package]
name = "dockdoe"
version = "0.10.0"
edition = "2021"
publish = false

[dependencies]
anyhow = "=1.0.104"
axum = { version = "=0.8.9", features = ["ws"] }
bollard = { version = "=0.21.1", features = ["ssl"] }
clap = { version = "=4.6.7", features = ["derive", "env"] }
futures-util = "=0.3.34"
getrandom = "=0.4.3"
hmac = "=0.12.1"
maud = { version = "=0.27.0", features = ["axum"] }
reqwest = { version = "=0.13.5", features = ["json"] }
rusqlite = { version = "=0.41.1", features = ["bundled"] }
rust-embed = { version = "=8.13.0", features = ["interpolate-folder-path"] }
serde = { version = "=1.0.229", features = ["derive"] }
serde_json = "=1.0.154"
sha2 = "=0.10.9"
sysinfo = "=0.40.1"
tokio = { version = "=1.54.1", features = ["full"] }
toml = "=1.1.8"
tracing = "=0.1.44"
tracing-subscriber = { version = "=0.3.23", features = ["env-filter"] }
webpki-root-certs = "=1.0.11"
