//! The data that describes a host and its containers.

use vstd::prelude::*;

use crate::reading;

verus! {

/// A full snapshot of a host's container metrics at one point in time.
#[derive(Debug, Clone)]
pub struct Dashboard {
    /// When this snapshot was collected, as Unix milliseconds.
    pub generated_at_unix_ms: u64,
    /// Number of logical CPUs on the Docker host.
    pub cpu_count: usize,
    /// The containers, in the daemon's order.
    pub containers: Vec<ContainerMetrics>,
}

/// Per-container metrics and identity.
#[derive(Debug, Clone)]
pub struct ContainerMetrics {
    /// Full container ID.
    pub id: String,
    /// Display name, leading slash stripped.
    pub name: String,
    pub image: String,
    pub state: ContainerState,
    /// Raw Docker status line.
    pub status: String,
    pub health: HealthState,
    /// Compose project this container belongs to, if any.
    pub stack: Option<String>,
    /// CPU utilisation in percent; `None` until a second sample is available.
    pub cpu_percent: Option<reading::Reading>,
    /// Memory in use, in bytes, cache excluded.
    pub mem_used: Option<u64>,
    /// Memory limit in bytes, if there is one.
    pub mem_limit: Option<u64>,
    /// Network receive rate in bytes per second.
    pub net_rx_bps: Option<reading::Reading>,
    /// Network transmit rate in bytes per second.
    pub net_tx_bps: Option<reading::Reading>,
    /// Block-device read rate in bytes per second.
    pub disk_read_bps: Option<reading::Reading>,
    /// Block-device write rate in bytes per second.
    pub disk_write_bps: Option<reading::Reading>,
    /// Ports the container exposes, published ones first.
    pub ports: Vec<Port>,
}

/// A network port a container exposes. With `public` set it is published to
/// the host; otherwise it is reachable inside Docker's network only.
#[derive(Debug, Clone, PartialEq, Eq)]
pub struct Port {
    /// Port inside the container.
    pub private: u16,
    /// Host port, if this mapping is published to the host.
    pub public: Option<u16>,
    /// Transport protocol: "tcp", "udp" or "sctp".
    pub proto: String,
}

/// Lifecycle state of a container.
#[derive(Debug, Clone, Copy, PartialEq, Eq, Structural)]
pub enum ContainerState {
    Created,
    Running,
    Paused,
    Restarting,
    Exited,
    Removing,
    Dead,
    Stopping,
    /// Also what a state of a newer version is read as.
    Unknown,
}

/// Health as reported by Docker's healthcheck.
#[derive(Debug, Clone, Copy, PartialEq, Eq, Structural)]
pub enum HealthState {
    Healthy,
    Unhealthy,
    Starting,
    /// No healthcheck configured.
    NoCheck,
}

/// One monitored host, as listed to a federation hub.
#[derive(Debug, Clone)]
pub struct HostEntry {
    /// The host's configured name.
    pub name: String,
    /// The node's version.
    pub version: String,
}

/// What a node reports to a federation hub.
#[derive(Debug, Clone)]
pub struct Snapshot {
    /// The node's version, for skew detection.
    pub version: String,
    /// Whether the host has latched read-only.
    pub read_only: bool,
    /// The host's current dashboard.
    pub dashboard: Dashboard,
}

} // verus!
