//! Metrics of the host itself.

use vstd::prelude::*;

use crate::reading;

verus! {

/// Load averages.
#[derive(Debug, Clone, Copy)]
pub struct LoadAverage {
    pub one: reading::Reading,
    pub five: reading::Reading,
    pub fifteen: reading::Reading,
}

/// Metrics of the host.
#[derive(Debug, Clone, Copy)]
pub struct HostMetrics {
    pub cpu_percent: reading::Reading,
    pub load_avg: LoadAverage,
    pub mem_total: u64,
    pub mem_used: u64,
    pub cpu_count: usize,
}

/// The metrics of the host from what was measured. Memory in use is what is not
/// available, and none when more is available than there is.
pub fn host_metrics(
    cpu_percent: reading::Reading,
    load_avg: LoadAverage,
    mem_total: u64,
    mem_available: u64,
    cpu_count: usize,
) -> (r: HostMetrics)
    ensures
        r.cpu_percent == cpu_percent,
        r.load_avg == load_avg,
        r.mem_total == mem_total,
        r.mem_used == (if mem_total < mem_available {
            0
        } else {
            mem_total - mem_available
        }),
        r.cpu_count == cpu_count,
{
    HostMetrics {
        cpu_percent,
        load_avg,
        mem_total,
        mem_used: mem_total.saturating_sub(mem_available),
        cpu_count,
    }
}

} // verus!
