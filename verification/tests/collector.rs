//! The collection loop.

use dockdoe::collector::{duration_ms, prune_cadence, unix_ms, Collector, Config, Cycle};
use dockdoe::model::{ContainerMetrics, ContainerState, HealthState};

fn config(interval: u64, prune: u64) -> Config {
    Config {
        interval_secs: interval,
        raw_retention_secs: 3600,
        trend_bucket_secs: 60,
        trend_retention_secs: 30 * 24 * 3600,
        prune_interval_secs: prune,
    }
}

fn container(id: &str, state: ContainerState) -> ContainerMetrics {
    ContainerMetrics {
        id: id.to_string(),
        name: id.to_string(),
        image: "img".to_string(),
        state,
        status: "status".to_string(),
        health: HealthState::NoCheck,
        stack: None,
        cpu_percent: None,
        mem_used: Some(1),
        mem_limit: None,
        net_rx_bps: None,
        net_tx_bps: None,
        disk_read_bps: None,
        disk_write_bps: None,
        ports: Vec::new(),
    }
}

#[test]
fn prune_cadence_batches_by_interval() {
    // Default: prune hourly, sample every 3 s, so every 1200 cycles.
    assert_eq!(prune_cadence(3600, 3), 1200);
    // Sample every second.
    assert_eq!(prune_cadence(3600, 1), 3600);
    // Prune interval equal to the sample interval: every cycle.
    assert_eq!(prune_cadence(5, 5), 1);
    // Prune interval below one sample cycle: still every cycle, never zero.
    assert_eq!(prune_cadence(1, 3), 1);
}

#[test]
fn a_zero_interval_counts_as_one_second() {
    assert_eq!(prune_cadence(10, 0), 10);
    assert_eq!(prune_cadence(0, 0), 1);
}

#[test]
fn durations_and_clock_readings_are_capped() {
    assert_eq!(duration_ms(3), 3000);
    assert_eq!(duration_ms(u64::MAX), u64::MAX);
    assert_eq!(unix_ms(None), 0);
    assert_eq!(unix_ms(Some(5)), 5);
    assert_eq!(unix_ms(Some(u128::from(u64::MAX) + 1)), u64::MAX);
}

#[test]
fn first_success_primes_and_failures_keep_the_last_snapshot() {
    let mut c = Collector::new("nas".to_string(), 8, &config(3, 3600), None);
    assert!(matches!(c.cycle(1, None), Cycle::Failed));
    assert!(matches!(c.cycle(2, Some(Vec::new())), Cycle::Primed));
    assert!(matches!(c.cycle(3, None), Cycle::Failed));
    let Cycle::Real(work) = c.cycle(4, Some(vec![container("a", ContainerState::Running)])) else {
        panic!("the second success is a real cycle");
    };
    assert_eq!(work.dashboard.generated_at_unix_ms, 4);
    assert_eq!(work.dashboard.cpu_count, 8);
    assert_eq!(work.dashboard.containers.len(), 1);
    assert!(work.notes.is_empty());
    assert!(work.flushed.is_empty());
}

#[test]
fn prunes_on_the_first_real_cycle_and_every_nth_after() {
    let mut c = Collector::new("h".to_string(), 1, &config(1, 3), None);
    c.cycle(0, Some(Vec::new()));
    let mut pruned = Vec::new();
    for i in 0..7u64 {
        let now = 4_000_000_000_000 + i;
        if let Cycle::Real(work) = c.cycle(now, Some(Vec::new())) {
            if let Some((raw, trend)) = work.prune {
                assert_eq!(raw, now - 3_600_000);
                assert_eq!(trend, now - 2_592_000_000);
                pruned.push(i);
            }
        }
    }
    assert_eq!(pruned, vec![0, 3, 6]);
}

#[test]
fn cutoffs_do_not_go_below_zero() {
    let mut c = Collector::new("h".to_string(), 1, &config(1, 3), None);
    c.cycle(0, Some(Vec::new()));
    let Cycle::Real(work) = c.cycle(5, Some(Vec::new())) else {
        panic!("a real cycle");
    };
    assert_eq!(work.prune, Some((0, 0)));
}

#[test]
fn real_cycles_report_status_changes_and_stamp_rollups() {
    let mut c = Collector::new("nas".to_string(), 1, &config(1, 3600), Some(0));
    c.cycle(0, Some(Vec::new()));
    let up = || vec![container("a", ContainerState::Running)];
    let down = || vec![container("a", ContainerState::Exited)];
    let Cycle::Real(first) = c.cycle(60_000, Some(up())) else {
        panic!("a real cycle");
    };
    assert!(first.notes.is_empty());
    let Cycle::Real(second) = c.cycle(120_000, Some(down())) else {
        panic!("a real cycle");
    };
    assert_eq!(second.notes.len(), 1);
    assert_eq!(second.notes[0].kind, "failure");
    assert_eq!(second.flushed.containers.len(), 1);
    assert_eq!(second.flushed.containers[0].host, "nas");
    assert_eq!(second.flushed.containers[0].metric, "mem");
    assert_eq!(second.flushed.containers[0].bucket_start_ms, 60_000);
}
