//! Trend rollups and readings.

use dockdoe::model::{ContainerMetrics, ContainerState, HealthState};
use dockdoe::order::stable_sort;
use dockdoe::reading::{round_count, Reading};
use dockdoe::store::Median;
use dockdoe::trend::{median_of_sorted, Bucketer, Stats};

fn r(x: f64) -> Reading {
    Reading::from_bits(x.to_bits()).unwrap()
}

fn f(x: Reading) -> f64 {
    f64::from_bits(x.to_bits())
}

fn value(m: Median) -> f64 {
    match m {
        Median::At(x) => f(x),
        Median::Between(a, b) => f64::midpoint(f(a), f(b)),
    }
}

fn container(id: &str, cpu: Option<f64>) -> ContainerMetrics {
    ContainerMetrics {
        id: id.to_string(),
        name: format!("c-{id}"),
        image: "img".to_string(),
        state: ContainerState::Running,
        status: "Up".to_string(),
        health: HealthState::NoCheck,
        stack: Some("stack".to_string()),
        cpu_percent: cpu.map(r),
        mem_used: Some(100),
        mem_limit: Some(200),
        net_rx_bps: None,
        net_tx_bps: None,
        disk_read_bps: None,
        disk_write_bps: None,
        ports: Vec::new(),
    }
}

#[test]
fn median_odd_and_even() {
    assert_eq!(value(median_of_sorted(&[r(1.0), r(2.0), r(3.0)])), 2.0);
    assert_eq!(value(median_of_sorted(&[r(1.0), r(2.0), r(3.0), r(4.0)])), 2.5);
    assert_eq!(value(median_of_sorted(&[r(5.0)])), 5.0);
}

#[test]
fn median_is_robust_against_a_spike() {
    // One huge spike must not drag the median the way a mean would.
    let stats = Stats::from(&[r(1.0), r(1.0), r(1.0), r(1.0), r(1000.0)]).unwrap();
    assert_eq!(value(stats.median), 1.0);
    assert_eq!(f(stats.max), 1000.0);
    assert_eq!(f(stats.min), 1.0);
    assert_eq!(stats.count, 5);
}

#[test]
fn no_flush_within_one_bucket() {
    let mut b = Bucketer::new(60); // 60s buckets
    assert!(b.push(60_000, &[]).is_empty());
    assert!(b.push(90_000, &[]).is_empty());
    assert!(b.push(119_000, &[]).is_empty());
}

#[test]
fn flush_on_bucket_boundary_emits_rollups() {
    let mut b = Bucketer::new(60);
    // Bucket [60_000, 120_000): two CPU samples 2/8 for container "x".
    b.push(60_000, &[container("x", Some(2.0))]);
    b.push(90_000, &[container("x", Some(8.0))]);
    // Crossing into the next bucket closes the previous one.
    let flushed = b.push(125_000, &[container("x", Some(5.0))]);
    assert!(!flushed.is_empty());

    let cont_cpu = flushed
        .containers
        .iter()
        .find(|t| t.metric == "cpu")
        .expect("container cpu trend");
    assert_eq!(cont_cpu.id, "x");
    assert_eq!(cont_cpu.name, "c-x");
    assert_eq!(value(cont_cpu.median), 5.0); // median of [2, 8]
    assert_eq!(cont_cpu.bucket_start_ms, 60_000);
    assert_eq!(cont_cpu.bucket_secs, 60);
}

#[test]
fn missing_cpu_samples_are_skipped() {
    let mut b = Bucketer::new(60);
    // First sample has no CPU yet (None) — must not count.
    b.push(60_000, &[container("x", None)]);
    b.push(90_000, &[container("x", Some(4.0))]);
    let flushed = b.push(130_000, &[]);
    let cont_cpu = flushed
        .containers
        .iter()
        .find(|t| t.metric == "cpu")
        .unwrap();
    assert_eq!(cont_cpu.samples, 1); // only the Some(4.0) sample
    assert_eq!(value(cont_cpu.median), 4.0);
}

#[test]
fn nothing_is_no_statistics() {
    assert!(Stats::from(&[]).is_none());
}

#[test]
fn readings_order_like_doubles() {
    let values = [
        f64::NEG_INFINITY,
        -1e300,
        -2.5,
        -0.0,
        0.0,
        f64::MIN_POSITIVE,
        1.0,
        1.5,
        f64::INFINITY,
    ];
    for a in values {
        for b in values {
            assert_eq!(r(a).at_most(r(b)), a <= b, "{a} {b}");
        }
    }
    assert!(Reading::from_bits(f64::NAN.to_bits()).is_none());
    assert!(Reading::from_bits((-f64::NAN).to_bits()).is_none());
    assert_eq!(f(Reading::zero()), 0.0);
}

#[test]
fn counts_become_the_nearest_double() {
    for n in [
        0,
        1,
        2,
        3,
        1023,
        123_456_789,
        (1 << 53) - 1,
        1 << 53,
        (1 << 53) + 1,
        (1 << 53) + 2,
        (1 << 53) + 3,
        (1 << 54) + 2,
        (1 << 54) + 6,
        (1 << 63) + 1024,
        (1 << 63) + 3072,
        u64::MAX - 1024,
        u64::MAX,
    ] {
        assert_eq!(f(Reading::of_count(n)), n as f64, "{n}");
        assert_eq!(round_count(n) as f64, n as f64, "{n}");
    }
    assert_eq!(round_count(u64::MAX), 1 << 64);
    assert_eq!(round_count((1 << 53) + 1), 1 << 53);
}

#[test]
fn sorting_is_stable() {
    let sorted = stable_sort(vec![r(2.0), r(0.0), r(1.0), r(-0.0), r(2.0)]);
    let bits: Vec<u64> = sorted.iter().map(|x| x.to_bits()).collect();
    let expected: Vec<u64> = [0.0, -0.0, 1.0, 2.0, 2.0]
        .iter()
        .map(|x: &f64| x.to_bits())
        .collect();
    assert_eq!(bits, expected);
}

#[test]
fn every_metric_is_rolled_up_under_its_name() {
    let mut b = Bucketer::for_host(60, "nas".to_string());
    let mut c = container("x", Some(1.0));
    c.mem_used = Some(7);
    c.net_rx_bps = Some(r(2.0));
    c.net_tx_bps = Some(r(3.0));
    c.disk_read_bps = Some(r(4.0));
    c.disk_write_bps = Some(r(5.0));
    b.push(0, &[c.clone()]);
    let flushed = b.push(60_000, &[]);
    let got: Vec<(&str, f64)> = flushed
        .containers
        .iter()
        .map(|t| (t.metric, value(t.median)))
        .collect();
    assert_eq!(
        got,
        vec![
            ("cpu", 1.0),
            ("mem", 7.0),
            ("net_rx", 2.0),
            ("net_tx", 3.0),
            ("disk_read", 4.0),
            ("disk_write", 5.0)
        ]
    );
    assert!(flushed.containers.iter().all(|t| t.host == "nas"));
    assert!(flushed.containers.iter().all(|t| t.stack.as_deref() == Some("stack")));
}

#[test]
fn an_earlier_sample_stays_in_the_open_bucket() {
    let mut b = Bucketer::new(60);
    b.push(120_000, &[container("x", Some(1.0))]);
    assert!(b.push(60_000, &[container("x", Some(3.0))]).is_empty());
    let flushed = b.push(180_000, &[]);
    assert_eq!(flushed.containers[0].bucket_start_ms, 120_000);
    assert_eq!(flushed.containers[0].samples, 2);
    assert_eq!(f(flushed.containers[0].min), 1.0);
    assert_eq!(f(flushed.containers[0].max), 3.0);
    // A zero width counts as one second.
    let mut b = Bucketer::new(0);
    b.push(1_500, &[container("x", Some(1.0))]);
    let flushed = b.push(2_000, &[]);
    assert_eq!(flushed.containers[0].bucket_start_ms, 1_000);
    assert_eq!(flushed.containers[0].bucket_secs, 1);
}
