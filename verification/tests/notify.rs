//! Notifications.

use dockdoe::model::{ContainerMetrics, ContainerState, HealthState};
use dockdoe::notify::{notification_for, status_of, Status, Tracker};

fn container(id: &str, state: ContainerState, health: HealthState) -> ContainerMetrics {
    ContainerMetrics {
        id: id.to_string(),
        name: id.to_string(),
        image: "img".to_string(),
        state,
        status: "status".to_string(),
        health,
        stack: None,
        cpu_percent: None,
        mem_used: None,
        mem_limit: None,
        net_rx_bps: None,
        net_tx_bps: None,
        disk_read_bps: None,
        disk_write_bps: None,
        ports: Vec::new(),
    }
}

fn up(id: &str) -> ContainerMetrics {
    container(id, ContainerState::Running, HealthState::NoCheck)
}
fn down(id: &str) -> ContainerMetrics {
    container(id, ContainerState::Exited, HealthState::NoCheck)
}
fn unhealthy(id: &str) -> ContainerMetrics {
    container(id, ContainerState::Running, HealthState::Unhealthy)
}

fn tracker(delay_ms: u64) -> Tracker {
    Tracker::new("prod".to_string(), delay_ms)
}

#[test]
fn first_sighting_is_silent() {
    let mut t = tracker(0);
    // Even an already-down container on the first snapshot must not alert.
    assert!(t.evaluate(1000, &[down("a"), up("b")]).is_empty());
}

#[test]
fn change_waits_out_the_incubation_delay() {
    let mut t = tracker(30_000);
    assert!(t.evaluate(0, &[up("a")]).is_empty()); // baseline
    assert!(t.evaluate(1_000, &[down("a")]).is_empty()); // pending, too soon
    assert!(t.evaluate(20_000, &[down("a")]).is_empty()); // still too soon

    let notes = t.evaluate(31_000, &[down("a")]); // 31_000 - 1_000 >= 30_000
    assert_eq!(notes.len(), 1);
    assert_eq!(notes[0].kind, "failure");
}

#[test]
fn a_flap_within_the_delay_is_swallowed() {
    let mut t = tracker(30_000);
    t.evaluate(0, &[up("a")]);
    t.evaluate(1_000, &[down("a")]); // pending down
    assert!(t.evaluate(2_000, &[up("a")]).is_empty()); // recovered in time
    // ...and stays up well past the old deadline: nothing fires.
    assert!(t.evaluate(40_000, &[up("a")]).is_empty());
}

#[test]
fn recovery_is_reported_too() {
    let mut t = tracker(0); // immediate, to keep the test short
    t.evaluate(0, &[up("a")]);
    let down_note = t.evaluate(1_000, &[down("a")]);
    assert_eq!(down_note.len(), 1);
    assert_eq!(down_note[0].kind, "failure");

    let up_note = t.evaluate(2_000, &[up("a")]);
    assert_eq!(up_note.len(), 1);
    assert_eq!(up_note[0].kind, "success");
}

#[test]
fn unhealthy_maps_to_a_warning() {
    let mut t = tracker(0);
    t.evaluate(0, &[up("a")]);
    let notes = t.evaluate(1_000, &[unhealthy("a")]);
    assert_eq!(notes.len(), 1);
    assert_eq!(notes[0].kind, "warning");
}

#[test]
fn a_shifting_target_restarts_the_timer() {
    let mut t = tracker(10_000);
    t.evaluate(0, &[up("a")]);
    t.evaluate(1_000, &[down("a")]); // pending down since 1_000
    // Target moves to unhealthy at 5_000 → timer restarts from there.
    assert!(t.evaluate(5_000, &[unhealthy("a")]).is_empty());
    assert!(t.evaluate(12_000, &[unhealthy("a")]).is_empty()); // 12_000 - 5_000 < 10_000

    let notes = t.evaluate(15_001, &[unhealthy("a")]); // 15_001 - 5_000 >= 10_000
    assert_eq!(notes.len(), 1);
    assert_eq!(notes[0].kind, "warning");
}

#[test]
fn a_vanished_container_is_forgotten_and_rebaselines() {
    let mut t = tracker(0);
    t.evaluate(0, &[up("a")]); // baseline
    assert!(t.evaluate(1_000, &[]).is_empty()); // gone
    assert!(t.is_empty()); // and forgotten
    // Reappears already down → adopted silently, no spurious alert.
    assert!(t.evaluate(2_000, &[down("a")]).is_empty());
}

#[test]
fn messages_name_the_container_its_stack_and_its_host() {
    let mut c = down("web");
    c.status = "Exited (1) 2 seconds ago".to_string();
    let n = notification_for("prod", &c, Status::Down);
    assert_eq!(n.kind, "failure");
    assert_eq!(
        n.body,
        "Container 'web' on host 'prod' is down — Exited (1) 2 seconds ago"
    );
    c.stack = Some("blog".to_string());
    assert_eq!(
        notification_for("prod", &c, Status::Up).body,
        "Container 'web' (stack blog) on host 'prod' recovered — Exited (1) 2 seconds ago"
    );
    assert_eq!(
        notification_for("prod", &c, Status::Unhealthy).body,
        "Container 'web' (stack blog) on host 'prod' is unhealthy — Exited (1) 2 seconds ago"
    );
}

#[test]
fn status_collapses_state_and_health() {
    assert_eq!(status_of(&up("a")), Status::Up);
    assert_eq!(status_of(&unhealthy("a")), Status::Unhealthy);
    assert_eq!(status_of(&down("a")), Status::Down);
    let paused = container("a", ContainerState::Paused, HealthState::Unhealthy);
    assert_eq!(status_of(&paused), Status::Down);
}

#[test]
fn containers_are_watched_independently() {
    let mut t = tracker(10);
    t.evaluate(0, &[up("a"), up("b"), up("c")]);
    t.evaluate(1, &[up("a"), down("b"), down("c")]);
    let notes = t.evaluate(11, &[down("a"), down("b"), up("c")]);
    assert_eq!(notes.len(), 1);
    assert!(notes[0].body.contains("'b'"));
}

#[test]
fn a_clock_that_goes_back_reports_nothing() {
    let mut t = tracker(10);
    t.evaluate(1_000, &[up("a")]);
    t.evaluate(1_001, &[down("a")]);
    assert!(t.evaluate(5, &[down("a")]).is_empty());
    assert_eq!(t.evaluate(1_011, &[down("a")]).len(), 1);
}
