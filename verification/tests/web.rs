//! What the pages show.

use dockdoe::controls::{
    action_buttons, container_facts, container_url, host_switch, host_url, page_frame,
    stack_action_buttons, stack_url, Subject,
};
use dockdoe::history::{
    clamp_since, group_for_window, history_ranges, history_source, history_url, named_range,
    raw_group_for_window, resolve_history, HistoryQuery, HistorySource,
};
use dockdoe::links::{overflow_list, port_chips, port_link, port_pills, proto_suffix, Pill, PortLinks};
use dockdoe::logs::{
    is_yaml_path, log_view, render_log_lines, split_log_timestamp, strip_ansi,
};
use dockdoe::model::{ContainerMetrics, ContainerState, HealthState, Port};
use dockdoe::page::{
    action_reply, container_counts_metric, container_point, find_container, fmt_age, fmt_age_secs,
    fmt_bytes, group_by_stack, health_marker, is_fresh, landing_target, mime_for, short_image,
    read_only_after, stack_containers, stack_memory, stack_readings, state_name, ActionReply,
    ActionResult, ContainerCounts, StackKey,
};
use dockdoe::reading::Reading;
use dockdoe::terminal::{
    client_step, terminal_failure, terminal_mode, ClientFrame, ClientStep, TerminalMode,
};

const NOW: u64 = 1_720_000_000_000;

#[test]
fn port_links_from_config_resolves_each_case() {
    let unix = "unix:///var/run/docker.sock";
    let host = |pub_host, url| match PortLinks::from_config(pub_host, url) {
        PortLinks::Host(h) => h,
        other => panic!("expected Host, got {other:?}"),
    };

    // An explicit public_host wins over the endpoint URL.
    assert!(matches!(
        PortLinks::from_config(Some("off"), unix),
        PortLinks::Off
    ));
    assert!(matches!(
        PortLinks::from_config(Some("OFF"), unix),
        PortLinks::Off
    ));
    assert!(matches!(
        PortLinks::from_config(Some("none"), unix),
        PortLinks::Off
    ));
    assert!(matches!(
        PortLinks::from_config(Some("-"), unix),
        PortLinks::Off
    ));
    assert_eq!(host(Some(" 192.168.1.50 "), unix), "192.168.1.50");

    // No usable public_host: a unix socket falls back to the browsing host.
    assert!(matches!(
        PortLinks::from_config(None, unix),
        PortLinks::Browser
    ));
    assert!(matches!(
        PortLinks::from_config(Some(""), unix),
        PortLinks::Browser
    ));
    assert!(matches!(
        PortLinks::from_config(Some("  "), unix),
        PortLinks::Browser
    ));

    // No public_host: derive from a tcp/http/https endpoint's host.
    assert_eq!(host(None, "tcp://nas.lan:2375"), "nas.lan");
    assert_eq!(
        host(None, "https://docker.example.com:2376/"),
        "docker.example.com"
    );
    assert_eq!(host(None, "http://10.0.0.5:2375"), "10.0.0.5");
    assert_eq!(host(None, "tcp://[::1]:2375"), "::1");
}

#[test]
fn fmt_bytes_uses_binary_units() {
    assert_eq!(fmt_bytes(512), "512 B");
    assert_eq!(fmt_bytes(1024), "1.0 KiB");
    assert_eq!(fmt_bytes(1_572_864), "1.5 MiB");
    assert_eq!(fmt_bytes(2 * 1024 * 1024 * 1024), "2.0 GiB");
}

#[test]
fn fmt_bytes_agrees_with_floating_point() {
    let reference = |bytes: u64| {
        let units = ["B", "KiB", "MiB", "GiB", "TiB"];
        let mut value = bytes as f64;
        let mut unit = 0;
        while value >= 1024.0 && unit < units.len() - 1 {
            value /= 1024.0;
            unit += 1;
        }
        if unit == 0 {
            format!("{bytes} B")
        } else {
            format!("{value:.1} {}", units[unit])
        }
    };
    for n in [
        0,
        1023,
        1025,
        1075,
        1076,
        1280,
        1792,
        2304,
        1_048_575,
        1_048_576,
        1_234_567_890,
        (1 << 40) - 1,
        1 << 40,
        (1 << 53) + 1,
        (1 << 54) + 3,
        u64::MAX - 1,
        u64::MAX,
    ] {
        assert_eq!(fmt_bytes(n), reference(n), "{n}");
    }
    let mut n: u64 = 12_345;
    for _ in 0..500 {
        n = n.wrapping_mul(6_364_136_223_846_793_005).wrapping_add(1);
        let m = n >> (n % 60);
        assert_eq!(fmt_bytes(m), reference(m), "{m}");
    }
}

#[test]
fn strip_ansi_removes_escape_sequences() {
    // Colour codes around text are removed, text kept.
    assert_eq!(strip_ansi("\u{1b}[31mred\u{1b}[0m text"), "red text");
    // Multi-line plain text is untouched.
    assert_eq!(strip_ansi("line1\nline2\n"), "line1\nline2\n");
    // Cursor/clear sequences are removed too.
    assert_eq!(strip_ansi("a\u{1b}[2Kb"), "ab");
    // A bare ESC without CSI doesn't eat following text.
    assert_eq!(strip_ansi("ok"), "ok");
}

#[test]
fn a_bare_escape_keeps_what_follows() {
    assert_eq!(strip_ansi("\u{1b}ok"), "ok");
    assert_eq!(strip_ansi("a\u{1b}\u{1b}[1mb"), "ab");
    assert_eq!(strip_ansi("a\u{1b}"), "a");
    // An unfinished sequence swallows the rest.
    assert_eq!(strip_ansi("a\u{1b}[12;"), "a");
}

#[test]
fn resolve_history_handles_named_ranges_and_custom_windows() {
    let seed_window = 3600;
    let named = |range: &str| HistoryQuery {
        range: Some(range.to_string()),
        since_ms: None,
        until_ms: None,
    };
    let window = |since: u64, until: u64| HistoryQuery {
        range: None,
        since_ms: Some(since),
        until_ms: Some(until),
    };

    // 1h fits the raw retention: raw samples, full resolution.
    let w = resolve_history(&named("1h"), seed_window, NOW).unwrap();
    assert!(w.raw);
    assert_eq!(w.group_ms, 60_000);
    // 30d exceeds it: trend buckets, downsampled to 30 min groups.
    let w = resolve_history(&named("30d"), seed_window, NOW).unwrap();
    assert!(!w.raw);
    assert_eq!(w.group_ms, 1_800_000);
    assert!(w.since <= NOW - 29 * 24 * 3_600_000);

    // A recent custom window is served raw, an older one from trends.
    let now = NOW;
    let w = resolve_history(&window(now - 600_000, now), seed_window, NOW).unwrap();
    assert!(w.raw);
    let w = resolve_history(
        &window(now - 86_400_000, now - 7_200_000),
        seed_window,
        NOW,
    )
    .unwrap();
    assert!(!w.raw);
    assert_eq!(w.until, now - 7_200_000);

    // Rejected: unknown name, inverted window, range+window mix, nothing.
    assert!(resolve_history(&named("2y"), seed_window, NOW).is_none());
    assert!(resolve_history(&window(50, 10), seed_window, NOW).is_none());
    let mut mixed = named("1h");
    mixed.since_ms = Some(0);
    mixed.until_ms = Some(10);
    assert!(resolve_history(&mixed, seed_window, NOW).is_none());
    assert!(resolve_history(
        &HistoryQuery {
            range: None,
            since_ms: None,
            until_ms: None
        },
        seed_window,
        NOW
    )
    .is_none());
}

#[test]
fn group_for_window_targets_whole_buckets() {
    // Up to 24h: one point per 60s trend bucket.
    assert_eq!(group_for_window(3_600_000), 60_000);
    assert_eq!(group_for_window(86_400_000), 60_000);
    // 7d: 7min groups, 30d: 30min groups.
    assert_eq!(group_for_window(7 * 86_400_000), 420_000);
    assert_eq!(group_for_window(30 * 86_400_000), 1_800_000);
    // Degenerate windows never yield a zero group.
    assert_eq!(group_for_window(0), 60_000);
}

#[test]
fn fmt_age_scales_units_up_to_days() {
    assert_eq!(fmt_age_secs(0), "just now");
    assert_eq!(fmt_age_secs(1), "1s ago");
    assert_eq!(fmt_age_secs(59), "59s ago");
    assert_eq!(fmt_age_secs(60), "1m ago");
    assert_eq!(fmt_age_secs(3_599), "59m ago");
    // The header hint for a long-stuck collector must not read "4320m ago".
    assert_eq!(fmt_age_secs(3_600), "1h ago");
    assert_eq!(fmt_age_secs(86_399), "23h ago");
    assert_eq!(fmt_age_secs(3 * 86_400), "3d ago");
}

#[test]
fn fmt_age_is_relative_to_now() {
    assert_eq!(fmt_age(NOW - 65_000, NOW), "1m ago");
    assert_eq!(fmt_age(NOW + 5_000, NOW), "just now");
}

#[test]
fn raw_group_caps_points_but_keeps_short_windows_exact() {
    for window_ms in [3_600_000, 86_400_000, 7 * 86_400_000] {
        let points = window_ms / raw_group_for_window(window_ms);
        assert!(
            points <= 1_441,
            "{window_ms}ms window may yield {points} raw points"
        );
    }
    // A short drill-down window's group stays below any realistic interval.
    assert!(raw_group_for_window(600_000) < 1_000);
    // Degenerate windows never yield a zero group.
    assert_eq!(raw_group_for_window(0), 1);
}

#[test]
fn offered_ranges_are_known() {
    let ranges = history_ranges();
    assert_eq!(ranges, vec!["1h", "6h", "24h", "7d", "30d"]);
    let secs: Vec<u64> = ranges.iter().map(|r| named_range(r).unwrap()).collect();
    assert_eq!(secs, vec![3_600, 21_600, 86_400, 604_800, 2_592_000]);
    assert_eq!(named_range("2h"), None);
}

#[test]
fn history_comes_from_raw_samples_or_from_trends_by_name() {
    let q = |since, until| HistoryQuery {
        range: None,
        since_ms: Some(since),
        until_ms: Some(until),
    };
    let recent = resolve_history(&q(NOW - 1_440_000, NOW), 3600, NOW).unwrap();
    assert!(matches!(
        history_source(&recent, Some("web".to_string())),
        HistorySource::Raw(1_000)
    ));
    let old = resolve_history(&q(0, NOW), 3600, NOW).unwrap();
    assert!(
        matches!(history_source(&old, Some("web".to_string())), HistorySource::Trends(n) if n == "web")
    );
    assert!(matches!(history_source(&old, None), HistorySource::LookUp));
    assert_eq!(
        history_url("/host/a/api/metrics/container/x/api/metrics/"),
        "/host/a/api/history/container/x/api/metrics/"
    );
    assert_eq!(history_url(""), "");
}

#[test]
fn split_log_timestamp_extracts_daemon_prefix() {
    // The daemon's nanosecond timestamp is recognised and split off.
    assert_eq!(
        split_log_timestamp("2026-06-12T10:15:30.123456789Z hello world"),
        Some(("2026-06-12T10:15:30.123456789Z", "hello world"))
    );
    // Seconds-precision (no fractional part) works too.
    assert_eq!(
        split_log_timestamp("2026-06-12T10:15:30Z msg"),
        Some(("2026-06-12T10:15:30Z", "msg"))
    );
    // Lines without the prefix are left alone.
    assert_eq!(split_log_timestamp("plain log line"), None);
    assert_eq!(split_log_timestamp(""), None);
    // A first word that merely resembles a timestamp is rejected.
    assert_eq!(split_log_timestamp("2026-06-12T10:15:30 msg"), None);
    assert_eq!(split_log_timestamp("not-a-timestamp-atallZ msg"), None);
}

#[test]
fn log_lines_carry_their_stamps() {
    let lines = render_log_lines("2026-06-12T10:15:30.5Z started\nplain line\r\n\nlast\r");
    assert_eq!(lines.len(), 4);
    assert_eq!(
        lines[0].stamp,
        Some((
            "2026-06-12T10:15:30Z".to_string(),
            "2026-06-12 10:15:30".to_string()
        ))
    );
    assert_eq!(lines[0].message, "started");
    assert_eq!(lines[1].stamp, None);
    assert_eq!(lines[1].message, "plain line");
    assert_eq!(lines[2].message, "");
    assert_eq!(lines[3].message, "last\r");
    assert!(render_log_lines("").is_empty());
    let expected: Vec<&str> = "a\r\n\nb\n".lines().collect();
    let got: Vec<String> = render_log_lines("a\r\n\nb\n")
        .into_iter()
        .map(|l| l.message)
        .collect();
    assert_eq!(got, expected);
    assert!(log_view(" \n\t").is_none());
    assert_eq!(log_view("\u{1b}[1mx\n").unwrap()[0].message, "x");
}

#[test]
fn yaml_paths_are_told_by_their_extension() {
    for path in [
        "/a/compose.yml",
        "compose.YAML",
        "/a/b.yml/",
        "a.yml/.",
        "x/.hidden.yml",
        "...yml",
        "/etc/passwd",
        "a.yml.txt",
        ".yml",
        "/a/.yaml",
        "yml",
        "",
        "..",
        "a.yml/..",
        "/",
        ".",
        "a/..yml",
    ] {
        let reference = std::path::Path::new(path)
            .extension()
            .is_some_and(|e| e.eq_ignore_ascii_case("yml") || e.eq_ignore_ascii_case("yaml"));
        assert_eq!(is_yaml_path(path), reference, "{path}");
    }
}

#[test]
fn short_image_strips_registry() {
    assert_eq!(
        short_image("docker.io/library/nginx:latest"),
        "nginx:latest"
    );
    assert_eq!(short_image("redis:7"), "redis:7");
}

#[test]
fn clamp_since_caps_the_lookback_window() {
    let window = 3600;
    let floor = NOW - 3_600_000;
    // A zero or ancient client value is raised to the window floor…
    assert!(clamp_since(0, window, NOW) >= floor);
    assert_eq!(clamp_since(0, window, NOW), floor);
    // …while a recent value passes through unchanged.
    let recent = NOW - 1_000;
    assert_eq!(clamp_since(recent, window, NOW), recent);
}

fn plain(id: &str) -> ContainerMetrics {
    ContainerMetrics {
        id: id.to_string(),
        name: format!("c-{id}"),
        image: "img".to_string(),
        state: ContainerState::Running,
        status: String::new(),
        health: HealthState::NoCheck,
        stack: None,
        cpu_percent: None,
        mem_used: None,
        mem_limit: None,
        net_rx_bps: None,
        net_tx_bps: None,
        disk_read_bps: None,
        disk_write_bps: None,
        ports: Vec::new(),
    }
}

#[test]
fn container_counts_bucket_by_state_and_health() {
    let c = |state, health| {
        let mut m = plain("x");
        m.state = state;
        m.health = health;
        m
    };
    let containers = [
        c(ContainerState::Running, HealthState::Healthy),
        c(ContainerState::Running, HealthState::Unhealthy),
        c(ContainerState::Exited, HealthState::NoCheck),
        c(ContainerState::Paused, HealthState::NoCheck),
        c(ContainerState::Created, HealthState::NoCheck),
    ];
    assert_eq!(
        ContainerCounts::of(&containers),
        ContainerCounts {
            total: 5,
            running: 2,
            exited: 1,
            other: 2,
            unhealthy: 1,
        }
    );
    assert_eq!(
        ContainerCounts::of(&[]),
        ContainerCounts {
            total: 0,
            running: 0,
            exited: 0,
            other: 0,
            unhealthy: 0,
        }
    );
}

#[test]
fn tally_leaves_out_zeros_except_running() {
    let shown = |counts: ContainerCounts| -> Vec<String> {
        container_counts_metric(&counts)
            .iter()
            .map(|p| format!("{} {} {}", p.class, p.count, p.label))
            .collect()
    };
    assert_eq!(shown(ContainerCounts::of(&[])), vec!["count-ok 0 running"]);
    assert_eq!(
        shown(ContainerCounts {
            total: 6,
            running: 1,
            exited: 2,
            other: 3,
            unhealthy: 1
        }),
        vec![
            "count-ok 1 running",
            "count-err 2 exited",
            "count-idle 3 other",
            "count-err 1 unhealthy"
        ]
    );
}

#[test]
fn stack_key_sorts_standalone_last() {
    let mut keys = vec![
        StackKey::Standalone,
        StackKey::Named("alpha"),
        StackKey::Named("beta"),
    ];
    keys.sort();
    assert_eq!(
        keys,
        vec![
            StackKey::Named("alpha"),
            StackKey::Named("beta"),
            StackKey::Standalone,
        ]
    );
}

#[test]
fn containers_group_by_stack_and_sort_by_name() {
    let c = |id: &str, name: &str, stack: Option<&str>| {
        let mut m = plain(id);
        m.name = name.to_string();
        m.stack = stack.map(str::to_string);
        m
    };
    let containers = vec![
        c("1", "zeta", None),
        c("2", "b", Some("beta")),
        c("3", "same", Some("alpha")),
        c("4", "a", Some("beta")),
        c("5", "same", Some("alpha")),
        c("6", "Zed", None),
        c("7", "é", Some("alpha")),
    ];
    let groups = group_by_stack(&containers);
    let got: Vec<(StackKey, Vec<&str>)> = groups
        .iter()
        .map(|g| (g.key, g.members.iter().map(|m| m.id.as_str()).collect()))
        .collect();
    assert_eq!(
        got,
        vec![
            (StackKey::Named("alpha"), vec!["3", "5", "7"]),
            (StackKey::Named("beta"), vec!["4", "2"]),
            (StackKey::Standalone, vec!["6", "1"]),
        ]
    );
    let mut keys: Vec<StackKey> = groups.iter().map(|g| g.key).collect();
    keys.sort();
    assert_eq!(keys, groups.iter().map(|g| g.key).collect::<Vec<_>>());
    assert!(group_by_stack(&[]).is_empty());
}

#[test]
fn stack_members_are_filtered_and_their_memory_summed() {
    let mut a = plain("a");
    a.stack = Some("s".to_string());
    a.mem_used = Some(5);
    let mut b = plain("b");
    b.stack = Some("s".to_string());
    let mut c = plain("c");
    c.mem_used = Some(100);
    let all = vec![a, c, b];
    let members = stack_containers(&all, "s");
    assert_eq!(members.len(), 2);
    assert_eq!(stack_memory(&members), 5);
    assert_eq!(find_container(&all, "b").unwrap().name, "c-b");
    assert!(find_container(&all, "z").is_none());
}

#[test]
fn points_show_missing_cpu_as_zero() {
    let mut c = plain("a");
    c.mem_used = Some(9);
    let p = container_point(7, &c);
    assert_eq!(p.ts_ms, 7);
    assert_eq!(p.cpu_percent.to_bits(), 0.0f64.to_bits());
    assert_eq!(p.mem_used, Some(9));
    assert!(p.net_rx.is_none());
    assert!(is_fresh(5, 4));
    assert!(!is_fresh(5, 5));
}

fn port(private: u16, public: Option<u16>, proto: &str) -> Port {
    Port {
        private,
        public,
        proto: proto.to_string(),
    }
}

#[test]
fn port_pills_link_according_to_the_host() {
    let p = port(80, Some(8080), "tcp");
    let browser = port_link(&p, true, &PortLinks::Browser);
    assert_eq!(browser.label, "8080 → 80");
    assert_eq!(browser.title, "host 8080 → container 80/tcp");
    assert_eq!(browser.href.as_deref(), Some("http://localhost:8080"));
    assert_eq!(browser.browser_port, Some(8080));
    let fixed = port_link(&p, false, &PortLinks::Host("nas.lan".to_string()));
    assert_eq!(fixed.label, "8080");
    assert_eq!(fixed.href.as_deref(), Some("http://nas.lan:8080"));
    assert_eq!(fixed.browser_port, None);
    let off = port_link(&port(53, Some(53), "udp"), false, &PortLinks::Off);
    assert_eq!(off.label, "53/udp");
    assert_eq!(off.href, None);

    let pills = port_pills(&[p, port(5432, None, "sctp")], &PortLinks::Off);
    assert!(matches!(&pills[0], Pill::Published(x) if x.label == "8080 → 80"));
    assert!(matches!(&pills[1], Pill::Internal(l) if l == "5432/sctp"));
    assert_eq!(proto_suffix("tcp"), "");
    assert_eq!(proto_suffix("udp"), "/udp");
}

#[test]
fn port_chips_collapse_the_rest() {
    let ports = vec![
        port(1, Some(10), "tcp"),
        port(2, None, "tcp"),
        port(3, Some(30), "tcp"),
        port(4, Some(40), "udp"),
        port(5, Some(50), "tcp"),
    ];
    let chips = port_chips(&ports, &PortLinks::Off);
    assert_eq!(chips.shown.len(), 2);
    assert_eq!(chips.shown[1].label, "30");
    assert_eq!(chips.more, 2);
    assert_eq!(chips.more_list, "40/udp  50");
    let none = port_chips(&[port(2, None, "tcp")], &PortLinks::Off);
    assert!(none.shown.is_empty());
    assert_eq!(none.more, 0);
    assert_eq!(overflow_list(&[]), "");
    assert_eq!(
        overflow_list(&[&ports[0], &ports[1], &ports[3]]),
        "10  40/udp"
    );
}

#[test]
fn labels_and_types() {
    assert_eq!(state_name(ContainerState::Stopping), "stopping");
    assert_eq!(state_name(ContainerState::Unknown), "unknown");
    assert_eq!(health_marker(HealthState::Starting), Some(("starting", "● starting")));
    assert_eq!(health_marker(HealthState::NoCheck), None);
    assert_eq!(mime_for("a/dockdoe.css"), "text/css; charset=utf-8");
    assert_eq!(mime_for("live.js"), "text/javascript; charset=utf-8");
    assert_eq!(mime_for("x.min.svg"), "image/svg+xml");
    assert_eq!(mime_for("x.SVG"), "application/octet-stream");
    assert_eq!(mime_for("css"), "text/css; charset=utf-8");
}

#[test]
fn decisions_of_the_pages() {
    assert_eq!(landing_target(&["a".to_string()]).as_deref(), Some("/host/a"));
    assert_eq!(landing_target(&["a".to_string(), "b".to_string()]), None);
    assert_eq!(landing_target(&[]), None);
    assert_eq!(terminal_mode(ContainerState::Running, false), TerminalMode::Interactive);
    assert_eq!(terminal_mode(ContainerState::Running, true), TerminalMode::ReadOnly);
    assert_eq!(terminal_mode(ContainerState::Exited, false), TerminalMode::NotRunning);
    assert_eq!(action_reply(ActionResult::Applied, true), ActionReply::Buttons(true));
    assert_eq!(action_reply(ActionResult::Forbidden, false), ActionReply::Latch);
    assert_eq!(action_reply(ActionResult::Failed, false), ActionReply::Failure);
    assert_eq!(
        terminal_failure("no"),
        "\r\n\x1b[31mfailed to start terminal: no\x1b[0m\r\n"
    );
}

#[test]
fn render_log_lines_wraps_timestamps_in_spans() {
    let html: String = render_log_lines("2026-06-12T10:15:30.5Z started\nplain line\n")
        .iter()
        .map(|line| match &line.stamp {
            Some((at, shown)) => format!(
                "<span class=\"log-ts\" data-ts=\"{at}\">{shown}</span> {}\n",
                line.message
            ),
            None => format!("{}\n", line.message),
        })
        .collect();
    // The timestamp stands apart, with a precision of seconds…
    assert!(html.contains(r#"<span class="log-ts" data-ts="2026-06-12T10:15:30Z">"#));
    assert!(html.contains("2026-06-12 10:15:30</span> started\n"));
    // …while lines without one pass through untouched.
    assert!(html.contains("plain line\n"));
}

#[test]
fn stack_readings_keep_what_is_present() {
    let r = |v: f64| Reading::from_bits(v.to_bits()).unwrap();
    let mut a = plain("a");
    a.cpu_percent = Some(r(1.5));
    a.net_rx_bps = Some(r(10.0));
    let b = plain("b");
    let mut c = plain("c");
    c.cpu_percent = Some(r(2.5));
    c.disk_write_bps = Some(r(7.0));
    let s = stack_readings(&[&a, &b, &c]);
    let floats = |v: &Vec<Reading>| -> Vec<f64> {
        v.iter().map(|x| f64::from_bits(x.to_bits())).collect()
    };
    assert_eq!(floats(&s.cpu), vec![1.5, 2.5]);
    assert_eq!(floats(&s.net_rx), vec![10.0]);
    assert!(s.net_tx.is_empty());
    assert!(s.disk_read.is_empty());
    assert_eq!(floats(&s.disk_write), vec![7.0]);
}

#[test]
fn a_forbidding_host_stays_read_only() {
    assert!(!read_only_after(false, ActionResult::Applied));
    assert!(!read_only_after(false, ActionResult::Failed));
    assert!(read_only_after(false, ActionResult::Forbidden));
    assert!(read_only_after(true, ActionResult::Applied));
}

#[test]
fn terminals_follow_the_browser() {
    assert_eq!(client_step(ClientFrame::Binary), ClientStep::Feed);
    assert_eq!(
        client_step(ClientFrame::Text(Some((80, 24)))),
        ClientStep::Resize(80, 24)
    );
    assert_eq!(client_step(ClientFrame::Text(None)), ClientStep::Skip);
    assert_eq!(client_step(ClientFrame::Close), ClientStep::End);
    assert_eq!(client_step(ClientFrame::Other), ClientStep::Skip);
}

#[test]
fn pages_know_their_addresses() {
    let f = page_frame("nas", Subject::Dashboard);
    assert_eq!(f.live_url, "/host/nas/events");
    assert_eq!(f.backfill_url, "");
    assert_eq!(f.history_url, "");
    assert!(!f.terminal);
    let f = page_frame("nas", Subject::Container("abc"));
    assert_eq!(f.live_url, "/host/nas/events/container/abc");
    assert_eq!(f.backfill_url, "/host/nas/api/metrics/container/abc");
    assert_eq!(f.history_url, "/host/nas/api/history/container/abc");
    assert!(f.terminal);
    let f = page_frame("api", Subject::Stack("web"));
    assert_eq!(f.live_url, "/host/api/events/stack/web");
    assert_eq!(f.history_url, "/host/api/api/history/stack/web");
    assert!(!f.terminal);
    assert_eq!(host_url("nas"), "/host/nas");
    assert_eq!(container_url("nas", "abc"), "/host/nas/container/abc");
    assert_eq!(stack_url("nas", "web"), "/host/nas/stack/web");
}

#[test]
fn buttons_post_actions_and_ask_before_interrupting() {
    let shown = |b: &dockdoe::controls::Button| {
        format!(
            "{} {} {} {}",
            b.url,
            b.title,
            b.glyph,
            b.confirm.as_deref().unwrap_or("-")
        )
    };
    let got: Vec<String> = action_buttons("nas", "abc").iter().map(shown).collect();
    assert_eq!(
        got,
        vec![
            "/host/nas/api/container/abc/start Start ▶ -",
            "/host/nas/api/container/abc/restart Restart ⟳ Restart this container?",
            "/host/nas/api/container/abc/stop Stop ■ Stop this container?",
        ]
    );
    let got: Vec<String> = stack_action_buttons("nas", "web").iter().map(shown).collect();
    assert_eq!(
        got,
        vec![
            "/host/nas/api/stack/web/start Start all ▶ -",
            "/host/nas/api/stack/web/restart Restart all ⟳ Restart all containers in web?",
            "/host/nas/api/stack/web/stop Stop all ■ Stop all containers in web?",
        ]
    );
}

#[test]
fn facts_and_tabs() {
    let mut c = plain("0123456789abcdef");
    c.image = "ghcr.io/x/y:1".to_string();
    c.status = "Up".to_string();
    let shown = |c: &ContainerMetrics| -> Vec<String> {
        container_facts(c)
            .iter()
            .map(|f| format!("{}: {}", f.label, f.shown))
            .collect()
    };
    assert_eq!(
        shown(&c),
        vec![
            "Image: y:1",
            "Container ID: 0123456789ab",
            "Status: Up",
            "Memory limit: —"
        ]
    );
    c.mem_limit = Some(1 << 30);
    assert_eq!(shown(&c)[3], "Memory limit: 1.0 GiB");

    let hosts = vec!["a".to_string(), "b".to_string()];
    let tabs = host_switch("b", &hosts);
    assert_eq!(tabs.len(), 2);
    assert_eq!(tabs[0].name, "a");
    assert_eq!(tabs[0].href.as_deref(), Some("/host/a"));
    assert_eq!(tabs[1].href, None);
    assert!(host_switch("a", &hosts[..1]).is_empty());
}
