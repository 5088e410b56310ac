//! Containers, counters, stacks and lifecycle.

use dockdoe::docker::{
    blkio_totals, compose_config_files, compose_project, cpu_percent_from_deltas, display_name,
    exec_argv, host_cpus, ids_to_sample, map_state, memory, network_totals, online_cpus, parse_health, ports,
    rate, stack_members, BlkioEntry, ByteRate, ContainerStats, ContainerSummary, CpuShare,
    CpuStats, CpuUsage, MemoryStats, NetworkStats, PortKind, PortSummary, PrevCpu, Sampler,
    SummaryState,
};
use dockdoe::lifecycle::{
    restart_outcome, run_state, wait_completed, wait_healthy, Action, HealthReport, RestartCommand,
    RestartEvent, StackRestart, StackStart, StackStop, StartCommand, StartEvent, StopCommand, WaitStep, DEP_WAIT_MS,
};
use dockdoe::model::{ContainerState, HealthState, Port};
use dockdoe::stack::{
    add_namespace_deps, namespace_targets, parse_depends_on, resolve_service, service_ids,
    topo_order, Dep, DepCondition, Member, StackOutcome,
};

fn percent(s: CpuShare) -> f64 {
    (s.busy as f64 / s.total as f64) * s.cpus as f64 * 100.0
}

fn per_second(r: ByteRate) -> f64 {
    r.bytes as f64 / (r.nanos as f64 / 1e9)
}

fn no_stats() -> ContainerStats {
    ContainerStats {
        cpu_stats: None,
        memory_stats: None,
        networks: None,
        io_service_bytes: None,
    }
}

fn no_summary() -> ContainerSummary {
    ContainerSummary {
        id: None,
        names: None,
        image: None,
        state: None,
        status: None,
        labels: None,
        ports: None,
    }
}

#[test]
fn cpu_percent_matches_the_docker_stats_formula() {
    let prev = PrevCpu {
        total_usage: 1_000,
        system_usage: 100_000,
    };
    // 500 of 10_000 ns of host CPU time on 2 CPUs: 5% · 2 = 10%.
    let pct = percent(cpu_percent_from_deltas(prev, 1_500, 110_000, 2));
    assert!((pct - 10.0).abs() < 1e-9);
}

#[test]
fn cpu_percent_is_zero_without_progress() {
    let prev = PrevCpu {
        total_usage: 5_000,
        system_usage: 100_000,
    };
    assert!(percent(cpu_percent_from_deltas(prev, 5_000, 110_000, 4)).abs() < f64::EPSILON);
    assert!(percent(cpu_percent_from_deltas(prev, 6_000, 100_000, 4)).abs() < f64::EPSILON);
}

#[test]
fn cpu_percent_saturates_on_counter_regression() {
    let prev = PrevCpu {
        total_usage: 5_000,
        system_usage: 100_000,
    };
    assert!(percent(cpu_percent_from_deltas(prev, 1_000, 110_000, 4)).abs() < f64::EPSILON);
    assert!(percent(cpu_percent_from_deltas(prev, 6_000, 90_000, 4)).abs() < f64::EPSILON);
}

#[test]
fn online_cpus_prefers_field_then_percpu_list_then_one() {
    let none = CpuStats {
        cpu_usage: None,
        system_cpu_usage: None,
        online_cpus: None,
    };
    let with_field = CpuStats {
        online_cpus: Some(3),
        ..none
    };
    assert_eq!(online_cpus(&with_field), 3);

    let with_percpu = CpuStats {
        cpu_usage: Some(CpuUsage {
            total_usage: None,
            percpu_count: Some(2),
        }),
        ..none
    };
    assert_eq!(online_cpus(&with_percpu), 2);

    assert_eq!(online_cpus(&none), 1);

    // A reported 0 must not zero the percentage.
    let zero_field = CpuStats {
        online_cpus: Some(0),
        ..with_percpu
    };
    assert_eq!(online_cpus(&zero_field), 1);
}

#[test]
fn parse_health_recognises_states() {
    assert_eq!(parse_health("Up 2 hours (healthy)"), HealthState::Healthy);
    assert_eq!(
        parse_health("Up 1 minute (unhealthy)"),
        HealthState::Unhealthy
    );
    assert_eq!(
        parse_health("Up 5 seconds (health: starting)"),
        HealthState::Starting
    );
    assert_eq!(parse_health("Up 3 days"), HealthState::NoCheck);
    assert_eq!(parse_health("Exited (0) 2 hours ago"), HealthState::NoCheck);
}

#[test]
fn parse_depends_on_reads_services_and_conditions() {
    let deps = parse_depends_on("side:service_healthy:false,db:service_started:true");
    assert_eq!(
        deps,
        vec![
            Dep {
                service: "side".to_string(),
                condition: DepCondition::Healthy,
            },
            Dep {
                service: "db".to_string(),
                condition: DepCondition::Started,
            },
        ]
    );
    assert!(parse_depends_on("").is_empty());
    assert_eq!(
        parse_depends_on("init:service_completed_successfully:false")[0].condition,
        DepCondition::CompletedSuccessfully
    );
}

#[test]
fn depends_on_entries_are_trimmed_and_empty_ones_dropped() {
    let deps = parse_depends_on(" a , ,:service_healthy, b :service_healthy:x:y");
    let got: Vec<(&str, DepCondition)> = deps
        .iter()
        .map(|d| (d.service.as_str(), d.condition))
        .collect();
    assert_eq!(
        got,
        vec![("a", DepCondition::Started), ("b", DepCondition::Healthy)]
    );
}

fn member(service: &str, deps: &[&str]) -> Member {
    Member {
        id: format!("id-{service}"),
        service: service.to_string(),
        deps: deps
            .iter()
            .map(|s| Dep {
                service: (*s).to_string(),
                condition: DepCondition::Started,
            })
            .collect(),
    }
}

fn order(members: &[Member]) -> Vec<&str> {
    topo_order(members)
        .iter()
        .map(|m| m.service.as_str())
        .collect()
}

#[test]
fn topo_order_places_dependencies_first() {
    // app depends on side, so side must come first regardless of input order.
    let members = vec![member("app", &["side"]), member("side", &[])];
    assert_eq!(order(&members), vec!["side", "app"]);
}

#[test]
fn topo_order_handles_a_chain() {
    let members = vec![member("a", &["b"]), member("b", &["c"]), member("c", &[])];
    assert_eq!(order(&members), vec!["c", "b", "a"]);
}

#[test]
fn topo_order_survives_a_cycle() {
    let members = vec![member("a", &["b"]), member("b", &["a"])];
    let got = order(&members);
    assert_eq!(got.len(), 2);
}

#[test]
fn topo_order_ignores_out_of_stack_dependencies() {
    let members = vec![member("app", &["external"])];
    assert_eq!(order(&members), vec!["app"]);
}

#[test]
fn topo_order_keeps_rounds_and_puts_the_stuck_last() {
    let members = vec![
        member("x", &["y"]),
        member("web", &["db", "cache"]),
        member("y", &["x"]),
        member("cache", &[]),
        member("db", &[]),
        member("z", &["x"]),
    ];
    assert_eq!(order(&members), vec!["cache", "db", "web", "x", "y", "z"]);
    assert!(order(&[]).is_empty());
}

#[test]
fn resolve_service_matches_full_and_short_ids() {
    let map: Vec<(String, String)> = vec![
        ("abc123def456".to_string(), "side".to_string()),
        ("999888777".to_string(), "db".to_string()),
    ];
    // Full id.
    assert_eq!(
        resolve_service(&map, "abc123def456").as_deref(),
        Some("side")
    );
    // Short-id prefix.
    assert_eq!(resolve_service(&map, "abc123").as_deref(), Some("side"));
    // Unknown container: not in this stack.
    assert_eq!(resolve_service(&map, "deadbeef"), None);
}

fn port_summary(public: Option<u16>, private: u16, kind: PortKind) -> PortSummary {
    PortSummary {
        private_port: private,
        public_port: public,
        kind: Some(kind),
    }
}

#[test]
fn ports_dedupes_and_sorts_published_first() {
    let summary = ContainerSummary {
        ports: Some(vec![
            // An internal-only exposed port.
            port_summary(None, 5432, PortKind::Tcp),
            // The same published mapping over IPv4 and IPv6: one entry.
            port_summary(Some(8080), 80, PortKind::Tcp),
            port_summary(Some(8080), 80, PortKind::Tcp),
            // A second published port, lower host port: sorts first.
            port_summary(Some(443), 443, PortKind::Tcp),
            // UDP keeps its protocol and is distinct from a same-number TCP.
            port_summary(Some(53), 53, PortKind::Udp),
        ]),
        ..no_summary()
    };

    let got = ports(&summary);

    assert_eq!(
        got,
        vec![
            Port {
                private: 53,
                public: Some(53),
                proto: "udp".to_string()
            },
            Port {
                private: 443,
                public: Some(443),
                proto: "tcp".to_string()
            },
            Port {
                private: 80,
                public: Some(8080),
                proto: "tcp".to_string()
            },
            // Internal-only last.
            Port {
                private: 5432,
                public: None,
                proto: "tcp".to_string()
            },
        ]
    );
}

#[test]
fn ports_empty_when_none_reported() {
    assert!(ports(&no_summary()).is_empty());
}

#[test]
fn rate_is_delta_over_seconds_and_none_without_both_readings() {
    let two_secs = 2_000_000_000;
    // 3000 bytes over 2 s is 1500 B/s.
    assert_eq!(
        rate(Some(5_000), Some(2_000), two_secs).map(per_second),
        Some(1500.0)
    );
    // A counter regression saturates to 0 instead of wrapping.
    assert_eq!(
        rate(Some(1_000), Some(5_000), two_secs).map(per_second),
        Some(0.0)
    );
    // Missing either reading: unknown.
    assert_eq!(rate(None, Some(2_000), two_secs), None);
    assert_eq!(rate(Some(5_000), None, two_secs), None);
}

#[test]
fn network_totals_sum_interfaces_or_none() {
    let net = |rx, tx| NetworkStats {
        rx_bytes: Some(rx),
        tx_bytes: Some(tx),
    };
    let stats = ContainerStats {
        networks: Some(vec![net(100, 10), net(50, 5)]),
        ..no_stats()
    };
    assert_eq!(network_totals(&stats), (Some(150), Some(15)));
    // No networks reported at all: unknown, not zero.
    assert_eq!(network_totals(&no_stats()), (None, None));
    // Sums are capped.
    let huge = ContainerStats {
        networks: Some(vec![
            net(u64::MAX, 1),
            net(5, 2),
            NetworkStats {
                rx_bytes: None,
                tx_bytes: None,
            },
        ]),
        ..no_stats()
    };
    assert_eq!(network_totals(&huge), (Some(u64::MAX), Some(3)));
}

#[test]
fn blkio_totals_sum_read_write_case_insensitively() {
    let entry = |op: &str, value| BlkioEntry {
        op: Some(op.to_string()),
        value: Some(value),
    };
    let stats = ContainerStats {
        io_service_bytes: Some(vec![
            entry("Read", 100),
            entry("read", 50),
            entry("write", 30),
            entry("Async", 999),
            BlkioEntry {
                op: None,
                value: Some(7),
            },
        ]),
        ..no_stats()
    };
    assert_eq!(blkio_totals(&stats), (Some(150), Some(30)));
    // No block-I/O stats: unknown.
    assert_eq!(blkio_totals(&no_stats()), (None, None));
}

#[test]
fn host_cpus_prefers_what_the_engine_reports() {
    assert_eq!(host_cpus(Some(16), Some(4)), 16);
    assert_eq!(host_cpus(Some(0), Some(4)), 4);
    assert_eq!(host_cpus(Some(-1), None), 1);
    assert_eq!(host_cpus(None, Some(2)), 2);
}

#[test]
fn memory_excludes_the_page_cache() {
    let mem = |stats: Option<Vec<(String, u64)>>| ContainerStats {
        memory_stats: Some(MemoryStats {
            usage: Some(1000),
            limit: Some(5000),
            stats,
        }),
        ..no_stats()
    };
    let pair = |k: &str, v| (k.to_string(), v);
    assert_eq!(memory(&mem(None)), (Some(1000), Some(5000)));
    assert_eq!(
        memory(&mem(Some(vec![
            pair("total_inactive_file", 300),
            pair("inactive_file", 100)
        ]))),
        (Some(900), Some(5000))
    );
    assert_eq!(
        memory(&mem(Some(vec![pair("total_inactive_file", 300)]))),
        (Some(700), Some(5000))
    );
    assert_eq!(
        memory(&mem(Some(vec![pair("inactive_file", 3000)]))),
        (Some(0), Some(5000))
    );
    assert_eq!(memory(&no_stats()), (None, None));
}

#[test]
fn names_fall_back_to_a_short_id() {
    let mut s = no_summary();
    s.id = Some("0123456789abcdef".to_string());
    assert_eq!(display_name(&s), "0123456789ab");
    s.names = Some(vec![]);
    assert_eq!(display_name(&s), "0123456789ab");
    s.names = Some(vec!["/web-1".to_string(), "/alias".to_string()]);
    assert_eq!(display_name(&s), "web-1");
    assert_eq!(display_name(&no_summary()), "");
    assert_eq!(compose_project(&s), None);
    s.labels = Some(vec![(
        "com.docker.compose.project".to_string(),
        "blog".to_string(),
    )]);
    assert_eq!(compose_project(&s).as_deref(), Some("blog"));
    assert_eq!(map_state(None), ContainerState::Unknown);
    assert_eq!(map_state(Some(SummaryState::Empty)), ContainerState::Unknown);
    assert_eq!(map_state(Some(SummaryState::Dead)), ContainerState::Dead);
}

fn running(id: &str) -> ContainerSummary {
    ContainerSummary {
        id: Some(id.to_string()),
        state: Some(SummaryState::Running),
        status: Some("Up (healthy)".to_string()),
        ..no_summary()
    }
}

fn sample(cpu: u64, system: u64, rx: u64) -> ContainerStats {
    ContainerStats {
        cpu_stats: Some(CpuStats {
            cpu_usage: Some(CpuUsage {
                total_usage: Some(cpu),
                percpu_count: None,
            }),
            system_cpu_usage: Some(system),
            online_cpus: Some(4),
        }),
        networks: Some(vec![NetworkStats {
            rx_bytes: Some(rx),
            tx_bytes: None,
        }]),
        ..no_stats()
    }
}

#[test]
fn sampler_needs_two_samples_and_forgets_the_gone() {
    let mut s = Sampler::new();
    let one = |cpu, system, rx| vec![("a".to_string(), sample(cpu, system, rx))];
    let first = s.collect(&[running("a")], &one(100, 1_000, 10), 1_000_000_000);
    assert_eq!(first[0].cpu, None);
    assert_eq!(first[0].io.net_rx, None);
    assert_eq!(first[0].metrics.health, HealthState::Healthy);

    let second = s.collect(&[running("a")], &one(200, 2_000, 2_010), 2_000_000_000);
    let share = second[0].cpu.unwrap();
    assert!((percent(share) - 40.0).abs() < 1e-9);
    assert_eq!(second[0].io.net_rx.map(per_second), Some(2_000.0));
    assert_eq!(second[0].io.net_tx.map(per_second), Some(0.0));
    assert_eq!(second[0].io.disk_read, None);

    // No time has passed: no rates, but a share.
    let same = s.collect(&[running("a")], &one(300, 3_000, 5_000), 2_000_000_000);
    assert_eq!(same[0].io.net_rx, None);
    assert!(same[0].cpu.is_some());

    // Gone for a cycle: the baseline is forgotten.
    s.collect(&[], &[], 3_000_000_000);
    let back = s.collect(&[running("a")], &one(400, 4_000, 6_000), 4_000_000_000);
    assert_eq!(back[0].cpu, None);
    assert_eq!(back[0].io.net_rx, None);

    // Without a sample there is identity only.
    let idle = s.collect(&[running("b")], &[], 5_000_000_000);
    assert_eq!(idle[0].metrics.id, "b");
    assert_eq!(idle[0].metrics.state, ContainerState::Running);
    assert_eq!(idle[0].cpu, None);
    assert_eq!(idle[0].metrics.mem_used, None);
}

#[test]
fn only_running_containers_are_sampled() {
    let mut stopped = running("b");
    stopped.state = Some(SummaryState::Exited);
    assert_eq!(
        ids_to_sample(&[running("a"), stopped, running("c")]),
        vec!["a".to_string(), "c".to_string()]
    );
}

fn labelled(id: Option<&str>, labels: &[(&str, &str)]) -> ContainerSummary {
    ContainerSummary {
        id: id.map(str::to_string),
        labels: Some(
            labels
                .iter()
                .map(|(k, v)| (k.to_string(), v.to_string()))
                .collect(),
        ),
        ..no_summary()
    }
}

#[test]
fn stack_members_come_from_labels() {
    let project = ("com.docker.compose.project", "blog");
    let summaries = vec![
        no_summary(),
        labelled(
            Some("1"),
            &[
                project,
                ("com.docker.compose.service", "web"),
                ("com.docker.compose.depends_on", "db:service_healthy:true"),
            ],
        ),
        labelled(Some("2"), &[("com.docker.compose.project", "other")]),
        labelled(None, &[project]),
        labelled(Some("3"), &[project]),
    ];
    let members = stack_members(&summaries, "blog");
    assert_eq!(members.len(), 2);
    assert_eq!(members[0].id, "1");
    assert_eq!(members[0].service, "web");
    assert_eq!(members[0].deps[0].condition, DepCondition::Healthy);
    assert_eq!(members[1].service, "");
    assert!(members[1].deps.is_empty());
}

#[test]
fn compose_files_come_from_the_first_member() {
    let files = "com.docker.compose.project.config_files";
    let project = ("com.docker.compose.project", "blog");
    let summaries = vec![
        labelled(Some("0"), &[("com.docker.compose.project", "x"), (files, "/x.yml")]),
        labelled(Some("1"), &[project, (files, " /a.yml ,, /b.yaml")]),
        labelled(Some("2"), &[project, (files, "/c.yml")]),
    ];
    assert_eq!(
        compose_config_files(&summaries, "blog"),
        vec!["/a.yml".to_string(), "/b.yaml".to_string()]
    );
    assert!(compose_config_files(&summaries, "nope").is_empty());
    let bare = vec![labelled(Some("1"), &[project]), labelled(Some("2"), &[project, (files, "/c")])];
    assert!(compose_config_files(&bare, "blog").is_empty());
}

#[test]
fn namespace_partners_become_dependencies() {
    let s = |x: &str| Some(x.to_string());
    assert_eq!(
        namespace_targets(&s("container:abc"), &s("host"), &s("container:def")),
        vec!["abc".to_string(), "def".to_string()]
    );
    assert!(namespace_targets(&None, &s("bridge"), &None).is_empty());

    let members = vec![member("app", &["db"]), member("side", &[]), member("db", &[])];
    let ids = service_ids(&members);
    let targets = vec![
        "id-side".to_string(),
        "id-db".to_string(),
        "id-app".to_string(),
        "elsewhere".to_string(),
        "id-side".to_string(),
    ];
    let app = add_namespace_deps(members[0].clone(), &ids, &targets);
    let services: Vec<&str> = app.deps.iter().map(|d| d.service.as_str()).collect();
    assert_eq!(services, vec!["db", "side"]);
    assert_eq!(app.deps[1].condition, DepCondition::Started);
}

#[test]
fn commands_split_into_words_or_fall_back_to_a_shell() {
    assert_eq!(exec_argv("bash  -l\t"), vec!["bash".to_string(), "-l".to_string()]);
    assert_eq!(exec_argv(" \n "), vec!["/bin/sh".to_string()]);
}

#[test]
fn actions_parse_by_name() {
    assert_eq!(Action::parse("start"), Some(Action::Start));
    assert_eq!(Action::parse("stop"), Some(Action::Stop));
    assert_eq!(Action::parse("restart"), Some(Action::Restart));
    assert_eq!(Action::parse("Start"), None);
    assert_eq!(Action::parse(""), None);
    for action in [Action::Start, Action::Stop, Action::Restart] {
        assert_eq!(Action::parse(action.as_str()), Some(action));
    }
}

#[test]
fn waiting_ends_when_met_moot_or_out_of_time() {
    assert_eq!(wait_healthy(Some(HealthReport::Healthy), 0), WaitStep::Met);
    assert_eq!(wait_healthy(Some(HealthReport::Absent), 0), WaitStep::Moot);
    assert_eq!(wait_healthy(None, 0), WaitStep::Moot);
    assert_eq!(wait_healthy(Some(HealthReport::Starting), 0), WaitStep::Poll);
    assert_eq!(
        wait_healthy(Some(HealthReport::Unhealthy), DEP_WAIT_MS),
        WaitStep::TimedOut
    );
    assert_eq!(wait_completed(Some((true, 0)), 5), WaitStep::Poll);
    assert_eq!(wait_completed(Some((false, 3)), 5), WaitStep::Met);
    assert_eq!(wait_completed(None, 5), WaitStep::Moot);
    assert_eq!(
        wait_completed(Some((true, 0)), DEP_WAIT_MS),
        WaitStep::TimedOut
    );
    assert_eq!(run_state(None, None), (false, 0));
    assert_eq!(run_state(Some(true), Some(3)), (true, 3));
}

fn waiting(service: &str, on: &str, condition: DepCondition) -> Member {
    let mut m = member(service, &[on]);
    m.deps[0].condition = condition;
    m
}

#[test]
fn starting_waits_on_conditions_and_skips_the_running() {
    let members = vec![
        waiting("app", "db", DepCondition::Healthy),
        waiting("job", "init", DepCondition::CompletedSuccessfully),
        member("db", &[]),
        member("init", &[]),
        waiting("lone", "outside", DepCondition::Healthy),
    ];
    let mut run = StackStart::new(members);
    let mut log: Vec<String> = Vec::new();
    loop {
        match run.command() {
            StartCommand::Inspect(i) => {
                let runs = run.id(i) == "id-db";
                log.push(format!("inspect {}", run.id(i)));
                run.advance(StartEvent::Running(runs));
            }
            StartCommand::AwaitHealthy(i) => {
                log.push(format!("healthy {}", run.id(i)));
                run.advance(StartEvent::Waited);
            }
            StartCommand::AwaitCompleted(i) => {
                log.push(format!("completed {}", run.id(i)));
                run.advance(StartEvent::Waited);
            }
            StartCommand::Start(i) => {
                log.push(format!("start {}", run.id(i)));
                run.advance(StartEvent::Started(true));
            }
            StartCommand::Finish(outcome) => {
                assert_eq!(outcome, StackOutcome { total: 5, failed: 0 });
                break;
            }
            other => panic!("unexpected {other:?}"),
        }
    }
    assert_eq!(
        log,
        vec![
            "inspect id-db",
            "inspect id-init",
            "start id-init",
            "inspect id-lone",
            "start id-lone",
            "inspect id-app",
            "healthy id-db",
            "start id-app",
            "inspect id-job",
            "completed id-init",
            "start id-job",
        ]
    );
}

#[test]
fn starting_retries_until_the_deadline() {
    let mut run = StackStart::new(vec![member("a", &[]), member("b", &[])]);
    // First pass: a starts, b fails; there was progress, so no pause.
    run.advance(StartEvent::Running(false));
    run.advance(StartEvent::Started(true));
    run.advance(StartEvent::Running(false));
    run.advance(StartEvent::Started(false));
    assert_eq!(run.command(), StartCommand::AskDeadline);
    run.advance(StartEvent::Deadline(false));
    assert_eq!(run.command(), StartCommand::Inspect(0));
    // Second pass: a runs, b fails again; no progress, so a pause.
    run.advance(StartEvent::Running(true));
    run.advance(StartEvent::Running(false));
    run.advance(StartEvent::Started(false));
    run.advance(StartEvent::Deadline(false));
    assert_eq!(run.command(), StartCommand::Pause);
    // An answer to another question changes nothing.
    run.advance(StartEvent::Started(true));
    assert_eq!(run.command(), StartCommand::Pause);
    run.advance(StartEvent::Rested);
    // Third pass ends at the deadline.
    run.advance(StartEvent::Running(true));
    run.advance(StartEvent::Running(false));
    run.advance(StartEvent::Started(false));
    run.advance(StartEvent::Deadline(true));
    assert_eq!(
        run.command(),
        StartCommand::Finish(StackOutcome { total: 2, failed: 1 })
    );
    assert_eq!(
        StackStart::new(Vec::new()).command(),
        StartCommand::Finish(StackOutcome { total: 0, failed: 0 })
    );
}

#[test]
fn stopping_goes_in_reverse_and_counts_failures() {
    let mut stop = StackStop::new(vec![member("app", &["db"]), member("db", &[])]);
    assert_eq!(stop.command(), StopCommand::Stop(0));
    assert_eq!(stop.id(0), "id-app");
    stop.advance(false);
    assert_eq!(stop.command(), StopCommand::Stop(1));
    stop.advance(true);
    let StopCommand::Finish(outcome) = stop.command() else {
        panic!("both are stopped");
    };
    assert_eq!(outcome, StackOutcome { total: 2, failed: 1 });
    assert_eq!(
        restart_outcome(outcome, StackOutcome { total: 9, failed: 0 }),
        StackOutcome { total: 2, failed: 0 }
    );
}

#[test]
fn restarting_stops_all_before_it_starts_any() {
    let mut run = StackRestart::new(vec![member("app", &["db"]), member("db", &[])]);
    let mut log: Vec<String> = Vec::new();
    let outcome = loop {
        let event = match run.command() {
            RestartCommand::Stop(i) => {
                log.push(format!("stop {}", run.id(i)));
                // A failed stop does not hold the restart up.
                RestartEvent::Stopped(run.id(i) != "id-app")
            }
            RestartCommand::Start(StartCommand::Inspect(_)) => {
                RestartEvent::Start(StartEvent::Running(false))
            }
            RestartCommand::Start(StartCommand::Start(i)) => {
                log.push(format!("start {}", run.id(i)));
                RestartEvent::Start(StartEvent::Started(true))
            }
            RestartCommand::Start(other) => panic!("unexpected {other:?}"),
            RestartCommand::Finish(outcome) => break outcome,
        };
        run = run.advance(event);
    };
    assert_eq!(
        log,
        vec!["stop id-app", "stop id-db", "start id-db", "start id-app"]
    );
    assert_eq!(outcome, StackOutcome { total: 2, failed: 0 });

    // What answers another question changes nothing.
    let run = StackRestart::new(vec![member("a", &[])]);
    let run = run.advance(RestartEvent::Start(StartEvent::Rested));
    assert_eq!(run.command(), RestartCommand::Stop(0));
    let run = run.advance(RestartEvent::Stopped(true));
    let run = run.advance(RestartEvent::Stopped(true));
    assert_eq!(
        run.command(),
        RestartCommand::Start(StartCommand::Inspect(0))
    );

    // Failures to start are reported.
    let run = run
        .advance(RestartEvent::Start(StartEvent::Running(false)))
        .advance(RestartEvent::Start(StartEvent::Started(false)))
        .advance(RestartEvent::Start(StartEvent::Deadline(true)));
    assert_eq!(
        run.command(),
        RestartCommand::Finish(StackOutcome { total: 1, failed: 1 })
    );
    assert_eq!(
        StackRestart::new(Vec::new()).command(),
        RestartCommand::Finish(StackOutcome { total: 0, failed: 0 })
    );
}
