//! Configuration.

use dockdoe::config::{
    is_valid_slug, login_credentials, parse_interval_secs, parse_size, read_size, resolve,
    size_error_text, validate_hosts, ConfigError, FileConfig, Flags, HostConfig, ScaleMode,
    SizeError, OVERVIEW_MEM_FLOOR, REMOTE_DEFAULT_INTERVAL_SECS,
};

#[test]
fn no_file_synthesises_one_local_host() {
    let cfg = resolve(FileConfig::empty(), &Flags::defaults(), None).expect("load without a file");
    assert_eq!(cfg.hosts.len(), 1);
    assert_eq!(cfg.hosts[0].name, "local");
    assert!(!cfg.hosts[0].tls_insecure);
    // Globals come from the flag defaults.
    assert_eq!(cfg.bind, "127.0.0.1:8080");
}

#[test]
fn assumed_host_honours_the_environment_and_the_port_host() {
    let mut flags = Flags::defaults();
    flags.port_host = Some("nas.lan".to_string());
    let cfg = resolve(FileConfig::empty(), &flags, None).unwrap();
    assert_eq!(cfg.hosts[0].docker, "unix:///var/run/docker.sock");
    assert_eq!(cfg.hosts[0].public_host.as_deref(), Some("nas.lan"));
    let cfg = resolve(FileConfig::empty(), &flags, Some("tcp://x:1".to_string())).unwrap();
    assert_eq!(cfg.hosts[0].docker, "tcp://x:1");
    let err = resolve(FileConfig::empty(), &flags, Some("  ".to_string())).unwrap_err();
    assert!(matches!(err, ConfigError::EmptyEndpoint(_)));
}

#[test]
fn file_settings_win_over_flags() {
    let mut file = FileConfig::empty();
    file.bind = Some("0.0.0.0:9000".to_string());
    file.interval_secs = Some(5);
    file.allowed_hosts = Some(vec!["a".to_string()]);
    file.auth_user = Some("u".to_string());
    file.overview_mem_scale = Some(ScaleMode::Sqrt);
    file.overview_mem_cap = Some("256G".to_string());
    file.host = vec![host_with("unix:///x", None), {
        let mut h = host_with("https://nas.lan:2375", Some(15));
        h.name = "nas".to_string();
        h
    }];
    let mut flags = Flags::defaults();
    flags.auth_password = Some("p".to_string());
    flags.allowed_hosts = vec!["b".to_string()];
    let cfg = resolve(file, &flags, None).unwrap();
    assert_eq!(cfg.bind, "0.0.0.0:9000");
    assert_eq!(cfg.interval_secs, 5);
    assert_eq!(cfg.raw_retention_secs, 3600);
    assert_eq!(cfg.trend_bucket_secs, 60);
    assert_eq!(cfg.trend_retention_secs, 2_592_000);
    assert_eq!(cfg.prune_interval_secs, 3600);
    assert_eq!(cfg.notify_delay_secs, 30);
    assert_eq!(cfg.db_path, "dockdoe.sqlite");
    assert_eq!(cfg.log, "info");
    assert_eq!(cfg.allowed_hosts, vec!["a".to_string()]);
    assert_eq!(cfg.auth_user.as_deref(), Some("u"));
    assert_eq!(cfg.auth_password.as_deref(), Some("p"));
    assert_eq!(cfg.overview.cpu_scale, ScaleMode::Log);
    assert_eq!(cfg.overview.mem_scale, ScaleMode::Sqrt);
    assert_eq!(cfg.overview.mem_cap, 256 << 30);
    assert_eq!(cfg.hosts.len(), 2);
    assert_eq!(cfg.hosts[1].interval_secs, Some(15));
}

#[test]
fn mem_cap_must_be_a_size_of_at_least_twice_the_floor() {
    assert_eq!(OVERVIEW_MEM_FLOOR, 16 << 20);
    let with_cap = |cap: &str| {
        let mut file = FileConfig::empty();
        file.overview_mem_cap = Some(cap.to_string());
        resolve(file, &Flags::defaults(), None)
    };
    assert!(with_cap("32M").is_ok());
    let err = with_cap("31M").unwrap_err();
    assert_eq!(err.message(), "overview mem cap must be at least 32M");
    let err = with_cap("lots").unwrap_err();
    assert_eq!(
        err.message(),
        "parsing overview_mem_cap: invalid size \"lots\": expected digits with an optional K/M/G/T suffix"
    );
}

fn host_with(docker: &str, interval_secs: Option<u64>) -> HostConfig {
    HostConfig {
        name: "h".into(),
        docker: docker.into(),
        public_host: None,
        interval_secs,
        tls_ca: None,
        tls_insecure: false,
    }
}

#[test]
fn per_host_interval_resolution() {
    // An explicit per-host interval always wins, local or remote.
    assert_eq!(
        host_with("unix:///x", Some(5)).effective_interval_secs(3),
        5
    );
    assert_eq!(
        host_with("tcp://h:2375", Some(2)).effective_interval_secs(3),
        2
    );
    // A local endpoint without an override inherits the global default.
    assert_eq!(host_with("unix:///x", None).effective_interval_secs(3), 3);
    // Remote endpoints fall back to the slower remote default.
    for remote in ["tcp://h:2375", "http://h:2375", "https://h:2376"] {
        assert_eq!(
            host_with(remote, None).effective_interval_secs(3),
            REMOTE_DEFAULT_INTERVAL_SECS
        );
    }
}

#[test]
fn local_endpoints_are_told_by_their_scheme() {
    for local in ["unix:///x", " UNIX:///x", "npipe:////./pipe/d", "unix"] {
        assert!(host_with(local, None).is_local_endpoint(), "{local}");
    }
    for remote in ["unixx://a", "/var/run/docker.sock", "", "tcp://unix://"] {
        assert!(!host_with(remote, None).is_local_endpoint(), "{remote}");
    }
}

#[test]
fn zero_per_host_interval_is_rejected() {
    assert!(validate_hosts(&[host_with("unix:///x", Some(0))]).is_err());
}

#[test]
fn slug_validation() {
    assert!(is_valid_slug("local"));
    assert!(is_valid_slug("nas-01.lan_2"));
    assert!(!is_valid_slug(""));
    assert!(!is_valid_slug("has space"));
    assert!(!is_valid_slug("slash/name"));
}

#[test]
fn duplicate_names_are_rejected() {
    let hosts = vec![
        HostConfig {
            name: "dup".into(),
            docker: "unix:///x".into(),
            public_host: None,
            interval_secs: None,
            tls_ca: None,
            tls_insecure: false,
        },
        HostConfig {
            name: "dup".into(),
            docker: "tcp://y:2375".into(),
            public_host: None,
            interval_secs: None,
            tls_ca: None,
            tls_insecure: false,
        },
    ];
    assert!(validate_hosts(&hosts).is_err());
}

#[test]
fn empty_endpoint_is_rejected() {
    let hosts = vec![HostConfig {
        name: "x".into(),
        docker: "   ".into(),
        public_host: None,
        interval_secs: None,
        tls_ca: None,
        tls_insecure: false,
    }];
    assert!(validate_hosts(&hosts).is_err());
}

#[test]
fn host_problems_have_their_messages() {
    let message = |hosts: &[HostConfig]| validate_hosts(hosts).unwrap_err().message();
    assert_eq!(message(&[]), "no hosts configured");
    let mut bad = host_with("unix:///x", None);
    bad.name = "a \"b\"".to_string();
    assert_eq!(
        message(&[bad]),
        "invalid host name \"a \\\"b\\\"\": use only letters, digits, '.', '_' and '-'"
    );
    assert_eq!(
        message(&[host_with("unix:///x", None), host_with("", None)]),
        "duplicate host name \"h\""
    );
    assert_eq!(
        message(&[host_with(" ", Some(0))]),
        "host \"h\" has an empty docker endpoint"
    );
    assert_eq!(
        message(&[host_with("tcp://x", Some(0))]),
        "host \"h\" has interval_secs = 0; it must be at least 1"
    );
}

#[test]
fn parse_size_accepts_suffixes_and_bytes() {
    assert_eq!(parse_size("68719476736"), Ok(64 << 30));
    assert_eq!(parse_size("64G"), Ok(64 << 30));
    assert_eq!(parse_size("64GB"), Ok(64 << 30));
    assert_eq!(parse_size("64GiB"), Ok(64 << 30));
    assert_eq!(parse_size("64g"), Ok(64 << 30));
    assert_eq!(parse_size(" 512M "), Ok(512 << 20));
    assert_eq!(parse_size("1K"), Ok(1024));
    assert_eq!(parse_size("2T"), Ok(2 << 40));
    assert_eq!(parse_size("0"), Ok(0));
}

#[test]
fn parse_size_rejects_garbage_and_overflow() {
    assert!(parse_size("").is_err());
    assert!(parse_size("G").is_err());
    assert!(parse_size("12X").is_err());
    assert!(parse_size("1.5G").is_err());
    assert!(parse_size("-3M").is_err());
    // The value's bits are shifted clean out.
    assert!(parse_size("1152921504606846976K").is_err());
}

#[test]
fn parse_size_messages_and_edges() {
    assert_eq!(
        parse_size(" 12X"),
        Err("invalid size suffix \"X\": use K, M, G or T".to_string())
    );
    assert_eq!(
        parse_size("1152921504606846976K"),
        Err("size \"1152921504606846976K\" overflows".to_string())
    );
    assert_eq!(parse_size("18014398509481983K"), Ok(18014398509481983 << 10));
    assert!(parse_size("18014398509481984K").is_err());
    assert_eq!(parse_size("+1 kb"), Ok(1024));
    assert_eq!(parse_size("7B"), Ok(7));
    assert_eq!(parse_size("0T"), Ok(0));
}

#[test]
fn overview_defaults_are_cpu_log_mem_log_64g() {
    let cfg = resolve(FileConfig::empty(), &Flags::defaults(), None).expect("load without a file");
    assert_eq!(cfg.overview.cpu_scale, ScaleMode::Log);
    assert_eq!(cfg.overview.mem_scale, ScaleMode::Log);
    assert_eq!(cfg.overview.mem_cap, 64 << 30);
}

#[test]
fn zero_interval_is_rejected_at_parse_time() {
    let command = || {
        clap::Command::new("dockdoe").arg(
            clap::Arg::new("interval-secs")
                .long("interval-secs")
                .value_parser(parse_interval_secs),
        )
    };
    assert!(command()
        .try_get_matches_from(["dockdoe", "--interval-secs", "0"])
        .is_err());
    assert!(command()
        .try_get_matches_from(["dockdoe", "--interval-secs", "1"])
        .is_ok());
}

#[test]
fn interval_parser_reports_what_is_wrong() {
    assert_eq!(parse_interval_secs("3"), Ok(3));
    assert_eq!(
        parse_interval_secs("00"),
        Err("0 is not in 1..18446744073709551615".to_string())
    );
    assert_eq!(
        parse_interval_secs("soon"),
        Err("expected a whole number of seconds".to_string())
    );
}

#[test]
fn login_needs_both_credentials_or_none() {
    let s = |x: &str| Some(x.to_string());
    assert_eq!(login_credentials(None, None), Ok(None));
    assert_eq!(
        login_credentials(s("u"), s("p")),
        Ok(Some(("u".to_string(), "p".to_string())))
    );
    assert!(login_credentials(s("u"), None).is_err());
    assert!(login_credentials(None, s("p")).is_err());
}

#[test]
fn scale_modes_have_names() {
    assert_eq!(ScaleMode::Linear.as_str(), "linear");
    assert_eq!(ScaleMode::Sqrt.as_str(), "sqrt");
    assert_eq!(ScaleMode::Log.as_str(), "log");
}

#[test]
fn sizes_are_read_or_refused_for_a_reason() {
    assert_eq!(read_size(" 3 KiB"), Ok(3072));
    assert_eq!(read_size("+1T"), Ok(1 << 40));
    assert_eq!(read_size("G"), Err(SizeError::NoNumber));
    assert_eq!(read_size("5Q"), Err(SizeError::UnknownUnit));
    assert_eq!(read_size("16777216T"), Err(SizeError::Overflow));
    assert_eq!(
        size_error_text(SizeError::Overflow, "<x>"),
        "size <x> overflows"
    );
    assert_eq!(
        ConfigError::DuplicateName("a".to_string()).words("<a>"),
        "duplicate host name <a>"
    );
}
