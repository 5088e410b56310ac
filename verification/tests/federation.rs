//! Talking to nodes, and the host's own metrics.

use dockdoe::federation::{
    add_root, ca_certificates, ca_from, check_status, may_be_header, missing_host, node_target,
    node_url, pick_host, root_certificates, snapshot_answer, snapshot_url, trust,
    trusted_certificates, version_differs, SnapshotAnswer, Trust, HOSTS_PATH, VERSION,
};
use dockdoe::host::{host_metrics, LoadAverage};
use dockdoe::model::HostEntry;
use dockdoe::reading::Reading;

fn entry(name: &str) -> HostEntry {
    HostEntry {
        name: name.into(),
        version: "0.10.0".into(),
    }
}

#[test]
fn pick_host_resolves_explicit_and_sole_hosts() {
    let hosts = vec![entry("local"), entry("nas")];
    assert_eq!(pick_host(&hosts, Some("nas")).unwrap().name, "nas");
    // Unknown name errors and lists what the node has.
    let err = pick_host(&hosts, Some("prod")).unwrap_err().to_string();
    assert!(err.contains("local, nas"), "got: {err}");
    // Several hosts without node_host is ambiguous.
    assert!(pick_host(&hosts, None).is_err());

    let sole = vec![entry("local")];
    assert_eq!(pick_host(&sole, None).unwrap().name, "local");
    assert!(pick_host(&[], None).is_err());
}

#[test]
fn pick_host_messages() {
    let hosts = vec![entry("local"), entry("nas")];
    assert_eq!(
        pick_host(&hosts, Some("a\"b")).unwrap_err(),
        "node has no host \"a\\\"b\" (it has: local, nas)"
    );
    assert_eq!(
        pick_host(&hosts, None).unwrap_err(),
        "node monitors several hosts (local, nas); set node_host to pick one"
    );
    assert_eq!(pick_host(&[], None).unwrap_err(), "node reports no hosts");
}

#[test]
fn node_addresses_are_tidied() {
    let t = node_target(Some(" https://node:8080// "), Some("t0k")).unwrap();
    assert_eq!(t.base, "https://node:8080");
    assert_eq!(t.authorization.as_deref(), Some("Bearer t0k"));
    let t = node_target(Some("http://n"), None).unwrap();
    assert_eq!(t.authorization, None);
    assert_eq!(
        node_target(None, None).unwrap_err(),
        "host has no dockdoe endpoint"
    );
    assert_eq!(node_url(&t.base, HOSTS_PATH), "http://n/api/hosts");
    assert_eq!(snapshot_url("http://n", "nas"), "http://n/host/nas/api/snapshot");
}

#[test]
fn trust_follows_the_configuration() {
    assert!(matches!(trust(true, Some("/ca.pem")), Trust::Unverified));
    assert!(matches!(trust(false, None), Trust::Roots));
    assert!(matches!(trust(false, Some("/ca.pem")), Trust::RootsAnd(p) if p == "/ca.pem"));
}

#[test]
fn tokens_must_fit_a_header() {
    assert_eq!(
        node_target(Some("http://n"), Some("a\nb")).unwrap_err(),
        "token contains characters not allowed in a header"
    );
    assert_eq!(
        node_target(None, Some("a\nb")).unwrap_err(),
        "host has no dockdoe endpoint"
    );
    for token in ["", "plain", "tab\there", "del\u{7f}", "nul\0", "caf\u{e9}", "\u{80}", "\r"] {
        let header = format!("Bearer {token}").parse::<reqwest::header::HeaderValue>();
        assert_eq!(may_be_header(token), header.is_ok(), "{token:?}");
        assert_eq!(
            node_target(Some("http://n"), Some(token)).is_ok(),
            header.is_ok(),
            "{token:?}"
        );
    }
}

fn pem(body: &str) -> String {
    format!("-----BEGIN CERTIFICATE-----\n{body}\n-----END CERTIFICATE-----\n")
}

#[test]
fn certificate_files_are_read_or_refused() {
    let one = pem("AAEC");
    assert_eq!(ca_certificates("/ca.pem", one.as_bytes()).unwrap().len(), 1);
    let two = format!("{one}some text\n{one}");
    assert_eq!(ca_certificates("/ca.pem", two.as_bytes()).unwrap().len(), 2);
    assert_eq!(
        ca_certificates("/ca.pem", b"no certificate").unwrap_err(),
        "tls_ca /ca.pem contained no certificates"
    );
    assert_eq!(
        ca_certificates("/ca.pem", b"").unwrap_err(),
        "tls_ca /ca.pem contained no certificates"
    );
    assert_eq!(
        ca_certificates("/ca.pem", pem("***").as_bytes()).unwrap_err(),
        "parsing tls_ca /ca.pem"
    );
    assert_eq!(
        ca_from("/x", Ok(Vec::new())).unwrap_err(),
        "tls_ca /x contained no certificates"
    );
}

#[test]
fn trusted_certificates_are_the_roots_and_the_file() {
    let ders: Vec<&[u8]> = webpki_root_certs::TLS_SERVER_ROOT_CERTS
        .iter()
        .map(|der| der.as_ref())
        .collect();
    let roots = root_certificates(&ders);
    assert_eq!(roots.len(), ders.len());
    assert!(root_certificates(&[]).is_empty());
    let mut list = Vec::new();
    add_root(&mut list, reqwest::Certificate::from_der(ders[0]));
    assert_eq!(list.len(), 1);

    assert_eq!(
        trusted_certificates(roots.clone(), None).unwrap().len(),
        ders.len()
    );
    let file = pem("AAEC");
    let all = trusted_certificates(roots.clone(), Some(("/ca.pem", file.as_bytes()))).unwrap();
    assert_eq!(all.len(), ders.len() + 1);
    assert_eq!(
        trusted_certificates(roots, Some(("/ca.pem", b""))).unwrap_err(),
        "tls_ca /ca.pem contained no certificates"
    );
}

#[test]
fn a_missing_host_is_named() {
    assert_eq!(
        missing_host("<x>", &[entry("a"), entry("b")]),
        "node has no host <x> (it has: a, b)"
    );
}

#[test]
fn statuses_are_read() {
    assert_eq!(check_status(200, "200 OK"), Ok(()));
    assert_eq!(check_status(299, "299"), Ok(()));
    assert!(check_status(401, "401 Unauthorized")
        .unwrap_err()
        .contains("check this host's `token`"));
    assert!(check_status(303, "303 See Other")
        .unwrap_err()
        .contains("DockDoe ≥ 0.10"));
    assert_eq!(
        check_status(500, "500 Internal Server Error"),
        Err("node answered 500 Internal Server Error".to_string())
    );
    assert!(matches!(snapshot_answer(503, "503"), SnapshotAnswer::WarmingUp));
    assert!(matches!(snapshot_answer(204, "204"), SnapshotAnswer::Body));
    assert!(matches!(snapshot_answer(404, "404"), SnapshotAnswer::Problem(_)));
}

#[test]
fn version_skew_is_noticed() {
    assert_eq!(VERSION, "0.10.0");
    assert!(!version_differs(&entry("x")));
    let mut old = entry("x");
    old.version = "0.9.0".to_string();
    assert!(version_differs(&old));
}

#[test]
fn host_memory_in_use_is_what_is_not_available() {
    let r = |x: f64| Reading::from_bits(x.to_bits()).unwrap();
    let load = LoadAverage {
        one: r(0.5),
        five: r(1.0),
        fifteen: r(2.0),
    };
    let m = host_metrics(r(12.5), load, 100, 30, 8);
    assert_eq!(m.mem_used, 70);
    assert_eq!(m.cpu_count, 8);
    assert_eq!(m.cpu_percent.to_bits(), 12.5f64.to_bits());
    assert_eq!(host_metrics(r(0.0), load, 30, 100, 8).mem_used, 0);
}
