//! Sessions, credentials and cookies.

use dockdoe::access::{
    host_allowed, host_without_port, is_htmx_request, judge, login_submit, logout_cookie,
    normalize_allowed_hosts, request_is_authenticated, require_auth, shows_login_page, Gate,
    LoginReply,
};
use dockdoe::auth::{
    cookie_value, generate_secret, secret_from, token_claim, token_text, Auth, RandomUnavailable,
    COOKIE_NAME, SECRET_LEN, SESSION_TTL,
};
use dockdoe::hex::{decode_hex, encode_hex};
use dockdoe::num::{decimal, parse_u64, parse_up_to};
use hmac::Mac;

fn auth() -> Auth {
    Auth::new(
        "admin".into(),
        "s3cret".into(),
        vec![1, 2, 3, 4, 5, 6, 7, 8],
        false,
    )
}

#[test]
fn credentials_check_is_exact() {
    let a = auth();
    assert!(a.credentials_valid("admin", "s3cret"));
    assert!(!a.credentials_valid("admin", "wrong"));
    assert!(!a.credentials_valid("root", "s3cret"));
    assert!(!a.credentials_valid("", ""));
    // The separator stops field-boundary confusion.
    assert!(!a.credentials_valid("admins", "3cret"));
}

#[test]
fn token_roundtrips_and_respects_expiry() {
    let a = auth();
    let now = 1_000_000;
    let cookie = a.issue_cookie(now);
    let token = cookie_value(&cookie, COOKIE_NAME).unwrap();
    assert!(a.token_valid(token, now));
    // Still valid just before expiry, invalid at and after it.
    let expiry = now + SESSION_TTL;
    assert!(a.token_valid(token, expiry - 1));
    assert!(!a.token_valid(token, expiry));
}

#[test]
fn token_rejects_tampering_and_wrong_secret() {
    let a = auth();
    let now = 1_000_000;
    let token = a.sign(now + 999);
    assert!(a.token_valid(&token, now));
    // Flip the claimed expiry without signing again.
    let (_, sig) = token.split_once('.').unwrap();
    let forged = format!("{}.{sig}", now + 999_999);
    assert!(!a.token_valid(&forged, now));
    // Garbage shapes are rejected, not panicked on.
    assert!(!a.token_valid("nonsense", now));
    assert!(!a.token_valid("123.zz", now));
    // A different secret cannot validate our token.
    let other = Auth::new("admin".into(), "s3cret".into(), vec![9, 9, 9], false);
    assert!(!other.token_valid(&token, now));
}

#[test]
fn secure_flag_controls_cookie_attribute() {
    let plain = Auth::new("u".into(), "p".into(), vec![1, 2, 3], false);
    let secure = Auth::new("u".into(), "p".into(), vec![1, 2, 3], true);
    assert!(!plain.issue_cookie(0).contains("; Secure"));
    assert!(secure.issue_cookie(0).contains("; Secure"));
    // Cleared cookie carries Max-Age=0 and keeps the same attributes.
    assert!(secure.clear_cookie().contains("Max-Age=0"));
    assert!(secure.clear_cookie().contains("; Secure"));
}

#[test]
fn cookie_value_picks_the_right_pair() {
    let header = "foo=bar; dockdoe_session=abc.def; baz=qux";
    assert_eq!(cookie_value(header, COOKIE_NAME), Some("abc.def"));
    assert_eq!(cookie_value(header, "missing"), None);
}

#[test]
fn tags_are_those_of_hmac_sha256() {
    // Key and message of a published HMAC-SHA256 example: the message is the
    // expiry, so the signature is compared against an independent computation.
    let a = Auth::new(String::new(), String::new(), b"key".to_vec(), false);
    let token = a.sign(42);
    let (stamp, sig) = token.split_once('.').unwrap();
    assert_eq!(stamp, "42");
    assert_eq!(sig.len(), 64);
    use_hmac(&sig.to_string());
}

fn use_hmac(sig: &str) {
    let mut mac = hmac::Hmac::<sha2::Sha256>::new_from_slice(b"key").unwrap();
    mac.update(b"42");
    let expected: Vec<u8> = mac.finalize().into_bytes().to_vec();
    assert_eq!(decode_hex(sig), Ok(expected.clone()));
    assert_eq!(encode_hex(&expected), sig);
}

#[test]
fn issued_cookie_has_the_documented_shape() {
    let a = auth();
    let token = a.sign(SESSION_TTL);
    assert_eq!(
        a.issue_cookie(0),
        format!("dockdoe_session={token}; HttpOnly; SameSite=Lax; Path=/; Max-Age=2592000")
    );
    assert_eq!(
        a.clear_cookie(),
        "dockdoe_session=; HttpOnly; SameSite=Lax; Path=/; Max-Age=0"
    );
}

#[test]
fn token_shapes_are_rejected_without_panic() {
    let a = auth();
    for token in [
        "",
        ".",
        "1.",
        "99999999999.",
        "99999999999.é",
        "99999999999.aé",
        "99999999999.+f",
        "99999999999999999999999.00",
        "-5.00",
    ] {
        assert!(!a.token_valid(token, 0), "{token}");
    }
}

#[test]
fn secrets_have_their_length_and_differ() {
    let first = generate_secret().unwrap();
    let second = generate_secret().unwrap();
    assert_eq!(first.len(), SECRET_LEN);
    assert_eq!(SECRET_LEN, 32);
    assert_ne!(first, second);
    assert_ne!(first, vec![0u8; 32]);
}

#[test]
fn a_draw_is_kept_as_it_came_or_reported_as_failed() {
    assert_eq!(secret_from(Ok(vec![7, 8, 9])), Ok(vec![7, 8, 9]));
    assert_eq!(
        secret_from(Err(getrandom::Error::UNSUPPORTED)),
        Err(RandomUnavailable)
    );
}

#[test]
fn hex_text_roundtrips_and_rejects_garbage() {
    assert_eq!(encode_hex(&[0, 15, 16, 255]), "000f10ff");
    assert_eq!(decode_hex("000f10FF"), Ok(vec![0, 15, 16, 255]));
    assert_eq!(decode_hex("+f"), Ok(vec![15]));
    assert_eq!(decode_hex(""), Ok(vec![]));
    assert_eq!(decode_hex("0"), Err(()));
    assert_eq!(decode_hex("f+"), Err(()));
    assert_eq!(decode_hex("éé"), Err(()));
}

#[test]
fn numerals_print_and_parse() {
    for n in [0, 9, 10, 12_345, u64::MAX] {
        assert_eq!(decimal(n), n.to_string());
        assert_eq!(parse_u64(&decimal(n)), Some(n));
    }
    assert_eq!(parse_u64("+7"), Some(7));
    assert_eq!(parse_u64("007"), Some(7));
    for bad in ["", "+", "-", "-1", "++1", "1 ", "18446744073709551616", "٣"] {
        assert_eq!(parse_u64(bad), bad.parse::<u64>().ok(), "{bad}");
    }
    assert_eq!(parse_up_to("255", 255), Some(255));
    assert_eq!(parse_up_to("256", 255), None);
}

#[test]
fn gate_needs_a_session_except_for_public_paths() {
    let a = auth();
    let now = 5_000;
    let token = a.sign(now + 10);
    let cookies = format!("x=1; dockdoe_session={token}");
    // Off: everything passes.
    assert_eq!(require_auth(None, "/host/local", None, false, now), Gate::Pass);
    // Public paths.
    assert_eq!(require_auth(Some(&a), "/login", None, false, now), Gate::Pass);
    assert_eq!(
        require_auth(Some(&a), "/assets/dockdoe.css", None, true, now),
        Gate::Pass
    );
    assert_eq!(
        require_auth(Some(&a), "/login/x", None, false, now),
        Gate::Login
    );
    // A session passes until it ends.
    assert_eq!(
        require_auth(Some(&a), "/", Some(&cookies), false, now + 9),
        Gate::Pass
    );
    assert_eq!(
        require_auth(Some(&a), "/", Some(&cookies), false, now + 10),
        Gate::Login
    );
    assert_eq!(
        require_auth(Some(&a), "/", Some(&cookies), true, now + 10),
        Gate::RefuseHtmx
    );
    // Logging out needs a session too.
    assert_eq!(require_auth(Some(&a), "/logout", None, false, now), Gate::Login);
    assert!(request_is_authenticated(&a, Some(&cookies), now));
    assert!(!request_is_authenticated(&a, Some("dockdoe_session="), now));
    assert!(!request_is_authenticated(&a, None, now));
}

#[test]
fn login_sets_a_cookie_that_opens_the_gate() {
    let a = auth();
    assert!(matches!(login_submit(None, "a", "b", 0), LoginReply::Home));
    assert!(matches!(
        login_submit(Some(&a), "admin", "nope", 0),
        LoginReply::Denied
    ));
    let LoginReply::Granted(cookie) = login_submit(Some(&a), "admin", "s3cret", 100) else {
        panic!("the right credentials must be granted");
    };
    let token = cookie_value(&cookie, COOKIE_NAME).unwrap();
    let returned = format!("{COOKIE_NAME}={token}");
    assert!(!shows_login_page(Some(&a), Some(&returned), 200));
    assert!(shows_login_page(Some(&a), None, 200));
    assert!(!shows_login_page(None, None, 200));
    assert_eq!(
        require_auth(Some(&a), "/x", Some(&returned), false, 100 + SESSION_TTL - 1),
        Gate::Pass
    );
    assert_eq!(logout_cookie(None), None);
    let cleared = logout_cookie(Some(&a)).unwrap();
    assert_eq!(cookie_value(&cleared, COOKIE_NAME), Some(""));
}

#[test]
fn htmx_header_is_required_verbatim() {
    assert!(!is_htmx_request(None));
    assert!(!is_htmx_request(Some(b"false")));
    assert!(is_htmx_request(Some(b"true")));
    assert!(!is_htmx_request(Some(b"TRUE")));
    assert!(!is_htmx_request(Some(b"true ")));
}

#[test]
fn host_without_port_handles_ipv4_ipv6_and_bare_names() {
    assert_eq!(host_without_port("example.com:8080"), "example.com");
    assert_eq!(host_without_port("example.com"), "example.com");
    assert_eq!(host_without_port("127.0.0.1:8080"), "127.0.0.1");
    assert_eq!(host_without_port("[::1]:8080"), "::1");
    assert_eq!(host_without_port("[2001:db8::1]"), "2001:db8::1");
}

#[test]
fn host_allowlist_permits_localhost_and_configured_names_only() {
    let allowed = normalize_allowed_hosts(&[" DockHost.lan:8080 ".to_string()]);

    // Disabled check lets anything through, even a missing Host header.
    assert!(host_allowed(None, &[]));

    assert!(host_allowed(Some("dockhost.lan"), &allowed));
    assert!(host_allowed(Some("DockHost.lan:9000"), &allowed));
    assert!(host_allowed(Some("localhost:8080"), &allowed));
    assert!(host_allowed(Some("127.0.0.1"), &allowed));
    assert!(host_allowed(Some("[::1]:8080"), &allowed));

    assert!(!host_allowed(Some("attacker.example"), &allowed));
    assert!(!host_allowed(None, &allowed));
}

#[test]
fn empty_allowlist_entries_are_dropped() {
    let hosts = ["  ".to_string(), ":80".to_string(), "[]".to_string(), "A".to_string()];
    assert_eq!(normalize_allowed_hosts(&hosts), vec!["a".to_string()]);
}

#[test]
fn tokens_carry_an_expiry_and_a_tag() {
    assert_eq!(token_text(42, &[0xab, 0x01]), "42.ab01");
    assert_eq!(token_claim("42.ab01", 41), Some(("42", vec![0xab, 0x01])));
    assert_eq!(token_claim("42.ab01", 42), None);
    assert_eq!(token_claim("42", 0), None);
    assert_eq!(token_claim("x.ab01", 0), None);
    assert_eq!(token_claim("42.xyz", 0), None);
}

#[test]
fn requests_are_judged_by_login_path_and_session() {
    assert_eq!(judge(false, "/", false, false), Gate::Pass);
    assert_eq!(judge(true, "/", true, false), Gate::Pass);
    assert_eq!(judge(true, "/login", false, false), Gate::Pass);
    assert_eq!(judge(true, "/assets/x.css", false, true), Gate::Pass);
    assert_eq!(judge(true, "/assets", false, false), Gate::Login);
    assert_eq!(judge(true, "/logout", false, true), Gate::RefuseHtmx);
}
