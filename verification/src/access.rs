//! Who may use the web interface: the host allowlist, the guard against forged
//! requests, and the login.

use vstd::prelude::*;
use vstd::string::*;

use crate::{auth, text};

verus! {

// ---------------------------------------------------------------------------
// The host allowlist
// ---------------------------------------------------------------------------

/// The host of a `Host` header value: without a port, and without the brackets
/// of an IPv6 address.
pub open spec fn bare_host(host: Seq<char>) -> Seq<char> {
    if host.len() > 0 && host[0] == '[' {
        text::before_first(host.skip(1), ']')
    } else {
        match text::cut_last(host, ':') {
            Some((h, _)) => h,
            None => host,
        }
    }
}

/// The host of a `Host` header value: without a port, and without the brackets
/// of an IPv6 address.
pub fn host_without_port(host: &str) -> (r: &str)
    ensures
        r@ == bare_host(host@),
{
    let n: usize = host.unicode_len();
    if n > 0 && host.get_char(0) == '[' {
        proof {
            assert(host@.subrange(1, n as int) =~= host@.skip(1));
        }
        text::until(host.substring_char(1, n), ']')
    } else {
        match text::rsplit_once(host, ':') {
            Some((h, _)) => h,
            None => host,
        }
    }
}

/// The form in which hosts are compared.
pub open spec fn normal_host(host: Seq<char>) -> Seq<char> {
    text::lowered(bare_host(text::trimmed(host)))
}

fn normalize(host: &str) -> (r: String)
    ensures
        r@ == normal_host(host@),
{
    text::to_lower(host_without_port(text::trim(host)))
}

/// Whether a host in its normal form is a name of the local machine.
pub open spec fn is_localhost(host: Seq<char>) -> bool {
    host == "localhost"@ || host == "127.0.0.1"@ || host == "::1"@
}

/// Whether a request may be served under the host it was addressed to. Without
/// an allowlist every request is; with one, only those to the local machine and
/// to a listed host.
pub open spec fn is_allowed(host: Option<Seq<char>>, allowed: Seq<Seq<char>>) -> bool {
    allowed.len() == 0 || match host {
        Some(h) => is_localhost(normal_host(h)) || allowed.contains(normal_host(h)),
        None => false,
    }
}

/// Whether a request may be served under the host it was addressed to. The host
/// is `None` when the header is missing or is no text.
pub fn host_allowed(host: Option<&str>, allowed: &[String]) -> (r: bool)
    ensures
        r == is_allowed(text::opt_slice_view(host), text::string_views(allowed@)),
{
    if allowed.len() == 0 {
        return true;
    }
    let name = match host {
        Some(h) => normalize(h),
        None => {
            return false;
        },
    };
    if text::same(name.as_str(), "localhost") || text::same(name.as_str(), "127.0.0.1")
        || text::same(name.as_str(), "::1") {
        return true;
    }
    let ghost names = text::string_views(allowed@);
    let mut i: usize = 0;
    while i < allowed.len()
        invariant
            i <= allowed.len(),
            names == text::string_views(allowed@),
            text::opt_slice_view(host) matches Some(h) && name@ == normal_host(h),
            forall|j: int| 0 <= j < i ==> #[trigger] names[j] != name@,
        decreases allowed.len() - i,
    {
        if text::same(allowed[i].as_str(), name.as_str()) {
            proof {
                assert(names[i as int] == name@);
            }
            return true;
        }
        i += 1;
    }
    false
}

/// The normal forms of the configured hosts, without empty ones.
pub open spec fn normal_hosts(hosts: Seq<Seq<char>>) -> Seq<Seq<char>>
    decreases hosts.len(),
{
    if hosts.len() == 0 {
        Seq::empty()
    } else {
        let before = normal_hosts(hosts.drop_last());
        let h = normal_host(hosts.last());
        if h.len() == 0 {
            before
        } else {
            before.push(h)
        }
    }
}

/// Bring the configured allowlist into normal form; empty entries are dropped.
pub fn normalize_allowed_hosts(hosts: &[String]) -> (r: Vec<String>)
    ensures
        text::string_views(r@) == normal_hosts(text::string_views(hosts@)),
{
    let ghost all = text::string_views(hosts@);
    let mut out: Vec<String> = Vec::new();
    let mut i: usize = 0;
    proof {
        assert(all.take(0) =~= Seq::empty());
        assert(text::string_views(out@) =~= Seq::empty());
    }
    while i < hosts.len()
        invariant
            i <= hosts.len(),
            all == text::string_views(hosts@),
            text::string_views(out@) == normal_hosts(all.take(i as int)),
        decreases hosts.len() - i,
    {
        let ghost before = text::string_views(out@);
        proof {
            assert(all.take(i + 1).drop_last() =~= all.take(i as int));
            assert(all.take(i + 1).last() == hosts[i as int]@);
        }
        let h = normalize(hosts[i].as_str());
        if !h.as_str().is_empty() {
            out.push(h);
            proof {
                assert(text::string_views(out@) =~= before.push(h@));
            }
        }
        i += 1;
    }
    proof {
        assert(all.take(hosts.len() as int) =~= all);
    }
    out
}

/// A host that is configured is allowed, in whatever case and with whatever
/// port a request names it.
pub proof fn law_configured_hosts_are_allowed(
    configured: Seq<Seq<char>>,
    i: int,
    requested: Seq<char>,
)
    requires
        0 <= i < configured.len(),
        normal_host(requested) == normal_host(configured[i]),
        normal_host(requested).len() > 0,
    ensures
        is_allowed(Some(requested), normal_hosts(configured)),
{
    lemma_normal_hosts_contain(configured, i);
}

proof fn lemma_normal_hosts_contain(configured: Seq<Seq<char>>, i: int)
    requires
        0 <= i < configured.len(),
        normal_host(configured[i]).len() > 0,
    ensures
        normal_hosts(configured).contains(normal_host(configured[i])),
    decreases configured.len(),
{
    let head = configured.drop_last();
    let before = normal_hosts(head);
    let all = normal_hosts(configured);
    let h = normal_host(configured[i]);
    if i < head.len() {
        lemma_normal_hosts_contain(head, i);
        assert(head[i] == configured[i]);
        let k = choose|k: int| 0 <= k < before.len() && before[k] == h;
        assert(all[k] == h);
    } else {
        assert(all[all.len() - 1] == h);
    }
}

/// Local access works with any allowlist, and without one every request is
/// served.
pub proof fn law_local_access_always_works(
    requested: Option<Seq<char>>,
    configured: Seq<Seq<char>>,
)
    ensures
        requested matches Some(h) && is_localhost(normal_host(h)) ==> is_allowed(
            requested,
            normal_hosts(configured),
        ),
        normal_hosts(configured).len() == 0 ==> is_allowed(requested, normal_hosts(configured)),
{
}

/// With an allowlist, a host that is neither local nor configured is refused,
/// and so is a request that names none.
pub proof fn law_other_hosts_are_refused(configured: Seq<Seq<char>>, requested: Seq<char>)
    requires
        normal_hosts(configured).len() > 0,
        !is_localhost(normal_host(requested)),
        forall|i: int|
            0 <= i < configured.len() ==> normal_host(#[trigger] configured[i]) != normal_host(
                requested,
            ),
    ensures
        !is_allowed(Some(requested), normal_hosts(configured)),
        !is_allowed(None, normal_hosts(configured)),
{
    lemma_normal_hosts_come_from(configured, normal_host(requested));
}

proof fn lemma_normal_hosts_come_from(configured: Seq<Seq<char>>, h: Seq<char>)
    requires
        forall|i: int| 0 <= i < configured.len() ==> normal_host(#[trigger] configured[i]) != h,
    ensures
        !normal_hosts(configured).contains(h),
    decreases configured.len(),
{
    if configured.len() > 0 {
        let head = configured.drop_last();
        assert forall|i: int| 0 <= i < head.len() implies normal_host(#[trigger] head[i]) != h by {
            assert(head[i] == configured[i]);
        }
        lemma_normal_hosts_come_from(head, h);
        assert(normal_host(configured[configured.len() - 1]) != h);
        let all = normal_hosts(configured);
        if all.contains(h) {
            let k = choose|k: int| 0 <= k < all.len() && all[k] == h;
            let before = normal_hosts(head);
            if k < before.len() {
                assert(before[k] == h);
            }
        }
    }
}

// ---------------------------------------------------------------------------
// Forged requests
// ---------------------------------------------------------------------------

/// The bytes of `true`.
pub open spec fn true_bytes() -> Seq<u8> {
    seq![116u8, 114u8, 117u8, 101u8]
}

/// Whether the value of the `HX-Request` header is exactly `true`. A form on
/// another site cannot set that header.
pub fn is_htmx_request(header: Option<&[u8]>) -> (r: bool)
    ensures
        r == (header matches Some(v) && v@ == true_bytes()),
{
    match header {
        Some(v) => {
            let r = v.len() == 4 && v[0] == 116 && v[1] == 114 && v[2] == 117 && v[3] == 101;
            proof {
                if r {
                    assert(v@ =~= true_bytes());
                }
            }
            r
        },
        None => false,
    }
}

// ---------------------------------------------------------------------------
// The login
// ---------------------------------------------------------------------------

/// Whether a `Cookie` header carries a session that is valid at `now`.
pub open spec fn carries_session(secret: Seq<u8>, cookies: Option<Seq<char>>, now: int) -> bool {
    match cookies {
        Some(header) => match auth::cookie_lookup(header, auth::COOKIE_NAME@) {
            Some(token) => auth::token_accepted(secret, token, now),
            None => false,
        },
        None => false,
    }
}

/// Whether a `Cookie` header carries a session that is valid at `now`.
pub fn request_is_authenticated(auth: &auth::Auth, cookies: Option<&str>, now_unix: u64) -> (r:
    bool)
    ensures
        r == carries_session(auth.secret(), text::opt_slice_view(cookies), now_unix as int),
{
    match cookies {
        Some(header) => match auth::cookie_value(header, auth::COOKIE_NAME) {
            Some(token) => auth.token_valid(token, now_unix),
            None => false,
        },
        None => false,
    }
}

/// What becomes of a request at the login gate.
#[derive(Debug, Clone, Copy, PartialEq, Eq, Structural)]
pub enum Gate {
    /// Serve it.
    Pass,
    /// Refuse it, and have the page navigate to the login.
    RefuseHtmx,
    /// Send the browser to the login.
    Login,
}

/// Whether a path is served without a session: the login page, and the assets
/// that it needs.
pub open spec fn is_public_path(path: Seq<char>) -> bool {
    path == "/login"@ || "/assets/"@.is_prefix_of(path)
}

/// What becomes of a request for `path`, given whether a login is configured and
/// whether the request carries a valid session.
pub open spec fn verdict(login: bool, path: Seq<char>, session: bool, htmx: bool) -> Gate {
    if !login || is_public_path(path) || session {
        Gate::Pass
    } else if htmx {
        Gate::RefuseHtmx
    } else {
        Gate::Login
    }
}

/// What becomes of a request for `path`, given whether a login is configured and
/// whether the request carries a valid session.
pub fn judge(login: bool, path: &str, session: bool, htmx: bool) -> (r: Gate)
    ensures
        r == verdict(login, path@, session, htmx),
{
    if !login || text::same(path, "/login") || text::starts_with(path, "/assets/") || session {
        Gate::Pass
    } else if htmx {
        Gate::RefuseHtmx
    } else {
        Gate::Login
    }
}

/// What becomes of a request for `path` before it is served.
pub open spec fn gate(
    secret: Option<Seq<u8>>,
    path: Seq<char>,
    cookies: Option<Seq<char>>,
    htmx: bool,
    now: int,
) -> Gate {
    match secret {
        None => verdict(false, path, false, htmx),
        Some(s) => verdict(true, path, carries_session(s, cookies, now), htmx),
    }
}

/// The signing secret, if a login is configured.
pub open spec fn secret_of(auth: Option<&auth::Auth>) -> Option<Seq<u8>> {
    match auth {
        Some(a) => Some(a.secret()),
        None => None,
    }
}

/// Decide on a request. Without a configured login everything passes; with one,
/// all but the public paths need a valid session.
pub fn require_auth(
    auth: Option<&auth::Auth>,
    path: &str,
    cookies: Option<&str>,
    htmx: bool,
    now_unix: u64,
) -> (r: Gate)
    ensures
        r == gate(
            secret_of(auth),
            path@,
            text::opt_slice_view(cookies),
            htmx,
            now_unix as int,
        ),
{
    match auth {
        None => judge(false, path, false, htmx),
        Some(a) => judge(true, path, request_is_authenticated(a, cookies, now_unix), htmx),
    }
}

/// Whether the login page is shown. Without a configured login, or with a valid
/// session, there is nothing to log in to.
pub fn shows_login_page(auth: Option<&auth::Auth>, cookies: Option<&str>, now_unix: u64) -> (r:
    bool)
    ensures
        r == (secret_of(auth) matches Some(s) && !carries_session(
            s,
            text::opt_slice_view(cookies),
            now_unix as int,
        )),
{
    match auth {
        Some(a) => !request_is_authenticated(a, cookies, now_unix),
        None => false,
    }
}

/// The answer to a submitted login form.
#[derive(Debug)]
pub enum LoginReply {
    /// There is nothing to log in to; go home.
    Home,
    /// The credentials are right; set this cookie and go home.
    Granted(String),
    /// The credentials are wrong; after a delay, show the form again.
    Denied,
}

/// How long a wrong login is delayed, in milliseconds.
pub const LOGIN_DELAY_MS: u64 = 500;

/// Answer a submitted login form.
pub fn login_submit(auth: Option<&auth::Auth>, user: &str, password: &str, now_unix: u64) -> (r:
    LoginReply)
    requires
        now_unix + auth::SESSION_TTL <= u64::MAX,
    ensures
        match auth {
            None => r is Home,
            Some(a) => if auth::credentials_accepted(
                a.secret(),
                (a.user(), a.password()),
                (user@, password@),
            ) {
                r matches LoginReply::Granted(cookie) && cookie@ == auth::cookie_text(
                    auth::session_token(a.secret(), (now_unix + auth::SESSION_TTL) as nat),
                    auth::SESSION_TTL as nat,
                    a.secure_cookie(),
                )
            } else {
                r is Denied
            },
        },
{
    match auth {
        None => LoginReply::Home,
        Some(a) => if a.credentials_valid(user, password) {
            LoginReply::Granted(a.issue_cookie(now_unix))
        } else {
            LoginReply::Denied
        },
    }
}

/// The cookie that a logout sets, if a login is configured.
pub fn logout_cookie(auth: Option<&auth::Auth>) -> (r: Option<String>)
    ensures
        match auth {
            Some(a) => text::opt_view(r) == Some(
                auth::cookie_text(Seq::empty(), 0, a.secure_cookie()),
            ),
            None => r is None,
        },
{
    match auth {
        Some(a) => Some(a.clear_cookie()),
        None => None,
    }
}

/// What a browser sends back of a cookie: its name and its value.
pub open spec fn returned_cookie(token: Seq<char>) -> Seq<char> {
    auth::COOKIE_NAME@.push('=') + token
}

/// A session gives access for as long as it lasts: the token of a login,
/// returned by the browser, passes until its expiry and never after.
pub proof fn law_login_opens_the_gate(
    secret: Seq<u8>,
    path: Seq<char>,
    htmx: bool,
    expiry: u64,
    now: int,
)
    requires
        !is_public_path(path),
    ensures
        (gate(
            Some(secret),
            path,
            Some(returned_cookie(auth::session_token(secret, expiry as nat))),
            htmx,
            now,
        ) is Pass) == (now < expiry),
{
    auth::lemma_returned_cookie(secret, expiry as nat);
    auth::law_signed_token_lasts_until_expiry(secret, expiry, now);
}

/// Without a session nothing but the public paths is served, once a login is
/// configured.
pub proof fn law_gate_is_shut_without_a_session(
    secret: Seq<u8>,
    path: Seq<char>,
    cookies: Option<Seq<char>>,
    htmx: bool,
    now: int,
)
    requires
        !is_public_path(path),
        !carries_session(secret, cookies, now),
    ensures
        gate(Some(secret), path, cookies, htmx, now) == (if htmx {
            Gate::RefuseHtmx
        } else {
            Gate::Login
        }),
        gate(Some(secret), path, None, htmx, now) != Gate::Pass,
{
}

/// The cookie that a logout sets carries no session.
pub proof fn law_logout_ends_the_session(secret: Seq<u8>, now: int)
    ensures
        !carries_session(secret, Some(returned_cookie(Seq::empty())), now),
{
    let header = returned_cookie(Seq::empty());
    auth::lemma_plain_cookie(Seq::empty());
    text::lemma_lead_is(Seq::<char>::empty(), text::not_char('.'), 0);
}

/// The host of a header value stands before its port; an IPv6 address stands in
/// brackets, with or without a port behind them; a value without a colon is a
/// host.
pub proof fn law_ports_and_brackets_are_dropped(host: Seq<char>, port: Seq<char>)
    ensures
        !port.contains(':') && (host.len() == 0 || host[0] != '[') ==> bare_host(
            host.push(':') + port,
        ) == host,
        !host.contains(':') && (host.len() == 0 || host[0] != '[') ==> bare_host(host) == host,
        !host.contains(']') ==> bare_host(seq!['['] + (host.push(']') + port)) == host,
{
    let with_port = host.push(':') + port;
    text::law_cuts_split_at_the_character(with_port, ':');
    if !port.contains(':') && (host.len() == 0 || host[0] != '[') {
        if host.len() > 0 {
            assert(with_port[0] == host[0]);
        } else {
            assert(with_port[0] == ':');
        }
        assert(with_port.contains(':')) by {
            assert(with_port[host.len() as int] == ':');
        }
        let (a, b) = text::cut_last(with_port, ':')->0;
        assert(a =~= host && b =~= port) by {
            let n = host.len() as int;
            let m = a.len() as int;
            assert((a.push(':') + b)[m] == ':');
            if m < n {
                assert((a.push(':') + b)[n] == b[n - m - 1]);
                assert(b.contains(b[n - m - 1]));
            } else if n < m {
                assert(with_port[m] == port[m - n - 1]);
                assert(port.contains(port[m - n - 1]));
            }
            assert(a =~= with_port.take(n));
            assert(b =~= with_port.skip(n + 1));
        }
    }
    text::law_cuts_split_at_the_character(host, ':');
    if let Some((a, b)) = text::cut_last(host, ':') {
        assert((a.push(':') + b)[a.len() as int] == ':');
        assert(host.contains(':'));
    }
    let boxed = seq!['['] + (host.push(']') + port);
    if !host.contains(']') {
        assert(boxed[0] == '[');
        assert(boxed.skip(1) =~= host.push(']') + port);
        text::lemma_cut_first_at(host, ']', port);
        text::law_cuts_split_at_the_character(boxed.skip(1), ']');
    }
}

/// Hosts are compared in lower case, without the white space around them, their
/// port and their brackets.
pub proof fn law_hosts_are_compared_in_normal_form(host: Seq<char>)
    ensures
        normal_host(host) == text::lowered(bare_host(text::trimmed(host))),
        normal_host(host).len() == bare_host(text::trimmed(host)).len(),
{
}

/// With an allowlist, a request is served exactly if it names the local machine or
/// a host of the list.
pub proof fn law_allowlists_admit_listed_and_local_hosts(
    requested: Seq<char>,
    allowed: Seq<Seq<char>>,
)
    requires
        allowed.len() > 0,
    ensures
        is_allowed(Some(requested), allowed) == (normal_host(requested) == "localhost"@
            || normal_host(requested) == "127.0.0.1"@ || normal_host(requested) == "::1"@
            || allowed.contains(normal_host(requested))),
        !is_allowed(None, allowed),
{
}

/// The allowlist is made of the normal forms of the configured hosts, and of
/// nothing else; empty ones are left out.
pub proof fn law_allowlist_is_what_is_configured(
    a: Seq<Seq<char>>,
    b: Seq<Seq<char>>,
    host: Seq<char>,
)
    ensures
        normal_hosts(a + b) == normal_hosts(a) + normal_hosts(b),
        normal_hosts(seq![host]) == (if normal_host(host).len() > 0 {
            seq![normal_host(host)]
        } else {
            Seq::empty()
        }),
        normal_hosts(Seq::empty()) == Seq::<Seq<char>>::empty(),
    decreases b.len(),
{
    reveal_with_fuel(normal_hosts, 2);
    assert(seq![host].drop_last() =~= Seq::<Seq<char>>::empty());
    assert(normal_hosts(seq![host]) =~= (if normal_host(host).len() > 0 {
        seq![normal_host(host)]
    } else {
        Seq::empty()
    }));
    if b.len() == 0 {
        assert(a + b =~= a);
        assert(normal_hosts(a) + normal_hosts(b) =~= normal_hosts(a));
    } else {
        law_allowlist_is_what_is_configured(a, b.drop_last(), host);
        assert((a + b).drop_last() =~= a + b.drop_last());
        assert((a + b).last() == b.last());
        assert(normal_hosts(a + b) =~= normal_hosts(a) + normal_hosts(b));
    }
}

/// Only the exact value `true` marks a request of the page itself.
pub proof fn law_true_is_four_letters(v: Seq<u8>)
    ensures
        (v == true_bytes()) == (v == vstd::utf8::encode_utf8("true"@)),
{
    reveal_strlit("true");
    assert(vstd::utf8::is_ascii_chars("true"@));
    vstd::utf8::is_ascii_chars_encode_utf8("true"@);
    assert(vstd::utf8::encode_utf8("true"@) =~= true_bytes());
}

/// Without a login everything is served. With one, a request is served exactly if
/// it is for the login page or an asset, or carries a valid session; any other is
/// refused, and a browser is sent to the login.
pub proof fn law_the_login_guards_all_but_its_own_page(
    login: bool,
    path: Seq<char>,
    session: bool,
    htmx: bool,
)
    ensures
        (verdict(login, path, session, htmx) is Pass) == (!login || session || path == "/login"@
            || "/assets/"@.is_prefix_of(path)),
        (verdict(login, path, session, htmx) is RefuseHtmx) == (htmx && !(verdict(
            login,
            path,
            session,
            htmx,
        ) is Pass)),
        (verdict(login, path, session, htmx) is Login) == (!htmx && !(verdict(
            login,
            path,
            session,
            htmx,
        ) is Pass)),
{
}

/// Whether a request is served depends on a configured login, its path, and the
/// session in its cookies alone.
pub proof fn law_gates_ask_for_the_session(
    secret: Seq<u8>,
    path: Seq<char>,
    cookies: Seq<char>,
    htmx: bool,
    now: int,
)
    ensures
        gate(None, path, Some(cookies), htmx, now) is Pass,
        (gate(Some(secret), path, Some(cookies), htmx, now) is Pass) == (path == "/login"@
            || "/assets/"@.is_prefix_of(path) || (auth::cookie_lookup(
            cookies,
            "dockdoe_session"@,
        ) matches Some(token) && auth::token_accepted(secret, token, now))),
        (gate(Some(secret), path, None, htmx, now) is Pass) == (path == "/login"@
            || "/assets/"@.is_prefix_of(path)),
{
}

} // verus!
