//! How a hub talks to a remote node.
//!
//! A node is another instance, reached over its JSON interface with a bearer
//! token. Which addresses to ask, whose certificates to trust, how to read the
//! status of an answer, and which of a node's hosts an entry mirrors are decided
//! here.

use vstd::prelude::*;
use vstd::string::*;

use crate::{model, text};

verus! {

/// This build's version, compared against what nodes report.
pub const VERSION: &'static str = "0.10.0";

/// Deadline of a request to a node, in seconds.
pub const REQUEST_TIMEOUT_SECS: u64 = 10;

/// Deadline for connecting to a node, in seconds; shorter, so that a node that
/// cannot be reached fails fast.
pub const CONNECT_TIMEOUT_SECS: u64 = 5;

/// The base address of a node: without white space around it, and without
/// slashes at its end.
pub open spec fn base_of(endpoint: Seq<char>) -> Seq<char> {
    let t = text::trimmed(endpoint);
    t.take(t.len() - text::trail(t, text::is_char('/')))
}

/// Where a node is and how to authenticate to it.
#[derive(Debug)]
pub struct NodeTarget {
    pub base: String,
    /// Value of the authorization header, if a token is configured.
    pub authorization: Option<String>,
}

/// The authorization header for a token.
pub open spec fn bearer(token: Option<Seq<char>>) -> Option<Seq<char>> {
    match token {
        Some(t) => Some("Bearer "@ + t),
        None => None,
    }
}

/// Whether a header value may hold a byte: a tab, or anything but a control
/// character.
pub open spec fn header_byte(b: u8) -> bool {
    b == 9 || (b >= 32 && b != 127)
}

/// Whether text may stand in a header value.
pub open spec fn fits_header(s: Seq<char>) -> bool {
    let bytes = vstd::utf8::encode_utf8(s);
    forall|i: int| 0 <= i < bytes.len() ==> header_byte(#[trigger] bytes[i])
}

/// Whether text may stand in a header value.
pub fn may_be_header(s: &str) -> (r: bool)
    ensures
        r == fits_header(s@),
{
    let bytes = s.as_bytes();
    let mut i: usize = 0;
    while i < bytes.len()
        invariant
            i <= bytes.len(),
            bytes@ == vstd::utf8::encode_utf8(s@),
            forall|j: int| 0 <= j < i ==> header_byte(#[trigger] bytes@[j]),
        decreases bytes.len() - i,
    {
        let b: u8 = bytes[i];
        if !(b == 9 || (b >= 32 && b != 127)) {
            proof {
                assert(!header_byte(bytes@[i as int]));
            }
            return false;
        }
        i += 1;
    }
    true
}

/// Why a host's configuration names no node that could be asked, if so: it has no
/// endpoint, or a token that no header can carry.
pub open spec fn target_problem(
    dockdoe: Option<Seq<char>>,
    token: Option<Seq<char>>,
) -> Option<Seq<char>> {
    if dockdoe is None {
        Some("host has no dockdoe endpoint"@)
    } else if token matches Some(t) && !fits_header(t) {
        Some("token contains characters not allowed in a header"@)
    } else {
        None
    }
}

/// Where a node is and how to authenticate to it, from a host's configuration.
pub fn node_target(dockdoe: Option<&str>, token: Option<&str>) -> (r: Result<NodeTarget, String>)
    ensures
        match target_problem(text::opt_slice_view(dockdoe), text::opt_slice_view(token)) {
            Some(e) => r matches Err(m) && m@ == e,
            None => {
                &&& dockdoe is Some
                &&& r matches Ok(t) && t.base@ == base_of(dockdoe->0@) && text::opt_view(
                    t.authorization,
                ) == bearer(text::opt_slice_view(token))
            },
        },
{
    let endpoint = match dockdoe {
        Some(e) => e,
        None => {
            return Err("host has no dockdoe endpoint".to_owned());
        },
    };
    let authorization = match token {
        Some(t) => {
            if !may_be_header(t) {
                return Err("token contains characters not allowed in a header".to_owned());
            }
            let mut value = "Bearer ".to_owned();
            value.append(t);
            Some(value)
        },
        None => None,
    };
    Ok(
        NodeTarget {
            base: text::trim_end_char(text::trim(endpoint), '/').to_owned(),
            authorization,
        },
    )
}

/// The authorization of a node can be sent: it fits a header whenever its token
/// does.
pub proof fn law_authorization_fits_a_header(token: Seq<char>)
    requires
        fits_header(token),
    ensures
        fits_header("Bearer "@ + token),
{
    let head = "Bearer "@;
    reveal_strlit("Bearer ");
    assert(vstd::utf8::is_ascii_chars(head));
    vstd::utf8::is_ascii_chars_encode_utf8(head);
    text::lemma_encode_concat(head, token);
    let a = vstd::utf8::encode_utf8(head);
    let b = vstd::utf8::encode_utf8(token);
    assert forall|i: int| 0 <= i < (a + b).len() implies header_byte(#[trigger] (a + b)[i]) by {
        if i < a.len() {
            assert((a + b)[i] == a[i]);
            assert(a[i] == head[i] as u8);
        } else {
            assert((a + b)[i] == b[i - a.len()]);
        }
    }
}

// ---------------------------------------------------------------------------
// Certificates
// ---------------------------------------------------------------------------

/// Whose certificates a connection to a node trusts.
#[derive(Debug)]
pub enum Trust {
    /// Anyone's.
    Unverified,
    /// The compiled-in roots.
    Roots,
    /// The compiled-in roots, and those in this file.
    RootsAnd(String),
}

/// Whose certificates a connection to a node trusts.
pub fn trust(tls_insecure: bool, tls_ca: Option<&str>) -> (r: Trust)
    ensures
        if tls_insecure {
            r is Unverified
        } else {
            match tls_ca {
                Some(path) => r matches Trust::RootsAnd(p) && p@ == path@,
                None => r is Roots,
            }
        },
{
    if tls_insecure {
        Trust::Unverified
    } else {
        match tls_ca {
            Some(path) => Trust::RootsAnd(path.to_owned()),
            None => Trust::Roots,
        }
    }
}

/// `reqwest::Certificate`, which is only carried.
#[verifier::external_type_specification]
#[verifier::external_body]
pub struct ExCertificate(reqwest::Certificate);

/// `reqwest::Error`, which is only carried.
#[verifier::external_type_specification]
#[verifier::external_body]
pub struct ExRequestError(reqwest::Error);

/// The certificate that `reqwest::Certificate::from_der` reads an encoding as;
/// `None` for an encoding that it refuses.
pub uninterp spec fn der_read(der: Seq<u8>) -> Option<reqwest::Certificate>;

/// `reqwest::Certificate::from_der`. What it makes of the encoding, a certificate
/// or a refusal, is what [`der_read`] names.
#[verifier::external_body]
fn der_certificate(der: &[u8]) -> (r: Result<reqwest::Certificate, reqwest::Error>)
    ensures
        match r {
            Ok(c) => der_read(der@) == Some(c),
            Err(_) => der_read(der@) is None,
        },
{
    reqwest::Certificate::from_der(der)
}

/// The certificates of the encodings that can be read, in the order of the
/// encodings.
pub open spec fn roots_of(ders: Seq<&[u8]>) -> Seq<reqwest::Certificate>
    decreases ders.len(),
{
    if ders.len() == 0 {
        Seq::empty()
    } else {
        match der_read(ders.last()@) {
            Some(c) => roots_of(ders.drop_last()).push(c),
            None => roots_of(ders.drop_last()),
        }
    }
}

/// The certificate that an encoding was read as, added to a list; one that could
/// not be read is left out.
pub fn add_root(
    roots: &mut Vec<reqwest::Certificate>,
    read: Result<reqwest::Certificate, reqwest::Error>,
)
    ensures
        final(roots)@ == (match read {
            Ok(c) => old(roots)@.push(c),
            Err(_) => old(roots)@,
        }),
{
    if let Ok(c) = read {
        roots.push(c);
    }
}

/// The compiled-in roots: the certificate of each encoding that can be read.
pub fn root_certificates(ders: &[&[u8]]) -> (r: Vec<reqwest::Certificate>)
    ensures
        r@ == roots_of(ders@),
{
    let mut out: Vec<reqwest::Certificate> = Vec::new();
    let mut i: usize = 0;
    proof {
        assert(ders@.take(0) =~= Seq::empty());
    }
    while i < ders.len()
        invariant
            i <= ders.len(),
            out@ == roots_of(ders@.take(i as int)),
        decreases ders.len() - i,
    {
        proof {
            assert(ders@.take(i + 1).drop_last() =~= ders@.take(i as int));
            assert(ders@.take(i + 1).last() == ders@[i as int]);
        }
        add_root(&mut out, der_certificate(ders[i]));
        i += 1;
    }
    proof {
        assert(ders@.take(ders.len() as int) =~= ders@);
    }
    out
}

/// The certificates that `reqwest::Certificate::from_pem_bundle` reads from a
/// bundle, in its order; `None` for a bundle that it refuses.
pub uninterp spec fn pem_read(pem: Seq<u8>) -> Option<Seq<reqwest::Certificate>>;

/// `reqwest::Certificate::from_pem_bundle`. What it makes of the bundle, a list of
/// certificates or a refusal, is what [`pem_read`] names.
#[verifier::external_body]
fn pem_certificates(pem: &[u8]) -> (r: Result<Vec<reqwest::Certificate>, reqwest::Error>)
    ensures
        match r {
            Ok(v) => pem_read(pem@) == Some(v@),
            Err(_) => pem_read(pem@) is None,
        },
{
    reqwest::Certificate::from_pem_bundle(pem)
}

/// How many certificates a bundle holds; `None` for one that cannot be read.
pub open spec fn pem_count(pem: Seq<u8>) -> Option<nat> {
    match pem_read(pem) {
        Some(found) => Some(found.len()),
        None => None,
    }
}

/// What is wrong with the certificate file at `path`, given how many certificates
/// were found in it: it cannot be read as one, or it holds none.
pub open spec fn ca_problem(path: Seq<char>, count: Option<nat>) -> Option<Seq<char>> {
    match count {
        None => Some("parsing tls_ca "@ + path),
        Some(n) => if n == 0 {
            Some("tls_ca "@ + path + " contained no certificates"@)
        } else {
            None
        },
    }
}

/// The certificates of the file at `path`, given what reading it as a bundle came
/// to. A file that cannot be read, or that holds no certificate, is refused.
pub fn ca_from(path: &str, read: Result<Vec<reqwest::Certificate>, reqwest::Error>) -> (r: Result<
    Vec<reqwest::Certificate>,
    String,
>)
    ensures
        match read {
            Err(_) => r matches Err(m) && ca_problem(path@, None) == Some(m@),
            Ok(found) => match ca_problem(path@, Some(found@.len())) {
                Some(e) => r matches Err(m) && m@ == e,
                None => r == Ok::<Vec<reqwest::Certificate>, String>(found),
            },
        },
{
    match read {
        Err(_) => {
            let mut e = "parsing tls_ca ".to_owned();
            e.append(path);
            Err(e)
        },
        Ok(found) => if found.len() == 0 {
            let mut e = "tls_ca ".to_owned();
            e.append(path);
            e.append(" contained no certificates");
            Err(e)
        } else {
            Ok(found)
        },
    }
}

/// The certificates of the file at `path`, which holds `pem`.
pub fn ca_certificates(path: &str, pem: &[u8]) -> (r: Result<Vec<reqwest::Certificate>, String>)
    ensures
        match ca_problem(path@, pem_count(pem@)) {
            Some(e) => r matches Err(m) && m@ == e,
            None => r matches Ok(v) && pem_read(pem@) == Some(v@),
        },
{
    ca_from(path, pem_certificates(pem))
}

/// The certificates that a connection to a node trusts alone: the compiled-in
/// roots, followed by those of a private authority's file, if there is one.
pub fn trusted_certificates(
    roots: Vec<reqwest::Certificate>,
    ca: Option<(&str, &[u8])>,
) -> (r: Result<Vec<reqwest::Certificate>, String>)
    ensures
        match ca {
            None => r matches Ok(v) && v@ == roots@,
            Some((path, pem)) => match ca_problem(path@, pem_count(pem@)) {
                Some(e) => r matches Err(m) && m@ == e,
                None => r matches Ok(v) && v@ == roots@ + pem_read(pem@)->0,
            },
        },
{
    let mut all = roots;
    match ca {
        None => Ok(all),
        Some((path, pem)) => match ca_certificates(path, pem) {
            Err(e) => Err(e),
            Ok(more) => {
                let mut more = more;
                all.append(&mut more);
                Ok(all)
            },
        },
    }
}

/// The path that lists a node's hosts.
pub const HOSTS_PATH: &'static str = "/api/hosts";

/// The address of a path on a node.
pub fn node_url(base: &str, path: &str) -> (r: String)
    ensures
        r@ == base@ + path@,
{
    let mut url = base.to_owned();
    url.append(path);
    url
}

/// The address of the snapshot of a node's host.
pub fn snapshot_url(base: &str, node_host: &str) -> (r: String)
    ensures
        r@ == base@ + "/host/"@ + node_host@ + "/api/snapshot"@,
{
    let mut url = base.to_owned();
    url.append("/host/");
    url.append(node_host);
    url.append("/api/snapshot");
    url
}

/// The message about a status that is no success.
pub open spec fn status_problem(code: u16, shown: Seq<char>) -> Option<Seq<char>> {
    if 200 <= code < 300 {
        None
    } else if code == 401 {
        Some(
            "node rejected the API token (401): check this host's `token` against the node's `api_token`"@,
        )
    } else if code == 303 {
        Some(
            "node redirected to its login page: set `token` here, and make sure the node is DockDoe ≥ 0.10 with `api_token` configured"@,
        )
    } else {
        Some("node answered "@ + shown)
    }
}

/// Turn a status that is no success into a message. A refused token and a
/// redirect to the login are called out, since a wrong or missing token is the
/// likeliest mistake. `shown` is the status with its reason.
pub fn check_status(code: u16, shown: &str) -> (r: Result<(), String>)
    ensures
        match r {
            Ok(_) => status_problem(code, shown@) is None,
            Err(e) => status_problem(code, shown@) == Some(e@),
        },
{
    if 200 <= code && code < 300 {
        Ok(())
    } else if code == 401 {
        Err(
            "node rejected the API token (401): check this host's `token` against the node's `api_token`".to_owned(),
        )
    } else if code == 303 {
        Err(
            "node redirected to its login page: set `token` here, and make sure the node is DockDoe ≥ 0.10 with `api_token` configured".to_owned(),
        )
    } else {
        let mut e = "node answered ".to_owned();
        e.append(shown);
        Err(e)
    }
}

/// How to read the answer to a request for a snapshot.
#[derive(Debug)]
pub enum SnapshotAnswer {
    /// The node has no snapshot yet.
    WarmingUp,
    /// The body is the snapshot.
    Body,
    /// The request failed.
    Problem(String),
}

/// How to read the answer to a request for a snapshot: a node that is starting
/// up is unavailable, which is no failure.
pub fn snapshot_answer(code: u16, shown: &str) -> (r: SnapshotAnswer)
    ensures
        if code == 503 {
            r is WarmingUp
        } else {
            match status_problem(code, shown@) {
                None => r is Body,
                Some(e) => r matches SnapshotAnswer::Problem(p) && p@ == e,
            }
        },
{
    if code == 503 {
        return SnapshotAnswer::WarmingUp;
    }
    match check_status(code, shown) {
        Ok(_) => SnapshotAnswer::Body,
        Err(e) => SnapshotAnswer::Problem(e),
    }
}

/// The names of hosts.
pub open spec fn names_of(hosts: Seq<model::HostEntry>) -> Seq<Seq<char>> {
    hosts.map_values(|h: model::HostEntry| h.name@)
}

/// The first host of this name, or the length of the list.
pub open spec fn named_host(hosts: Seq<model::HostEntry>, name: Seq<char>) -> int
    decreases hosts.len(),
{
    if hosts.len() == 0 {
        0
    } else if hosts[0].name@ == name {
        0
    } else {
        1 + named_host(hosts.skip(1), name)
    }
}

/// The message about a host that a node does not have, given the quoted name.
pub open spec fn missing_host_text(quoted: Seq<char>, hosts: Seq<model::HostEntry>) -> Seq<char> {
    "node has no host "@ + quoted + " (it has: "@ + text::joined(names_of(hosts), ", "@) + ")"@
}

/// Which host is picked: the named one, or the only one when none is named. Else
/// the message about why none can be.
pub open spec fn picked(hosts: Seq<model::HostEntry>, configured: Option<Seq<char>>) -> Result<
    int,
    Seq<char>,
> {
    let listed = text::joined(names_of(hosts), ", "@);
    match configured {
        Some(want) => {
            let i = named_host(hosts, want);
            if 0 <= i < hosts.len() {
                Ok(i)
            } else {
                Err(missing_host_text(text::debug_text(want), hosts))
            }
        },
        None => if hosts.len() == 1 {
            Ok(0)
        } else if hosts.len() == 0 {
            Err("node reports no hosts"@)
        } else {
            Err(
                "node monitors several hosts ("@ + listed + "); set node_host to pick one"@,
            )
        },
    }
}

fn listed_names(hosts: &[model::HostEntry]) -> (r: String)
    ensures
        r@ == text::joined(names_of(hosts@), ", "@),
{
    let ghost all = names_of(hosts@);
    let mut names: Vec<String> = Vec::new();
    let mut i: usize = 0;
    proof {
        assert(text::string_views(names@) =~= all.take(0));
    }
    while i < hosts.len()
        invariant
            i <= hosts.len(),
            all == names_of(hosts@),
            text::string_views(names@) == all.take(i as int),
        decreases hosts.len() - i,
    {
        let ghost before = text::string_views(names@);
        names.push(hosts[i].name.clone());
        proof {
            assert(text::string_views(names@) =~= before.push(hosts[i as int].name@));
            assert(all.take(i + 1) =~= all.take(i as int).push(all[i as int]));
        }
        i += 1;
    }
    proof {
        assert(all.take(hosts.len() as int) =~= all);
    }
    text::join(&names, ", ")
}

/// The message about a host that a node does not have, given the quoted name.
pub fn missing_host(quoted: &str, hosts: &[model::HostEntry]) -> (r: String)
    ensures
        r@ == missing_host_text(quoted@, hosts@),
{
    let mut e = "node has no host ".to_owned();
    e.append(quoted);
    e.append(" (it has: ");
    e.append(listed_names(hosts).as_str());
    e.append(")");
    e
}

/// The host that `configured` names, or the node's only host when it names none.
pub fn pick_host<'a>(hosts: &'a [model::HostEntry], configured: Option<&str>) -> (r: Result<
    &'a model::HostEntry,
    String,
>)
    ensures
        match picked(hosts@, text::opt_slice_view(configured)) {
            Ok(i) => r matches Ok(h) && *h == hosts@[i],
            Err(e) => r matches Err(m) && m@ == e,
        },
{
    match configured {
        Some(want) => {
            let mut i: usize = 0;
            proof {
                assert(hosts@.skip(0) =~= hosts@);
            }
            while i < hosts.len()
                invariant
                    i <= hosts.len(),
                    text::opt_slice_view(configured) == Some(want@),
                    named_host(hosts@, want@) == i + named_host(hosts@.skip(i as int), want@),
                decreases hosts.len() - i,
            {
                proof {
                    assert(hosts@.skip(i as int)[0] == hosts@[i as int]);
                    assert(hosts@.skip(i as int).skip(1) =~= hosts@.skip(i + 1));
                }
                if text::same(hosts[i].name.as_str(), want) {
                    return Ok(&hosts[i]);
                }
                i += 1;
            }
            Err(missing_host(text::quoted(want).as_str(), hosts))
        },
        None => if hosts.len() == 1 {
            Ok(&hosts[0])
        } else if hosts.len() == 0 {
            Err("node reports no hosts".to_owned())
        } else {
            let mut e = "node monitors several hosts (".to_owned();
            e.append(listed_names(hosts).as_str());
            e.append("); set node_host to pick one");
            Err(e)
        },
    }
}

/// Whether a node runs another version than this build.
pub fn version_differs(node: &model::HostEntry) -> (r: bool)
    ensures
        r == (node.version@ != VERSION@),
{
    !text::same(node.version.as_str(), VERSION)
}

// ---------------------------------------------------------------------------
// Laws
// ---------------------------------------------------------------------------

/// The base address of a node is what is configured, without the slashes at its
/// end and the white space around it.
pub proof fn law_bases_have_no_slash_at_the_end(endpoint: Seq<char>)
    ensures
        exists|slashes: Seq<char>| #[trigger]
            (base_of(endpoint) + slashes) == text::trimmed(endpoint) && (forall|i: int|
                0 <= i < slashes.len() ==> #[trigger] slashes[i] == '/'),
        base_of(endpoint).len() > 0 ==> base_of(endpoint).last() != '/',
{
    let t = text::trimmed(endpoint);
    let p = text::is_char('/');
    text::lemma_trail(t, p);
    let n = t.len() - text::trail(t, p);
    let slashes = t.skip(n);
    assert(base_of(endpoint) + slashes =~= t);
    assert forall|i: int| 0 <= i < slashes.len() implies #[trigger] slashes[i] == '/' by {
        assert(p(t[n + i]));
    }
    if n > 0 {
        assert(!p(t[n - 1]));
    }
}

/// A token is sent as a bearer token; without one nothing is sent. A node is asked
/// exactly if it has an endpoint and its token, if any, fits a header.
pub proof fn law_tokens_are_sent_as_bearers(dockdoe: Option<Seq<char>>, token: Option<Seq<char>>)
    ensures
        token matches Some(t) ==> bearer(token) == Some("Bearer "@ + t),
        token is None ==> bearer(token) is None,
        (target_problem(dockdoe, token) is None) == (dockdoe is Some && match token {
            Some(t) => fits_header(t),
            None => true,
        }),
{
}

/// A header holds no control character but the tab.
pub proof fn law_headers_hold_no_control_characters(s: Seq<char>)
    ensures
        fits_header(s) == !vstd::utf8::encode_utf8(s).any(
            |b: u8| (b < 32 && b != 9) || b == 127,
        ),
{
    let bytes = vstd::utf8::encode_utf8(s);
    let bad = |b: u8| (b < 32 && b != 9) || b == 127;
    if fits_header(s) {
        assert forall|i: int| 0 <= i < bytes.len() implies !bad(#[trigger] bytes[i]) by {
            assert(header_byte(bytes[i]));
        }
    }
    if !bytes.any(bad) {
        assert forall|i: int| 0 <= i < bytes.len() implies header_byte(#[trigger] bytes[i]) by {
            assert(!bad(bytes[i]));
        }
    }
}

/// A status is a success exactly from 200 to 299; a refused token, a redirect to
/// the login and any other status have messages of their own.
pub proof fn law_statuses_outside_the_two_hundreds_are_problems(
    code: u16,
    other: u16,
    shown: Seq<char>,
)
    ensures
        (status_problem(code, shown) is None) == (200 <= code && code <= 299),
        code != 401 && code != 303 && !(200 <= code && code <= 299) ==> status_problem(code, shown)
            == Some("node answered "@ + shown),
        status_problem(401, shown) matches Some(e) && text::has_part(e, "API token"@),
        status_problem(303, shown) matches Some(e) && text::has_part(e, "login page"@),
{
    reveal_strlit("API token");
    reveal_strlit("login page");
    reveal_strlit(
        "node rejected the API token (401): check this host's `token` against the node's `api_token`",
    );
    reveal_strlit(
        "node redirected to its login page: set `token` here, and make sure the node is DockDoe ≥ 0.10 with `api_token` configured",
    );
    let a = status_problem(401, shown)->0;
    let b = status_problem(303, shown)->0;
    assert(a.subrange(18, 27) =~= "API token"@);
    assert(text::stands_at(a, "API token"@, 18));
    assert(b.subrange(23, 33) =~= "login page"@);
    assert(text::stands_at(b, "login page"@, 23));
}

/// The first host of a name.
pub proof fn lemma_named_host(hosts: Seq<model::HostEntry>, name: Seq<char>)
    ensures
        ({
            let i = named_host(hosts, name);
            &&& 0 <= i <= hosts.len()
            &&& i < hosts.len() ==> hosts[i].name@ == name
            &&& forall|j: int| 0 <= j < i ==> (#[trigger] hosts[j]).name@ != name
        }),
    decreases hosts.len(),
{
    if hosts.len() > 0 && hosts[0].name@ != name {
        let t = hosts.skip(1);
        lemma_named_host(t, name);
        assert forall|j: int| 0 <= j < named_host(hosts, name) implies (#[trigger] hosts[j]).name@
            != name by {
            if j > 0 {
                assert(t[j - 1] == hosts[j]);
            }
        }
    }
}

/// A named host is picked if the node has it, and is the first of that name;
/// without a name a node's only host is picked, and none of several or of none.
pub proof fn law_hosts_are_picked_by_name(
    hosts: Seq<model::HostEntry>,
    configured: Option<Seq<char>>,
)
    ensures
        configured matches Some(want) ==> (match picked(hosts, configured) {
            Ok(i) => 0 <= i < hosts.len() && hosts[i].name@ == want && forall|j: int|
                0 <= j < i ==> (#[trigger] hosts[j]).name@ != want,
            Err(_) => forall|j: int| 0 <= j < hosts.len() ==> (#[trigger] hosts[j]).name@ != want,
        }),
        configured is None ==> (picked(hosts, configured) is Ok) == (hosts.len() == 1),
        configured is None && hosts.len() == 1 ==> picked(hosts, configured) == Ok::<
            int,
            Seq<char>,
        >(0int),
{
    if let Some(want) = configured {
        lemma_named_host(hosts, want);
    }
}

/// The certificates of two lists of encodings are those of the first followed by
/// those of the second; what cannot be read is left out.
pub proof fn law_roots_add_up(a: Seq<&[u8]>, b: Seq<&[u8]>, der: &[u8])
    ensures
        roots_of(a + b) == roots_of(a) + roots_of(b),
        roots_of(seq![der]) == (match der_read(der@) {
            Some(c) => seq![c],
            None => Seq::empty(),
        }),
        roots_of(Seq::empty()) == Seq::<reqwest::Certificate>::empty(),
    decreases b.len(),
{
    reveal_with_fuel(roots_of, 2);
    assert(seq![der].drop_last() =~= Seq::<&[u8]>::empty());
    assert(roots_of(seq![der]) =~= (match der_read(der@) {
        Some(c) => seq![c],
        None => Seq::empty(),
    }));
    if b.len() == 0 {
        assert(a + b =~= a);
        assert(roots_of(a) + roots_of(b) =~= roots_of(a));
    } else {
        law_roots_add_up(a, b.drop_last(), der);
        assert((a + b).drop_last() =~= a + b.drop_last());
        assert((a + b).last() == b.last());
        assert(roots_of(a + b) =~= roots_of(a) + roots_of(b));
    }
}

/// A certificate file is refused exactly if it cannot be read or holds none.
pub proof fn law_empty_certificate_files_are_refused(path: Seq<char>, count: Option<nat>)
    ensures
        (ca_problem(path, count) is None) == (count matches Some(n) && n > 0),
{
}

/// A refusal to pick a host names the hosts that the node has, and the one that it
/// lacks.
pub proof fn law_refusals_list_the_hosts(
    hosts: Seq<model::HostEntry>,
    want: Seq<char>,
    quoted: Seq<char>,
)
    ensures
        text::has_part(missing_host_text(quoted, hosts), quoted),
        text::has_part(missing_host_text(quoted, hosts), text::joined(names_of(hosts), ", "@)),
        hosts.len() > 1 ==> (picked(hosts, None) matches Err(e) && text::has_part(
            e,
            text::joined(names_of(hosts), ", "@),
        )),
        names_of(hosts).len() == hosts.len(),
        forall|i: int|
            0 <= i < hosts.len() ==> #[trigger] names_of(hosts)[i] == hosts[i].name@,
{
    let list = text::joined(names_of(hosts), ", "@);
    let m = missing_host_text(quoted, hosts);
    let a = "node has no host "@;
    let b = " (it has: "@ + list + ")"@;
    text::law_parts_stand_between(a, quoted, b);
    assert(m =~= a + quoted + b);
    text::law_parts_stand_between(a + quoted + " (it has: "@, list, ")"@);
    assert(m =~= a + quoted + " (it has: "@ + list + ")"@);
    text::law_parts_stand_between(
        "node monitors several hosts ("@,
        list,
        "); set node_host to pick one"@,
    );
}

} // verus!
