//! How published container ports are shown and where they link to.

use vstd::prelude::*;
use vstd::string::*;

use crate::{model, num, text};

verus! {

/// How published ports of a host link out.
#[derive(Debug, Clone)]
pub enum PortLinks {
    /// To whatever host the browser is pointed at.
    Browser,
    /// To a fixed host.
    Host(String),
    /// Not at all.
    Off,
}

/// Port links as plain values.
#[verifier::ext_equal]
pub enum LinkMode {
    Browser,
    Host(Seq<char>),
    Off,
}

impl View for PortLinks {
    type V = LinkMode;

    open spec fn view(&self) -> LinkMode {
        match self {
            PortLinks::Browser => LinkMode::Browser,
            PortLinks::Host(h) => LinkMode::Host(h@),
            PortLinks::Off => LinkMode::Off,
        }
    }
}

/// Whether a configured public host means that there are no links.
pub open spec fn means_off(s: Seq<char>) -> bool {
    text::same_ignoring_case(s, "off"@) || text::same_ignoring_case(s, "none"@) || s == "-"@
}

/// The predicate "neither a slash nor a colon".
pub open spec fn in_authority() -> spec_fn(char) -> bool {
    |c: char| c != '/' && c != ':'
}

/// What follows the scheme of an endpoint that is reached over the network.
pub open spec fn after_scheme(url: Seq<char>) -> Option<Seq<char>> {
    if "tcp://"@.is_prefix_of(url) {
        Some(url.skip("tcp://"@.len() as int))
    } else if "http://"@.is_prefix_of(url) {
        Some(url.skip("http://"@.len() as int))
    } else if "https://"@.is_prefix_of(url) {
        Some(url.skip("https://"@.len() as int))
    } else {
        None
    }
}

/// The host of an endpoint that is reached over the network: what stands in the
/// brackets of an IPv6 address, or what comes before a port or a path.
pub open spec fn host_of(url: Seq<char>) -> Option<Seq<char>> {
    match after_scheme(url) {
        None => None,
        Some(rest) => if rest.len() > 0 && rest[0] == '[' {
            Some(text::before_first(rest.skip(1), ']'))
        } else {
            let host = rest.take(text::lead(rest, in_authority()));
            if host.len() == 0 {
                None
            } else {
                Some(host)
            }
        },
    }
}

/// How ports of a host link out, given its configured public host and endpoint.
pub open spec fn link_mode(public_host: Option<Seq<char>>, docker_url: Seq<char>) -> LinkMode {
    let configured = match public_host {
        Some(h) => text::trimmed(h),
        None => Seq::empty(),
    };
    if configured.len() > 0 {
        if means_off(configured) {
            LinkMode::Off
        } else {
            LinkMode::Host(configured)
        }
    } else {
        match host_of(docker_url) {
            Some(h) => LinkMode::Host(h),
            None => LinkMode::Browser,
        }
    }
}

/// A configured public host wins over the endpoint.
pub proof fn law_public_host_wins(public_host: Seq<char>, url: Seq<char>, other: Seq<char>)
    requires
        text::trimmed(public_host).len() > 0,
    ensures
        link_mode(Some(public_host), url) == link_mode(Some(public_host), other),
        !(link_mode(Some(public_host), url) is Browser),
{
}

fn rest_of<'a>(url: &'a str) -> (r: Option<&'a str>)
    ensures
        text::opt_slice_view(r) == after_scheme(url@),
{
    if let Some(rest) = text::strip_prefix(url, "tcp://") {
        return Some(rest);
    }
    if let Some(rest) = text::strip_prefix(url, "http://") {
        return Some(rest);
    }
    text::strip_prefix(url, "https://")
}

/// The host of an endpoint that is reached over the network; `None` for a
/// socket or a path.
pub fn endpoint_host(url: &str) -> (r: Option<String>)
    ensures
        text::opt_view(r) == host_of(url@),
{
    let rest = match rest_of(url) {
        Some(rest) => rest,
        None => {
            return None;
        },
    };
    let v = text::chars_of(rest);
    if v.len() > 0 && v[0] == '[' {
        proof {
            assert(rest@.subrange(1, v.len() as int) =~= rest@.skip(1));
        }
        return Some(text::until(rest.substring_char(1, v.len()), ']').to_owned());
    }
    let mut k: usize = 0;
    while k < v.len() && v[k] != '/' && v[k] != ':'
        invariant
            k <= v.len(),
            v@ == rest@,
            forall|j: int| 0 <= j < k ==> in_authority()(#[trigger] rest@[j]),
        decreases v.len() - k,
    {
        k += 1;
    }
    proof {
        text::lemma_lead_is(rest@, in_authority(), k as int);
        assert(rest@.subrange(0, k as int) =~= rest@.take(k as int));
    }
    if k == 0 {
        None
    } else {
        Some(rest.substring_char(0, k).to_owned())
    }
}

impl PortLinks {
    /// How ports of a host link out: a configured public host wins, with a few
    /// words for no links at all; else the host of a network endpoint; else,
    /// for a socket, whatever host the browser is pointed at.
    pub fn from_config(public_host: Option<&str>, docker_url: &str) -> (r: Self)
        ensures
            r@ == link_mode(text::opt_slice_view(public_host), docker_url@),
    {
        if let Some(h) = public_host {
            let s = text::trim(h);
            if !s.is_empty() {
                return if text::eq_ignore_case(s, "off") || text::eq_ignore_case(s, "none")
                    || text::same(s, "-") {
                    PortLinks::Off
                } else {
                    PortLinks::Host(s.to_owned())
                };
            }
        }
        match endpoint_host(docker_url) {
            Some(h) => PortLinks::Host(h),
            None => PortLinks::Browser,
        }
    }
}

// ---------------------------------------------------------------------------
// Port labels
// ---------------------------------------------------------------------------

/// The suffix of a protocol: nothing for TCP, which nearly all ports are.
pub open spec fn suffix(proto: Seq<char>) -> Seq<char> {
    if proto == "tcp"@ {
        Seq::empty()
    } else {
        "/"@ + proto
    }
}

/// The suffix of a protocol.
pub fn proto_suffix(proto: &str) -> (r: String)
    ensures
        r@ == suffix(proto@),
{
    let mut out = String::new();
    if !text::same(proto, "tcp") {
        out.append("/");
        out.append(proto);
        proof {
            assert(out@ =~= suffix(proto@));
        }
    } else {
        proof {
            assert(out@ =~= suffix(proto@));
        }
    }
    out
}

/// A pill for a published port.
#[derive(Debug)]
pub struct PortPill {
    pub label: String,
    pub title: String,
    /// Where it links to, if anywhere.
    pub href: Option<String>,
    /// The port that the page is to link to on the browser's own host.
    pub browser_port: Option<u16>,
}

/// The host port of a published port.
pub open spec fn public_of(p: model::Port) -> nat {
    match p.public {
        Some(n) => n as nat,
        None => 0,
    }
}

/// The text of a pill: the host port, with the container port on request.
pub open spec fn pill_label(p: model::Port, full: bool) -> Seq<char> {
    num::dec(public_of(p)) + (if full {
        " → "@ + num::dec(p.private as nat)
    } else {
        Seq::empty()
    }) + suffix(p.proto@)
}

/// The tooltip of a pill.
pub open spec fn pill_title(p: model::Port) -> Seq<char> {
    "host "@ + num::dec(public_of(p)) + " → container "@ + num::dec(p.private as nat) + "/"@
        + p.proto@
}

/// The target of a pill.
pub open spec fn pill_href(p: model::Port, links: LinkMode) -> Option<Seq<char>> {
    match links {
        LinkMode::Off => None,
        LinkMode::Host(h) => Some("http://"@ + h + ":"@ + num::dec(public_of(p))),
        LinkMode::Browser => Some("http://localhost:"@ + num::dec(public_of(p))),
    }
}

/// Whether a pill shows a published port.
pub open spec fn shows(pill: PortPill, p: model::Port, full: bool, links: LinkMode) -> bool {
    &&& pill.label@ == pill_label(p, full)
    &&& pill.title@ == pill_title(p)
    &&& text::opt_view(pill.href) == pill_href(p, links)
    &&& pill.browser_port == (if links is Browser {
        p.public
    } else {
        None
    })
}

/// With links off no pill leads anywhere; otherwise every pill does.
pub proof fn law_off_means_no_links(pill: PortPill, p: model::Port, full: bool, links: LinkMode)
    requires
        shows(pill, p, full, links),
    ensures
        (pill.href is None) == (links is Off),
{
}

/// The pill for a published port. Links to the browser's own host are given a
/// fallback target, and the port for the page to rewrite it with.
pub fn port_link(p: &model::Port, full: bool, links: &PortLinks) -> (r: PortPill)
    requires
        p.public is Some,
    ensures
        shows(r, *p, full, links@),
{
    let public: u16 = match p.public {
        Some(n) => n,
        None => 0,
    };
    let number = num::decimal(public as u64);
    let private = num::decimal(p.private as u64);
    let mut title = "host ".to_owned();
    title.append(number.as_str());
    title.append(" → container ");
    title.append(private.as_str());
    title.append("/");
    title.append(p.proto.as_str());
    let mut label = number.clone();
    if full {
        label.append(" → ");
        label.append(private.as_str());
    }
    label.append(proto_suffix(p.proto.as_str()).as_str());
    proof {
        assert(label@ =~= pill_label(*p, full));
    }
    match links {
        PortLinks::Off => PortPill { label, title, href: None, browser_port: None },
        PortLinks::Host(host) => {
            let mut href = "http://".to_owned();
            href.append(host.as_str());
            href.append(":");
            href.append(number.as_str());
            PortPill { label, title, href: Some(href), browser_port: None }
        },
        PortLinks::Browser => {
            let mut href = "http://localhost:".to_owned();
            href.append(number.as_str());
            PortPill { label, title, href: Some(href), browser_port: Some(public) }
        },
    }
}

/// A pill on the detail page.
#[derive(Debug)]
pub enum Pill {
    /// A published port.
    Published(PortPill),
    /// The label of a port that is reachable inside Docker only.
    Internal(String),
}

/// The label of an internal port.
pub open spec fn internal_label(p: model::Port) -> Seq<char> {
    num::dec(p.private as nat) + suffix(p.proto@)
}

/// All ports of a container, for the detail page, in their order.
pub fn port_pills(ports: &[model::Port], links: &PortLinks) -> (r: Vec<Pill>)
    ensures
        r.len() == ports.len(),
        forall|i: int|
            0 <= i < ports.len() ==> match #[trigger] r[i] {
                Pill::Published(pill) => ports[i].public is Some && shows(
                    pill,
                    ports[i],
                    true,
                    links@,
                ),
                Pill::Internal(label) => ports[i].public is None && label@ == internal_label(
                    ports[i],
                ),
            },
{
    let mut out: Vec<Pill> = Vec::new();
    let mut i: usize = 0;
    while i < ports.len()
        invariant
            i <= ports.len(),
            out.len() == i,
            forall|j: int|
                0 <= j < i ==> match #[trigger] out[j] {
                    Pill::Published(pill) => ports[j].public is Some && shows(
                        pill,
                        ports[j],
                        true,
                        links@,
                    ),
                    Pill::Internal(label) => ports[j].public is None && label@ == internal_label(
                        ports[j],
                    ),
                },
        decreases ports.len() - i,
    {
        let p = &ports[i];
        if p.public.is_some() {
            out.push(Pill::Published(port_link(p, true, links)));
        } else {
            let mut label = num::decimal(p.private as u64);
            label.append(proto_suffix(p.proto.as_str()).as_str());
            out.push(Pill::Internal(label));
        }
        i += 1;
    }
    out
}

/// How many published ports the dense tables show.
pub const SHOWN_PORTS: usize = 2;

/// The published ports among `ports`, in their order.
pub open spec fn published(ports: Seq<model::Port>) -> Seq<model::Port>
    decreases ports.len(),
{
    if ports.len() == 0 {
        Seq::empty()
    } else {
        let before = published(ports.drop_last());
        if ports.last().public is Some {
            before.push(ports.last())
        } else {
            before
        }
    }
}

fn published_ports<'a>(ports: &'a [model::Port]) -> (r: Vec<&'a model::Port>)
    ensures
        r.len() == published(ports@).len(),
        forall|i: int| 0 <= i < r.len() ==> *(#[trigger] r[i]) == published(ports@)[i],
        forall|i: int| 0 <= i < r.len() ==> (#[trigger] r[i]).public is Some,
{
    let mut out: Vec<&'a model::Port> = Vec::new();
    let mut i: usize = 0;
    proof {
        assert(ports@.take(0) =~= Seq::empty());
    }
    while i < ports.len()
        invariant
            i <= ports.len(),
            out.len() == published(ports@.take(i as int)).len(),
            forall|j: int|
                0 <= j < out.len() ==> *(#[trigger] out[j]) == published(ports@.take(i as int))[j],
            forall|j: int| 0 <= j < out.len() ==> (#[trigger] out[j]).public is Some,
        decreases ports.len() - i,
    {
        proof {
            assert(ports@.take(i + 1).drop_last() =~= ports@.take(i as int));
            assert(ports@.take(i + 1).last() == ports@[i as int]);
        }
        if ports[i].public.is_some() {
            out.push(&ports[i]);
        }
        i += 1;
    }
    proof {
        assert(ports@.take(ports.len() as int) =~= ports@);
    }
    out
}

/// The labels of published ports.
pub open spec fn port_labels(ports: Seq<model::Port>) -> Seq<Seq<char>> {
    ports.map_values(|p: model::Port| num::dec(public_of(p)) + suffix(p.proto@))
}

/// The ports behind references.
pub open spec fn deref_ports(ports: Seq<&model::Port>) -> Seq<model::Port> {
    ports.map_values(|p: &model::Port| *p)
}

/// The labels of the published ports among `rest`, for the tooltip of what a
/// dense table leaves out.
pub fn overflow_list(rest: &[&model::Port]) -> (r: String)
    ensures
        r@ == text::joined(port_labels(published(deref_ports(rest@))), "  "@),
{
    let ghost all = deref_ports(rest@);
    let mut labels: Vec<String> = Vec::new();
    let mut i: usize = 0;
    proof {
        assert(all.take(0) =~= Seq::empty());
        assert(text::string_views(labels@) =~= port_labels(published(all.take(0))));
    }
    while i < rest.len()
        invariant
            i <= rest.len(),
            all == deref_ports(rest@),
            text::string_views(labels@) == port_labels(published(all.take(i as int))),
        decreases rest.len() - i,
    {
        let ghost before = text::string_views(labels@);
        proof {
            assert(all.take(i + 1).drop_last() =~= all.take(i as int));
            assert(all.take(i + 1).last() == *rest[i as int]);
        }
        if let Some(public) = rest[i].public {
            let mut label = num::decimal(public as u64);
            label.append(proto_suffix(rest[i].proto.as_str()).as_str());
            labels.push(label);
            proof {
                assert(text::string_views(labels@) =~= before.push(label@));
                assert(port_labels(published(all.take(i + 1))) =~= before.push(label@));
            }
        }
        i += 1;
    }
    proof {
        assert(all.take(rest.len() as int) =~= all);
    }
    text::join(&labels, "  ")
}

/// Published ports stay when the published ones are picked.
proof fn lemma_published_all(ports: Seq<model::Port>)
    requires
        forall|i: int| 0 <= i < ports.len() ==> (#[trigger] ports[i]).public is Some,
    ensures
        published(ports) == ports,
    decreases ports.len(),
{
    if ports.len() > 0 {
        assert forall|i: int| 0 <= i < ports.drop_last().len() implies (
        #[trigger] ports.drop_last()[i]).public is Some by {
            assert(ports.drop_last()[i] == ports[i]);
        }
        lemma_published_all(ports.drop_last());
        assert(ports.last().public is Some);
        assert(ports.drop_last().push(ports.last()) =~= ports);
    } else {
        assert(ports =~= Seq::empty());
    }
}

/// The published ports of a container in a dense table.
#[derive(Debug)]
pub struct PortChips {
    /// The first few.
    pub shown: Vec<PortPill>,
    /// How many more there are.
    pub more: usize,
    /// The labels of those.
    pub more_list: String,
}

/// The published ports of a container in a dense table: the first few as links,
/// the rest collapsed. Internal ports are left out.
pub fn port_chips(ports: &[model::Port], links: &PortLinks) -> (r: PortChips)
    ensures
        ({
            let all = published(ports@);
            let n = if all.len() < SHOWN_PORTS {
                all.len() as int
            } else {
                SHOWN_PORTS as int
            };
            &&& r.shown.len() == n
            &&& forall|i: int| 0 <= i < n ==> shows(#[trigger] r.shown[i], all[i], false, links@)
            &&& r.more == all.len() - n
            &&& r.more_list@ == text::joined(port_labels(all.skip(n)), "  "@)
        }),
        r.shown.len() <= 2,
        r.more > 0 ==> r.shown.len() == 2,
{
    let all = published_ports(ports);
    let n: usize = if all.len() < SHOWN_PORTS {
        all.len()
    } else {
        SHOWN_PORTS
    };
    let mut shown: Vec<PortPill> = Vec::new();
    let mut i: usize = 0;
    while i < n
        invariant
            i <= n <= all.len(),
            shown.len() == i,
            forall|j: int| 0 <= j < all.len() ==> (#[trigger] all[j]).public is Some,
            forall|j: int| 0 <= j < i ==> shows(#[trigger] shown[j], *all[j], false, links@),
        decreases n - i,
    {
        shown.push(port_link(all[i], false, links));
        i += 1;
    }
    let mut rest: Vec<&model::Port> = Vec::new();
    while i < all.len()
        invariant
            n <= i <= all.len(),
            rest.len() == i - n,
            forall|j: int| 0 <= j < all.len() ==> (#[trigger] all[j]).public is Some,
            forall|j: int| 0 <= j < rest.len() ==> *(#[trigger] rest[j]) == *all[n + j],
        decreases all.len() - i,
    {
        rest.push(all[i]);
        i += 1;
    }
    proof {
        assert(deref_ports(rest@) =~= published(ports@).skip(n as int));
        assert forall|j: int| 0 <= j < rest.len() implies (#[trigger] deref_ports(
            rest@,
        )[j]).public is Some by {
            assert(*rest[j] == *all[n + j]);
        }
        lemma_published_all(deref_ports(rest@));
    }
    let more_list = overflow_list(rest.as_slice());
    PortChips { shown, more: rest.len(), more_list }
}

// ---------------------------------------------------------------------------
// Laws
// ---------------------------------------------------------------------------

/// The host of a network endpoint stands between its scheme and the port, the path
/// or the end; that of an IPv6 address stands in brackets. Any other endpoint,
/// such as a socket, has none.
pub proof fn law_endpoint_hosts_follow_the_scheme(
    scheme: Seq<char>,
    host: Seq<char>,
    rest: Seq<char>,
    url: Seq<char>,
)
    requires
        scheme == "tcp://"@ || scheme == "http://"@ || scheme == "https://"@,
    ensures
        host.len() > 0 && host[0] != '[' && !host.contains('/') && !host.contains(':') && (
        rest.len() == 0 || rest[0] == ':' || rest[0] == '/') ==> host_of(scheme + host + rest)
            == Some(host),
        !host.contains(']') ==> host_of(scheme + "["@ + host + "]"@ + rest) == Some(host),
        !"tcp://"@.is_prefix_of(url) && !"http://"@.is_prefix_of(url) && !"https://"@.is_prefix_of(
            url,
        ) ==> host_of(url) is None,
{
    if host.len() > 0 && host[0] != '[' && !host.contains('/') && !host.contains(':') && (
    rest.len() == 0 || rest[0] == ':' || rest[0] == '/') {
        lemma_named_host(scheme, host, rest);
    }
    if !host.contains(']') {
        lemma_bracketed_host(scheme, host, rest);
    }
}

proof fn lemma_named_host(scheme: Seq<char>, host: Seq<char>, rest: Seq<char>)
    requires
        scheme == "tcp://"@ || scheme == "http://"@ || scheme == "https://"@,
        host.len() > 0,
        host[0] != '[',
        !host.contains('/'),
        !host.contains(':'),
        rest.len() == 0 || rest[0] == ':' || rest[0] == '/',
    ensures
        host_of(scheme + host + rest) == Some(host),
{
    let tail = host + rest;
    lemma_after_scheme(scheme, tail);
    assert(scheme + host + rest =~= scheme + tail);
    assert(tail[0] == host[0]);
    assert forall|j: int| 0 <= j < host.len() implies in_authority()(#[trigger] tail[j]) by {
        assert(host.contains(host[j]));
        assert(tail[j] == host[j]);
    }
    if rest.len() > 0 {
        assert(tail[host.len() as int] == rest[0]);
    }
    text::lemma_lead_is(tail, in_authority(), host.len() as int);
    assert(tail.take(host.len() as int) =~= host);
}

proof fn lemma_bracketed_host(scheme: Seq<char>, host: Seq<char>, rest: Seq<char>)
    requires
        scheme == "tcp://"@ || scheme == "http://"@ || scheme == "https://"@,
        !host.contains(']'),
    ensures
        host_of(scheme + "["@ + host + "]"@ + rest) == Some(host),
{
    let boxed = seq!['['] + (host.push(']') + rest);
    lemma_after_scheme(scheme, boxed);
    assert(scheme + "["@ + host + "]"@ + rest =~= scheme + boxed) by {
        reveal_strlit("[");
        reveal_strlit("]");
    }
    assert(boxed[0] == '[');
    let inner = boxed.skip(1);
    assert(inner =~= host.push(']') + rest);
    text::lemma_cut_first_at(host, ']', rest);
    text::law_cuts_split_at_the_character(inner, ']');
}

proof fn lemma_after_scheme(scheme: Seq<char>, tail: Seq<char>)
    requires
        scheme == "tcp://"@ || scheme == "http://"@ || scheme == "https://"@,
    ensures
        after_scheme(scheme + tail) == Some(tail),
{
    reveal_strlit("tcp://");
    reveal_strlit("http://");
    reveal_strlit("https://");
    let url = scheme + tail;
    assert(url.skip(scheme.len() as int) =~= tail);
    assert(scheme.is_prefix_of(url));
    assert(url[0] == scheme[0]);
    assert(url[4] == scheme[4]);
    if scheme != "tcp://"@ {
        assert(!"tcp://"@.is_prefix_of(url)) by {
            assert("tcp://"@[0] == 't');
        }
    }
    if scheme == "https://"@ {
        assert(!"http://"@.is_prefix_of(url)) by {
            assert("http://"@[4] == ':');
        }
    }
}

/// How ports link out: `off`, `none` in any case and a dash switch links off; any
/// other public host is linked to, without the white space around it; without one
/// the endpoint's host is, and for a socket the browser's own.
pub proof fn law_link_modes(public_host: Seq<char>, url: Seq<char>)
    ensures
        text::trimmed(public_host).len() > 0 ==> link_mode(Some(public_host), url) == (
        if text::lowered(text::trimmed(public_host)) == text::lowered("off"@) || text::lowered(
            text::trimmed(public_host),
        ) == text::lowered("none"@) || text::trimmed(public_host) == "-"@ {
            LinkMode::Off
        } else {
            LinkMode::Host(text::trimmed(public_host))
        }),
        text::trimmed(public_host).len() == 0 ==> link_mode(Some(public_host), url) == link_mode(
            None,
            url,
        ),
        host_of(url) is None ==> link_mode(None, url) == LinkMode::Browser,
        host_of(url) matches Some(h) ==> link_mode(None, url) == LinkMode::Host(h),
{
}

/// A pill names the host port, and in full the container port too; it carries the
/// protocol unless that is TCP; and it leads to the host port on the host that
/// ports link to.
pub proof fn law_pills_name_and_lead_to_the_host_port(
    pill: PortPill,
    p: model::Port,
    full: bool,
    links: LinkMode,
    n: u16,
)
    requires
        shows(pill, p, full, links),
        p.public == Some(n),
    ensures
        p.proto@ == "tcp"@ && !full ==> pill.label@ == num::dec(n as nat),
        p.proto@ == "tcp"@ && full ==> pill.label@ == num::dec(n as nat) + " → "@ + num::dec(
            p.private as nat,
        ),
        p.proto@ != "tcp"@ && !full ==> pill.label@ == num::dec(n as nat) + "/"@ + p.proto@,
        p.proto@ != "tcp"@ && full ==> pill.label@ == num::dec(n as nat) + " → "@ + num::dec(
            p.private as nat,
        ) + "/"@ + p.proto@,
        pill.title@ == "host "@ + num::dec(n as nat) + " → container "@ + num::dec(
            p.private as nat,
        ) + "/"@ + p.proto@,
        links matches LinkMode::Host(h) ==> text::opt_view(pill.href) == Some(
            "http://"@ + h + ":"@ + num::dec(n as nat),
        ) && pill.browser_port is None,
        links is Browser ==> text::opt_view(pill.href) == Some(
            "http://localhost:"@ + num::dec(n as nat),
        ) && pill.browser_port == Some(n),
        links is Off ==> pill.href is None && pill.browser_port is None,
{
    let d = num::dec(n as nat);
    let e = num::dec(p.private as nat);
    assert(d + Seq::<char>::empty() + Seq::<char>::empty() =~= d);
    assert(d + Seq::<char>::empty() + ("/"@ + p.proto@) =~= d + "/"@ + p.proto@);
    assert(d + (" → "@ + e) + Seq::<char>::empty() =~= d + " → "@ + e);
    assert(d + (" → "@ + e) + ("/"@ + p.proto@) =~= d + " → "@ + e + "/"@ + p.proto@);
}

/// The published ports are those with a host port, in their order.
pub proof fn law_published_ports_have_a_host_port(ports: Seq<model::Port>)
    ensures
        published(ports) == ports.filter(|p: model::Port| p.public is Some),
    decreases ports.len(),
{
    reveal(Seq::filter);
    if ports.len() > 0 {
        law_published_ports_have_a_host_port(ports.drop_last());
    }
}

/// What the tooltip lists of a published port is its host port, and its protocol
/// unless that is TCP.
pub proof fn law_listed_labels_name_the_host_port(ports: Seq<model::Port>, i: int, n: u16)
    requires
        0 <= i < ports.len(),
        ports[i].public == Some(n),
    ensures
        port_labels(ports).len() == ports.len(),
        port_labels(ports)[i] == (if ports[i].proto@ == "tcp"@ {
            num::dec(n as nat)
        } else {
            num::dec(n as nat) + "/"@ + ports[i].proto@
        }),
{
    let d = num::dec(n as nat);
    assert(d + Seq::<char>::empty() =~= d);
    assert(d + ("/"@ + ports[i].proto@) =~= d + "/"@ + ports[i].proto@);
}

/// The label of an internal port is its container port, and its protocol unless
/// that is TCP.
pub proof fn law_internal_labels_name_the_container_port(p: model::Port)
    ensures
        p.proto@ == "tcp"@ ==> internal_label(p) == num::dec(p.private as nat),
        p.proto@ != "tcp"@ ==> internal_label(p) == num::dec(p.private as nat) + "/"@ + p.proto@,
{
    let d = num::dec(p.private as nat);
    assert(d + Seq::<char>::empty() =~= d);
    assert(d + ("/"@ + p.proto@) =~= d + "/"@ + p.proto@);
}

} // verus!
