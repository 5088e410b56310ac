//! What the pages of a host link to, listen to and offer.

use vstd::prelude::*;
use vstd::string::*;

use crate::{config, docker, history, lifecycle, model, page, text};

verus! {

/// The address of a host.
pub open spec fn host_path(host: Seq<char>) -> Seq<char> {
    "/host/"@ + host
}

/// The address of a host.
pub fn host_url(host: &str) -> (r: String)
    ensures
        r@ == host_path(host@),
{
    let mut out = "/host/".to_owned();
    out.append(host);
    out
}

fn below_host(host: &str, segment: &str, name: &str) -> (r: String)
    ensures
        r@ == host_path(host@) + segment@ + name@,
{
    let mut out = host_url(host);
    out.append(segment);
    out.append(name);
    out
}

/// The address of a container's page.
pub fn container_url(host: &str, id: &str) -> (r: String)
    ensures
        r@ == host_path(host@) + "/container/"@ + id@,
{
    below_host(host, "/container/", id)
}

/// The address of a stack's page.
pub fn stack_url(host: &str, name: &str) -> (r: String)
    ensures
        r@ == host_path(host@) + "/stack/"@ + name@,
{
    below_host(host, "/stack/", name)
}

// ---------------------------------------------------------------------------
// Page frames
// ---------------------------------------------------------------------------

/// What a page is about.
#[derive(Debug, Clone, Copy)]
pub enum Subject<'a> {
    /// The host as a whole; also what a page says of something not found.
    Dashboard,
    /// The container with this id.
    Container(&'a str),
    /// The stack of this name.
    Stack(&'a str),
}

/// What a page listens to and loads from.
#[derive(Debug)]
pub struct PageFrame {
    /// Where the live events come from.
    pub live_url: String,
    /// Where gaps in the charts are filled from; empty on a page without charts.
    pub backfill_url: String,
    /// Where the history of the charts comes from.
    pub history_url: String,
    /// Whether the page has a terminal.
    pub terminal: bool,
}

/// Where the live events of a page come from.
pub open spec fn live_path(host: Seq<char>, subject: Subject) -> Seq<char> {
    match subject {
        Subject::Dashboard => host_path(host) + "/events"@,
        Subject::Container(id) => host_path(host) + "/events/container/"@ + id@,
        Subject::Stack(name) => host_path(host) + "/events/stack/"@ + name@,
    }
}

/// Where gaps in the charts of a page are filled from.
pub open spec fn backfill_path(host: Seq<char>, subject: Subject) -> Seq<char> {
    match subject {
        Subject::Dashboard => ""@,
        Subject::Container(id) => host_path(host) + "/api/metrics/container/"@ + id@,
        Subject::Stack(name) => host_path(host) + "/api/metrics/stack/"@ + name@,
    }
}

/// What a page listens to and loads from.
pub fn page_frame(host: &str, subject: Subject) -> (r: PageFrame)
    ensures
        r.live_url@ == live_path(host@, subject),
        r.backfill_url@ == backfill_path(host@, subject),
        r.history_url@ == history::mirrored(backfill_path(host@, subject)),
        r.terminal == (subject is Container),
{
    let (live_url, backfill_url, terminal) = match subject {
        Subject::Dashboard => (below_host(host, "/events", ""), "".to_owned(), false),
        Subject::Container(id) => (
            below_host(host, "/events/container/", id),
            below_host(host, "/api/metrics/container/", id),
            true,
        ),
        Subject::Stack(name) => (
            below_host(host, "/events/stack/", name),
            below_host(host, "/api/metrics/stack/", name),
            false,
        ),
    };
    let history_url = history::history_url(backfill_url.as_str());
    proof {
        reveal_strlit("");
        assert(host_path(host@) + "/events"@ + ""@ =~= host_path(host@) + "/events"@);
    }
    PageFrame { live_url, backfill_url, history_url, terminal }
}

/// Where the history of the charts of a page comes from.
pub open spec fn history_path(host: Seq<char>, subject: Subject) -> Seq<char> {
    match subject {
        Subject::Dashboard => ""@,
        Subject::Container(id) => host_path(host) + "/api/history/container/"@ + id@,
        Subject::Stack(name) => host_path(host) + "/api/history/stack/"@ + name@,
    }
}

/// A separator that opens with a slash and `api` does not stand before the first
/// slash behind a host.
proof fn lemma_no_separator(url: Seq<char>, sep: Seq<char>, p: int, j: int)
    requires
        0 <= j < p,
        6 < p < url.len() - 1,
        url[1] == 'h',
        forall|k: int| 0 < k < p && k != 5 ==> #[trigger] url[k] != '/',
        url[p] == '/',
        url[p + 1] == 'a',
        sep.len() > 5,
        sep[0] == '/',
        sep[1] == 'a',
        sep[2] == 'p',
        sep[3] == 'i',
        sep[4] == '/',
        sep[5] != 'a',
    ensures
        !text::stands_at(url, sep, j),
{
    if text::stands_at(url, sep, j) {
        let w = url.subrange(j, j + sep.len());
        assert(w[0] == url[j]);
        assert(w[1] == url[j + 1]);
        assert(j == 5);
        assert(w[2] == url[7]);
        assert(w[3] == url[8]);
        assert(w[4] == url[9]);
        assert(w[5] == url[10]);
        assert(p == 9);
    }
}

/// The separator stands first right behind the host.
proof fn lemma_first_separator(pre: Seq<char>, host: Seq<char>, sep: Seq<char>, rest: Seq<char>)
    requires
        config::is_slug(host),
        pre.len() == 6,
        pre[1] == 'h',
        forall|k: int| 0 < k < 5 ==> #[trigger] pre[k] != '/',
        sep.len() > 5,
        sep[0] == '/',
        sep[1] == 'a',
        sep[2] == 'p',
        sep[3] == 'i',
        sep[4] == '/',
        sep[5] != 'a',
    ensures
        text::find_at(pre + host + sep + rest, sep) == Some(6 + host.len() as int),
{
    let url = pre + host + sep + rest;
    let p = 6 + host.len() as int;
    assert(url.subrange(p, p + sep.len()) =~= sep);
    assert forall|k: int| 0 < k < p && k != 5 implies #[trigger] url[k] != '/' by {
        if k < 6 {
            assert(url[k] == pre[k]);
        } else {
            assert(url[k] == host[k - 6]);
            assert(config::slug_char(host[k - 6]));
        }
    }
    assert(url[1] == pre[1]);
    assert(url[p] == sep[0]);
    assert(url[p + 1] == sep[1]);
    assert(text::stands_at(url, sep, p));
    assert forall|j: int| 0 <= j < p implies !text::stands_at(url, sep, j) by {
        lemma_no_separator(url, sep, p, j);
    }
    text::lemma_find_at_is(url, sep, p);
}

proof fn lemma_mirrored(host: Seq<char>, rest: Seq<char>)
    requires
        config::is_slug(host),
    ensures
        history::mirrored(host_path(host) + "/api/metrics/"@ + rest) == host_path(host)
            + "/api/history/"@ + rest,
{
    let sep = "/api/metrics/"@;
    let url = host_path(host) + sep + rest;
    assert(text::find_at(url, sep) == Some(6 + host.len() as int) && "/host/"@.len() == 6) by {
        reveal_strlit("/host/");
        reveal_strlit("/api/metrics/");
        lemma_first_separator("/host/"@, host, sep, rest);
    }
    assert(url.take(6 + host.len() as int) =~= host_path(host));
    assert(url.skip(6 + host.len() as int + sep.len()) =~= rest);
}

/// The history address of a page mirrors its backfill address: the same page,
/// the same path shape.
pub proof fn law_history_mirrors_backfill(host: Seq<char>, subject: Subject)
    requires
        config::is_slug(host),
    ensures
        history::mirrored(backfill_path(host, subject)) == history_path(host, subject),
{
    reveal_strlit("/api/metrics/");
    reveal_strlit("/api/history/");
    match subject {
        Subject::Dashboard => {
            reveal_strlit("");
            text::lemma_find_at(""@, "/api/metrics/"@);
            assert("/api/metrics/"@.len() == 13);
        },
        Subject::Container(id) => {
            reveal_strlit("container/");
            reveal_strlit("/api/metrics/container/");
            reveal_strlit("/api/history/container/");
            let rest = "container/"@ + id@;
            lemma_mirrored(host, rest);
            assert("/api/metrics/container/"@ =~= "/api/metrics/"@ + "container/"@);
            assert("/api/history/container/"@ =~= "/api/history/"@ + "container/"@);
            assert(backfill_path(host, subject) =~= host_path(host) + "/api/metrics/"@ + rest);
            assert(history_path(host, subject) =~= host_path(host) + "/api/history/"@ + rest);
        },
        Subject::Stack(name) => {
            reveal_strlit("stack/");
            reveal_strlit("/api/metrics/stack/");
            reveal_strlit("/api/history/stack/");
            let rest = "stack/"@ + name@;
            lemma_mirrored(host, rest);
            assert("/api/metrics/stack/"@ =~= "/api/metrics/"@ + "stack/"@);
            assert("/api/history/stack/"@ =~= "/api/history/"@ + "stack/"@);
            assert(backfill_path(host, subject) =~= host_path(host) + "/api/metrics/"@ + rest);
            assert(history_path(host, subject) =~= host_path(host) + "/api/history/"@ + rest);
        },
    }
}

// ---------------------------------------------------------------------------
// Action buttons
// ---------------------------------------------------------------------------

/// A button that applies an action.
#[derive(Debug)]
pub struct Button {
    pub action: lifecycle::Action,
    /// Where pressing it posts to.
    pub url: String,
    /// What to confirm first, if anything.
    pub confirm: Option<String>,
    pub title: &'static str,
    pub glyph: &'static str,
}

/// Whether a button is this one.
pub open spec fn is_button(
    b: Button,
    action: lifecycle::Action,
    target: Seq<char>,
    confirm: Option<Seq<char>>,
    title: Seq<char>,
    glyph: Seq<char>,
) -> bool {
    &&& b.action == action
    &&& b.url@ == target + "/"@ + lifecycle::action_name(action)
    &&& text::opt_view(b.confirm) == confirm
    &&& b.title@ == title
    &&& b.glyph@ == glyph
}

fn button(
    action: lifecycle::Action,
    target: &str,
    confirm: Option<String>,
    title: &'static str,
    glyph: &'static str,
) -> (r: Button)
    ensures
        is_button(r, action, target@, text::opt_view(confirm), title@, glyph@),
{
    let mut url = target.to_owned();
    url.append("/");
    url.append(action.as_str());
    Button { action, url, confirm, title, glyph }
}

/// The buttons of a container: start, restart, stop. What interrupts it asks
/// first.
pub fn action_buttons(host: &str, id: &str) -> (r: Vec<Button>)
    ensures
        r.len() == 3,
        ({
            let target = host_path(host@) + "/api/container/"@ + id@;
            &&& is_button(r[0], lifecycle::Action::Start, target, None, "Start"@, "▶"@)
            &&& is_button(
                r[1],
                lifecycle::Action::Restart,
                target,
                Some("Restart this container?"@),
                "Restart"@,
                "⟳"@,
            )
            &&& is_button(
                r[2],
                lifecycle::Action::Stop,
                target,
                Some("Stop this container?"@),
                "Stop"@,
                "■"@,
            )
        }),
{
    let target = below_host(host, "/api/container/", id);
    let t = target.as_str();
    let mut out: Vec<Button> = Vec::new();
    out.push(button(lifecycle::Action::Start, t, None, "Start", "▶"));
    out.push(
        button(
            lifecycle::Action::Restart,
            t,
            Some("Restart this container?".to_owned()),
            "Restart",
            "⟳",
        ),
    );
    out.push(
        button(lifecycle::Action::Stop, t, Some("Stop this container?".to_owned()), "Stop", "■"),
    );
    out
}

fn question(verb: &str, name: &str) -> (r: String)
    ensures
        r@ == verb@ + " all containers in "@ + name@ + "?"@,
{
    let mut out = verb.to_owned();
    out.append(" all containers in ");
    out.append(name);
    out.append("?");
    out
}

/// The buttons of a stack: start, restart, stop. What interrupts it asks first.
pub fn stack_action_buttons(host: &str, name: &str) -> (r: Vec<Button>)
    ensures
        r.len() == 3,
        ({
            let target = host_path(host@) + "/api/stack/"@ + name@;
            &&& is_button(r[0], lifecycle::Action::Start, target, None, "Start all"@, "▶"@)
            &&& is_button(
                r[1],
                lifecycle::Action::Restart,
                target,
                Some("Restart"@ + " all containers in "@ + name@ + "?"@),
                "Restart all"@,
                "⟳"@,
            )
            &&& is_button(
                r[2],
                lifecycle::Action::Stop,
                target,
                Some("Stop"@ + " all containers in "@ + name@ + "?"@),
                "Stop all"@,
                "■"@,
            )
        }),
{
    let target = below_host(host, "/api/stack/", name);
    let t = target.as_str();
    let mut out: Vec<Button> = Vec::new();
    out.push(button(lifecycle::Action::Start, t, None, "Start all", "▶"));
    out.push(
        button(
            lifecycle::Action::Restart,
            t,
            Some(question("Restart", name)),
            "Restart all",
            "⟳",
        ),
    );
    out.push(
        button(lifecycle::Action::Stop, t, Some(question("Stop", name)), "Stop all", "■"),
    );
    out
}

// ---------------------------------------------------------------------------
// Facts and hosts
// ---------------------------------------------------------------------------

/// A labelled fact about a container.
#[derive(Debug)]
pub struct Fact {
    pub label: &'static str,
    pub shown: String,
}

/// A fact as plain values.
pub open spec fn fact_view(f: Fact) -> (Seq<char>, Seq<char>) {
    (f.label@, f.shown@)
}

/// The facts about a container: its image, its short id, its status line and
/// its memory limit.
pub fn container_facts(c: &model::ContainerMetrics) -> (r: Vec<Fact>)
    ensures
        r.len() == 4,
        fact_view(r[0]) == ("Image"@, text::after_last(c.image@, '/')),
        fact_view(r[1]) == ("Container ID"@, docker::short_id(c.id@)),
        fact_view(r[2]) == ("Status"@, c.status@),
        fact_view(r[3]) == ("Memory limit"@, match c.mem_limit {
            Some(n) => page::bytes_text(n as nat),
            None => "—"@,
        }),
{
    let limit = match c.mem_limit {
        Some(n) => page::fmt_bytes(n),
        None => "—".to_owned(),
    };
    let mut out: Vec<Fact> = Vec::new();
    out.push(Fact { label: "Image", shown: page::short_image(c.image.as_str()).to_owned() });
    out.push(Fact { label: "Container ID", shown: docker::shorten_id(c.id.as_str()) });
    out.push(Fact { label: "Status", shown: c.status.clone() });
    out.push(Fact { label: "Memory limit", shown: limit });
    out
}

/// An entry of the host switcher.
#[derive(Debug)]
pub struct HostTab {
    pub name: String,
    /// Where it leads; the current host leads nowhere.
    pub href: Option<String>,
}

/// Whether a tab is that of a host.
pub open spec fn is_tab(t: HostTab, host: Seq<char>, current: Seq<char>) -> bool {
    &&& t.name@ == host
    &&& text::opt_view(t.href) == (if host == current {
        None
    } else {
        Some(host_path(host))
    })
}

/// The host switcher: one tab per host, or none where there is nothing to
/// switch between.
pub fn host_switch(current: &str, hosts: &[String]) -> (r: Vec<HostTab>)
    ensures
        r.len() == (if hosts.len() > 1 {
            hosts.len()
        } else {
            0
        }),
        forall|i: int| 0 <= i < r.len() ==> is_tab(#[trigger] r[i], hosts[i]@, current@),
{
    let mut out: Vec<HostTab> = Vec::new();
    if hosts.len() <= 1 {
        return out;
    }
    let mut i: usize = 0;
    while i < hosts.len()
        invariant
            i <= hosts.len(),
            out.len() == i,
            forall|j: int| 0 <= j < i ==> is_tab(#[trigger] out[j], hosts[j]@, current@),
        decreases hosts.len() - i,
    {
        let name = hosts[i].as_str();
        let href = if text::same(name, current) {
            None
        } else {
            Some(host_url(name))
        };
        out.push(HostTab { name: name.to_owned(), href });
        i += 1;
    }
    out
}

// ---------------------------------------------------------------------------
// Laws
// ---------------------------------------------------------------------------

/// Every page of a host listens to events of its own: those of the host, of the
/// container or of the stack, all below the address of the host.
pub proof fn law_pages_listen_to_their_own_events(host: Seq<char>, a: Subject, b: Subject)
    ensures
        ("/host/"@ + host + "/events"@).is_prefix_of(live_path(host, a)),
        a is Dashboard ==> live_path(host, a) == "/host/"@ + host + "/events"@,
        a matches Subject::Container(id) ==> live_path(host, a) == "/host/"@ + host
            + "/events/container/"@ + id@,
        a matches Subject::Stack(name) ==> live_path(host, a) == "/host/"@ + host
            + "/events/stack/"@ + name@,
        live_path(host, a) == live_path(host, b) ==> match (a, b) {
            (Subject::Dashboard, Subject::Dashboard) => true,
            (Subject::Container(x), Subject::Container(y)) => x@ == y@,
            (Subject::Stack(x), Subject::Stack(y)) => x@ == y@,
            _ => false,
        },
{
    let base = "/host/"@ + host;
    reveal_strlit("/events");
    reveal_strlit("/events/container/");
    reveal_strlit("/events/stack/");
    assert(base + "/events"@ =~= live_path(host, Subject::Dashboard));
    lemma_live_starts(host, a);
    lemma_live_starts(host, b);
    if live_path(host, a) == live_path(host, b) {
        match (a, b) {
            (Subject::Container(x), Subject::Container(y)) => {
                lemma_same_tail(base + "/events/container/"@, x@, y@);
            },
            (Subject::Stack(x), Subject::Stack(y)) => {
                lemma_same_tail(base + "/events/stack/"@, x@, y@);
            },
            (Subject::Container(x), Subject::Stack(y)) => {
                let n = base.len() as int;
                assert(live_path(host, a)[n + 8] == 'c');
                assert(live_path(host, b)[n + 8] == 's');
            },
            (Subject::Stack(x), Subject::Container(y)) => {
                let n = base.len() as int;
                assert(live_path(host, a)[n + 8] == 's');
                assert(live_path(host, b)[n + 8] == 'c');
            },
            _ => {},
        }
    }
}

proof fn lemma_live_starts(host: Seq<char>, subject: Subject)
    ensures
        ("/host/"@ + host + "/events"@).is_prefix_of(live_path(host, subject)),
        !(subject is Dashboard) ==> live_path(host, subject).len() > ("/host/"@ + host
            + "/events"@).len(),
{
    reveal_strlit("/events");
    reveal_strlit("/events/container/");
    reveal_strlit("/events/stack/");
    let base = "/host/"@ + host;
    let path = live_path(host, subject);
    let head = base + "/events"@;
    assert forall|i: int| 0 <= i < head.len() implies head[i] == path[i] by {}
}

proof fn lemma_same_tail(head: Seq<char>, x: Seq<char>, y: Seq<char>)
    requires
        head + x == head + y,
    ensures
        x == y,
{
    assert(x =~= (head + x).skip(head.len() as int));
    assert(y =~= (head + y).skip(head.len() as int));
}

/// A page fills gaps from the metrics of what it shows; a page without charts has
/// nowhere to fill them from.
pub proof fn law_gaps_are_filled_from_the_shown(host: Seq<char>, subject: Subject)
    ensures
        subject is Dashboard ==> backfill_path(host, subject).len() == 0,
        subject matches Subject::Container(id) ==> backfill_path(host, subject) == "/host/"@ + host
            + "/api/metrics/container/"@ + id@,
        subject matches Subject::Stack(name) ==> backfill_path(host, subject) == "/host/"@ + host
            + "/api/metrics/stack/"@ + name@,
{
    reveal_strlit("");
}

/// A button posts to its target, under the name from which its action is parsed.
pub proof fn law_buttons_post_their_action(
    b: Button,
    action: lifecycle::Action,
    target: Seq<char>,
    confirm: Option<Seq<char>>,
    title: Seq<char>,
    glyph: Seq<char>,
)
    requires
        is_button(b, action, target, confirm, title, glyph),
    ensures
        b.action == action,
        exists|name: Seq<char>| #[trigger]
            (target + "/"@ + name) == b.url@ && lifecycle::action_named(name) == Some(action),
        action is Start ==> b.url@ == target + "/"@ + "start"@,
        action is Stop ==> b.url@ == target + "/"@ + "stop"@,
        action is Restart ==> b.url@ == target + "/"@ + "restart"@,
        text::opt_view(b.confirm) == confirm,
        b.title@ == title,
        b.glyph@ == glyph,
{
    lifecycle::law_actions_parse_from_their_names(lifecycle::action_name(action), action);
    assert(target + "/"@ + lifecycle::action_name(action) == b.url@);
}

/// In the host switcher every host but the current one leads to its own page.
pub proof fn law_switcher_leads_to_the_others(t: HostTab, host: Seq<char>, current: Seq<char>)
    requires
        is_tab(t, host, current),
    ensures
        t.name@ == host,
        (t.href is None) == (host == current),
        host != current ==> text::opt_view(t.href) == Some("/host/"@ + host),
{
}

} // verus!
