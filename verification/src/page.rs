//! What the pages show: tallies, groups, labels and figures.

use vstd::prelude::*;
use vstd::string::*;

use crate::{model, num, order, reading, store, text};

verus! {

// ---------------------------------------------------------------------------
// Names
// ---------------------------------------------------------------------------

/// The name of a state, which is both its label and its style class.
pub open spec fn state_text(state: model::ContainerState) -> Seq<char> {
    match state {
        model::ContainerState::Running => "running"@,
        model::ContainerState::Exited => "exited"@,
        model::ContainerState::Dead => "dead"@,
        model::ContainerState::Paused => "paused"@,
        model::ContainerState::Restarting => "restarting"@,
        model::ContainerState::Stopping => "stopping"@,
        model::ContainerState::Removing => "removing"@,
        model::ContainerState::Created => "created"@,
        model::ContainerState::Unknown => "unknown"@,
    }
}

/// The name of a state.
pub fn state_name(state: model::ContainerState) -> (r: &'static str)
    ensures
        r@ == state_text(state),
{
    match state {
        model::ContainerState::Running => "running",
        model::ContainerState::Exited => "exited",
        model::ContainerState::Dead => "dead",
        model::ContainerState::Paused => "paused",
        model::ContainerState::Restarting => "restarting",
        model::ContainerState::Stopping => "stopping",
        model::ContainerState::Removing => "removing",
        model::ContainerState::Created => "created",
        model::ContainerState::Unknown => "unknown",
    }
}

/// The style class and the label of a health marker; none without a check.
pub fn health_marker(health: model::HealthState) -> (r: Option<(&'static str, &'static str)>)
    ensures
        match health {
            model::HealthState::Healthy => r matches Some((c, l)) && c@ == "healthy"@ && l@
                == "● healthy"@,
            model::HealthState::Unhealthy => r matches Some((c, l)) && c@ == "unhealthy"@ && l@
                == "● unhealthy"@,
            model::HealthState::Starting => r matches Some((c, l)) && c@ == "starting"@ && l@
                == "● starting"@,
            model::HealthState::NoCheck => r is None,
        },
{
    match health {
        model::HealthState::Healthy => Some(("healthy", "● healthy")),
        model::HealthState::Unhealthy => Some(("unhealthy", "● unhealthy")),
        model::HealthState::Starting => Some(("starting", "● starting")),
        model::HealthState::NoCheck => None,
    }
}

/// An image name without its registry and path.
pub fn short_image(image: &str) -> (r: &str)
    ensures
        r@ == text::after_last(image@, '/'),
{
    text::behind(image, '/')
}

/// The content type of an asset, by what follows the last dot of its path.
pub open spec fn content_type(path: Seq<char>) -> Seq<char> {
    let ext = text::after_last(path, '.');
    if ext == "css"@ {
        "text/css; charset=utf-8"@
    } else if ext == "js"@ {
        "text/javascript; charset=utf-8"@
    } else if ext == "svg"@ {
        "image/svg+xml"@
    } else {
        "application/octet-stream"@
    }
}

/// The content type of an asset.
pub fn mime_for(path: &str) -> (r: &'static str)
    ensures
        r@ == content_type(path@),
{
    let ext = text::behind(path, '.');
    if text::same(ext, "css") {
        "text/css; charset=utf-8"
    } else if text::same(ext, "js") {
        "text/javascript; charset=utf-8"
    } else if text::same(ext, "svg") {
        "image/svg+xml"
    } else {
        "application/octet-stream"
    }
}

// ---------------------------------------------------------------------------
// Figures
// ---------------------------------------------------------------------------

/// The unit in which a count is shown: how often 1024 goes into it, up to four
/// times.
pub open spec fn unit_index(value: int) -> int {
    if value < 0x400 {
        0
    } else if value < 0x10_0000 {
        1
    } else if value < 0x4000_0000 {
        2
    } else if value < 0x100_0000_0000 {
        3
    } else {
        4
    }
}

/// The size of a unit, in bytes.
pub open spec fn unit_size(u: int) -> int {
    if u == 0 {
        1
    } else if u == 1 {
        0x400
    } else if u == 2 {
        0x10_0000
    } else if u == 3 {
        0x4000_0000
    } else {
        0x100_0000_0000
    }
}

/// The name of a unit.
pub open spec fn unit_name(u: int) -> Seq<char> {
    if u == 0 {
        "B"@
    } else if u == 1 {
        "KiB"@
    } else if u == 2 {
        "MiB"@
    } else if u == 3 {
        "GiB"@
    } else {
        "TiB"@
    }
}

/// A number of tenths with one decimal.
pub open spec fn one_decimal(tenths: int) -> Seq<char> {
    num::dec((tenths / 10) as nat).push('.').push(num::digit(tenths % 10))
}

/// A byte count with binary units: whole bytes below 1024, else with one decimal,
/// rounded to the nearest tenth, a tie to the even one. A count of more than 53
/// bits is rounded to those first.
pub open spec fn bytes_text(bytes: nat) -> Seq<char> {
    let value = reading::rounded(bytes);
    let u = unit_index(value);
    if u == 0 {
        num::dec(bytes) + " B"@
    } else {
        one_decimal(reading::nearest(10 * value, unit_size(u))) + " "@ + unit_name(u)
    }
}

/// A byte count with binary units.
pub fn fmt_bytes(bytes: u64) -> (r: String)
    ensures
        r@ == bytes_text(bytes as nat),
{
    let value: u128 = reading::round_count(bytes);
    if value < 0x400 {
        let mut out = num::decimal(bytes);
        out.append(" B");
        return out;
    }
    let unit: &'static str;
    let size: u128;
    if value < 0x10_0000 {
        unit = "KiB";
        size = 0x400;
    } else if value < 0x4000_0000 {
        unit = "MiB";
        size = 0x10_0000;
    } else if value < 0x100_0000_0000 {
        unit = "GiB";
        size = 0x4000_0000;
    } else {
        unit = "TiB";
        size = 0x100_0000_0000;
    }
    let scaled: u128 = 10 * value;
    let q: u128 = scaled / size;
    let rest: u128 = scaled % size;
    let low: bool = 2 * rest < size || (2 * rest == size && q % 2 == 0);
    let tenths: u128 = if low {
        q
    } else {
        q + 1
    };
    proof {
        assert(tenths == reading::nearest(10 * value, size as int));
        assert(q <= scaled) by (nonlinear_arith)
            requires
                q == scaled / size,
                size >= 1,
        ;
        assert(tenths / 10 <= u64::MAX) by {
            assert(q <= 0xa_0000_0000_0000_0000u128 / 0x400) by (nonlinear_arith)
                requires
                    q == scaled / size,
                    size >= 0x400,
                    scaled <= 0xa_0000_0000_0000_0000,
            ;
        }
    }
    let mut out = num::decimal((tenths / 10) as u64);
    out.push('.');
    out.push(num::digit_char((tenths % 10) as u8));
    out.append(" ");
    out.append(unit);
    out
}

/// How long ago something was, in the largest unit that fits.
pub open spec fn age_text(secs: nat) -> Seq<char> {
    if secs == 0 {
        "just now"@
    } else if secs < 60 {
        num::dec(secs) + "s ago"@
    } else if secs < 3_600 {
        num::dec(secs / 60) + "m ago"@
    } else if secs < 86_400 {
        num::dec(secs / 3_600) + "h ago"@
    } else {
        num::dec(secs / 86_400) + "d ago"@
    }
}

/// How long ago something was, given the seconds since.
pub fn fmt_age_secs(secs: u64) -> (r: String)
    ensures
        r@ == age_text(secs as nat),
{
    if secs == 0 {
        return "just now".to_owned();
    }
    let (n, unit): (u64, &str) = if secs < 60 {
        (secs, "s ago")
    } else if secs < 3_600 {
        (secs / 60, "m ago")
    } else if secs < 86_400 {
        (secs / 3_600, "h ago")
    } else {
        (secs / 86_400, "d ago")
    };
    let mut out = num::decimal(n);
    out.append(unit);
    out
}

/// How long ago a point in time was; one in the future is now.
pub fn fmt_age(unix_ms: u64, now_ms: u64) -> (r: String)
    ensures
        r@ == age_text(
            (if now_ms < unix_ms {
                0
            } else {
                (now_ms - unix_ms) / 1000
            }) as nat,
        ),
{
    fmt_age_secs(now_ms.saturating_sub(unix_ms) / 1000)
}

// ---------------------------------------------------------------------------
// The tally
// ---------------------------------------------------------------------------

/// How many containers there are, by what their badges say.
#[derive(Debug, Clone, Copy, PartialEq, Eq, Structural)]
pub struct ContainerCounts {
    pub total: usize,
    pub running: usize,
    pub exited: usize,
    /// Neither running nor exited.
    pub other: usize,
    pub unhealthy: usize,
}

/// The predicate "runs".
pub open spec fn runs() -> spec_fn(model::ContainerMetrics) -> bool {
    |c: model::ContainerMetrics| c.state == model::ContainerState::Running
}

/// The predicate "has exited".
pub open spec fn has_exited() -> spec_fn(model::ContainerMetrics) -> bool {
    |c: model::ContainerMetrics| c.state == model::ContainerState::Exited
}

/// The predicate "neither runs nor has exited".
pub open spec fn is_other() -> spec_fn(model::ContainerMetrics) -> bool {
    |c: model::ContainerMetrics|
        c.state != model::ContainerState::Running && c.state != model::ContainerState::Exited
}

/// The predicate "is unhealthy".
pub open spec fn is_unhealthy() -> spec_fn(model::ContainerMetrics) -> bool {
    |c: model::ContainerMetrics| c.health == model::HealthState::Unhealthy
}

impl ContainerCounts {
    /// The tally of containers. Every one either runs, has exited, or is
    /// counted as other.
    pub fn of(containers: &[model::ContainerMetrics]) -> (r: Self)
        ensures
            r.total == containers@.len(),
            r.running == containers@.filter(runs()).len(),
            r.exited == containers@.filter(has_exited()).len(),
            r.other == containers@.filter(is_other()).len(),
            r.unhealthy == containers@.filter(is_unhealthy()).len(),
            r.running + r.exited + r.other == r.total,
            r.unhealthy <= r.total,
            r.running == containers@.filter(
                |c: model::ContainerMetrics| c.state == model::ContainerState::Running,
            ).len(),
            r.exited == containers@.filter(
                |c: model::ContainerMetrics| c.state == model::ContainerState::Exited,
            ).len(),
            r.unhealthy == containers@.filter(
                |c: model::ContainerMetrics| c.health == model::HealthState::Unhealthy,
            ).len(),
    {
        let mut counts = ContainerCounts {
            total: containers.len(),
            running: 0,
            exited: 0,
            other: 0,
            unhealthy: 0,
        };
        let mut i: usize = 0;
        proof {
            reveal(Seq::filter);
            assert(containers@.take(0) =~= Seq::empty());
        }
        while i < containers.len()
            invariant
                i <= containers.len(),
                counts.total == containers.len(),
                counts.running == containers@.take(i as int).filter(runs()).len(),
                counts.exited == containers@.take(i as int).filter(has_exited()).len(),
                counts.other == containers@.take(i as int).filter(is_other()).len(),
                counts.unhealthy == containers@.take(i as int).filter(is_unhealthy()).len(),
                counts.running + counts.exited + counts.other == i,
                counts.unhealthy <= i,
            decreases containers.len() - i,
        {
            let c = &containers[i];
            proof {
                reveal(Seq::filter);
                assert(containers@.take(i + 1).drop_last() =~= containers@.take(i as int));
                assert(containers@.take(i + 1).last() == *c);
            }
            match c.state {
                model::ContainerState::Running => {
                    counts.running = counts.running + 1;
                },
                model::ContainerState::Exited => {
                    counts.exited = counts.exited + 1;
                },
                _ => {
                    counts.other = counts.other + 1;
                },
            }
            if c.health == model::HealthState::Unhealthy {
                counts.unhealthy = counts.unhealthy + 1;
            }
            i += 1;
        }
        proof {
            assert(containers@.take(containers.len() as int) =~= containers@);
        }
        counts
    }
}

/// One part of the tally in the header.
#[derive(Debug)]
pub struct TallyPart {
    /// Style class.
    pub class: &'static str,
    pub count: usize,
    pub label: &'static str,
}

/// A part of the tally as plain values.
pub open spec fn part_view(p: TallyPart) -> (Seq<char>, usize, Seq<char>) {
    (p.class@, p.count, p.label@)
}

/// Parts of the tally as plain values.
pub open spec fn part_views(parts: Seq<TallyPart>) -> Seq<(Seq<char>, usize, Seq<char>)> {
    parts.map_values(|p: TallyPart| part_view(p))
}

/// The parts with one more, unless its count is zero.
pub open spec fn with_part(
    parts: Seq<(Seq<char>, usize, Seq<char>)>,
    class: Seq<char>,
    count: usize,
    label: Seq<char>,
) -> Seq<(Seq<char>, usize, Seq<char>)> {
    if count == 0 {
        parts
    } else {
        parts.push((class, count, label))
    }
}

fn push_part(parts: &mut Vec<TallyPart>, class: &'static str, count: usize, label: &'static str)
    ensures
        part_views(final(parts)@) == with_part(part_views(old(parts)@), class@, count, label@),
{
    let ghost before = part_views(parts@);
    if count > 0 {
        parts.push(TallyPart { class, count, label });
        proof {
            assert(part_views(parts@) =~= before.push((class@, count, label@)));
        }
    }
}

/// The parts of the tally that the header shows. A count of zero is left out,
/// except that of running containers, which is worth seeing.
pub fn container_counts_metric(counts: &ContainerCounts) -> (r: Vec<TallyPart>)
    ensures
        part_views(r@) == with_part(
            with_part(
                with_part(
                    seq![("count-ok"@, counts.running, "running"@)],
                    "count-err"@,
                    counts.exited,
                    "exited"@,
                ),
                "count-idle"@,
                counts.other,
                "other"@,
            ),
            "count-err"@,
            counts.unhealthy,
            "unhealthy"@,
        ),
{
    let mut out: Vec<TallyPart> = Vec::new();
    out.push(TallyPart { class: "count-ok", count: counts.running, label: "running" });
    proof {
        assert(part_views(out@) =~= seq![("count-ok"@, counts.running, "running"@)]);
    }
    push_part(&mut out, "count-err", counts.exited, "exited");
    push_part(&mut out, "count-idle", counts.other, "other");
    push_part(&mut out, "count-err", counts.unhealthy, "unhealthy");
    out
}

// ---------------------------------------------------------------------------
// Groups by stack
// ---------------------------------------------------------------------------

/// What containers are grouped by. Named stacks come first, by name; containers
/// without a stack come last.
#[derive(Debug, Clone, Copy, PartialEq, Eq, PartialOrd, Ord)]
pub enum StackKey<'a> {
    Named(&'a str),
    Standalone,
}

/// A group key as plain values: the stack, if there is one.
pub open spec fn key_view(k: StackKey) -> Option<Seq<char>> {
    match k {
        StackKey::Named(n) => Some(n@),
        StackKey::Standalone => None,
    }
}

/// The group key of a container.
pub open spec fn key_of(c: model::ContainerMetrics) -> Option<Seq<char>> {
    text::opt_view(c.stack)
}

/// Whether one key comes strictly before another.
pub open spec fn key_before(a: Option<Seq<char>>, b: Option<Seq<char>>) -> bool {
    match (a, b) {
        (Some(x), Some(y)) => order::text_le(x, y) && x != y,
        (Some(_), None) => true,
        (None, _) => false,
    }
}

/// A group of containers.
#[derive(Debug)]
pub struct StackGroup<'a> {
    pub key: StackKey<'a>,
    pub members: Vec<&'a model::ContainerMetrics>,
}

impl<'a> order::Ranked for &'a model::ContainerMetrics {
    /// By name.
    open spec fn le(&self, other: &Self) -> bool {
        order::text_le(self.name@, other.name@)
    }

    proof fn le_total(a: &Self, b: &Self) {
        order::lemma_text_total(a.name@, b.name@);
    }

    proof fn le_trans(a: &Self, b: &Self, c: &Self) {
        order::lemma_text_trans(a.name@, b.name@, c.name@);
    }

    fn may_precede(&self, other: &Self) -> (r: bool) {
        order::text_may_precede(self.name.as_str(), other.name.as_str())
    }
}

/// References to containers.
pub open spec fn refs<'a>(cs: Seq<model::ContainerMetrics>) -> Seq<&'a model::ContainerMetrics> {
    Seq::new(cs.len(), |i: int| &cs[i])
}

/// The predicate "has this key".
pub open spec fn has_key<'a>(k: Option<Seq<char>>) -> spec_fn(&'a model::ContainerMetrics) -> bool {
    |c: &'a model::ContainerMetrics| key_of(*c) == k
}

/// The keys of groups.
pub open spec fn group_keys(groups: Seq<StackGroup>) -> Seq<Option<Seq<char>>> {
    groups.map_values(|g: StackGroup| key_view(g.key))
}

/// Whether keys are in order, none twice.
pub open spec fn keys_ascend(keys: Seq<Option<Seq<char>>>) -> bool {
    forall|i: int, j: int|
        0 <= i < j < keys.len() ==> key_before(#[trigger] keys[i], #[trigger] keys[j])
}

/// Whether keys are those of the containers, in order, none twice.
pub open spec fn are_keys(keys: Seq<Option<Seq<char>>>, cs: Seq<model::ContainerMetrics>) -> bool {
    &&& keys_ascend(keys)
    &&& forall|i: int| 0 <= i < cs.len() ==> keys.contains(key_of(#[trigger] cs[i]))
    &&& forall|k: int|
        0 <= k < keys.len() ==> exists|i: int|
            0 <= i < cs.len() && key_of(#[trigger] cs[i]) == #[trigger] keys[k]
}

/// Whether groups are the containers by stack: the keys in order, and under each
/// its containers by name, those of the same name in their listed order.
pub open spec fn are_groups(groups: Seq<StackGroup>, cs: Seq<model::ContainerMetrics>) -> bool {
    &&& are_keys(group_keys(groups), cs)
    &&& forall|g: int|
        0 <= g < groups.len() ==> (#[trigger] groups[g]).members@ == order::sorted(
            refs(cs).filter(has_key(key_view(groups[g].key))),
        )
}

proof fn lemma_key_before_trans(a: Option<Seq<char>>, b: Option<Seq<char>>, c: Option<Seq<char>>)
    requires
        key_before(a, b),
        key_before(b, c),
    ensures
        key_before(a, c),
        a != c,
{
    if let (Some(x), Some(y)) = (a, b) {
        if let Some(z) = c {
            order::lemma_text_trans(x, y, z);
            if x == z {
                order::lemma_text_antisym(x, y);
            }
        }
    }
}

proof fn lemma_key_trichotomy(a: Option<Seq<char>>, b: Option<Seq<char>>)
    ensures
        a == b || key_before(a, b) || key_before(b, a),
{
    if let (Some(x), Some(y)) = (a, b) {
        order::lemma_text_total(x, y);
    }
}

fn same_key(a: StackKey, b: StackKey) -> (r: bool)
    ensures
        r == (key_view(a) == key_view(b)),
{
    match (a, b) {
        (StackKey::Named(x), StackKey::Named(y)) => text::same(x, y),
        (StackKey::Standalone, StackKey::Standalone) => true,
        _ => false,
    }
}

fn comes_before(a: StackKey, b: StackKey) -> (r: bool)
    ensures
        r == key_before(key_view(a), key_view(b)),
{
    match (a, b) {
        (StackKey::Named(x), StackKey::Named(y)) => order::text_may_precede(x, y) && !text::same(
            x,
            y,
        ),
        (StackKey::Named(_), StackKey::Standalone) => true,
        _ => false,
    }
}

fn stack_key<'a>(c: &'a model::ContainerMetrics) -> (r: StackKey<'a>)
    ensures
        key_view(r) == key_of(*c),
{
    match &c.stack {
        Some(name) => StackKey::Named(name.as_str()),
        None => StackKey::Standalone,
    }
}

/// Keys as plain values.
pub open spec fn key_views(keys: Seq<StackKey>) -> Seq<Option<Seq<char>>> {
    keys.map_values(|k: StackKey| key_view(k))
}

fn collect_keys<'a>(containers: &'a [model::ContainerMetrics]) -> (r: Vec<StackKey<'a>>)
    ensures
        are_keys(key_views(r@), containers@),
{
    let mut keys: Vec<StackKey<'a>> = Vec::new();
    let mut i: usize = 0;
    while i < containers.len()
        invariant
            i <= containers.len(),
            are_keys(key_views(keys@), containers@.take(i as int)),
        decreases containers.len() - i,
    {
        let key = stack_key(&containers[i]);
        let ghost old_keys = key_views(keys@);
        let ghost head = containers@.take(i as int);
        let ghost whole = containers@.take(i + 1);
        let mut p: usize = 0;
        while p < keys.len() && comes_before(keys[p], key)
            invariant
                p <= keys.len(),
                old_keys == key_views(keys@),
                forall|j: int| 0 <= j < p ==> key_before(#[trigger] old_keys[j], key_view(key)),
            decreases keys.len() - p,
        {
            p += 1;
        }
        let known: bool = p < keys.len() && same_key(keys[p], key);
        proof {
            assert(whole.drop_last() =~= head);
            assert(whole.last() == containers@[i as int]);
            if p < keys.len() {
                assert(old_keys[p as int] == key_view(keys[p as int]));
                lemma_key_trichotomy(old_keys[p as int], key_view(key));
            }
        }
        if !known {
            keys.insert(p, key);
        }
        proof {
            let now = key_views(keys@);
            if !known {
                assert(now =~= old_keys.insert(p as int, key_view(key)));
                assert forall|a: int, b: int| 0 <= a < b < now.len() implies key_before(
                    #[trigger] now[a],
                    #[trigger] now[b],
                ) by {
                    if b < p {
                        assert(key_before(old_keys[a], old_keys[b]));
                    } else if b == p {
                        assert(key_before(old_keys[a], key_view(key)));
                    } else if a < p {
                        assert(key_before(old_keys[a], old_keys[b - 1]));
                    } else if a == p {
                        if b - 1 > p {
                            assert(key_before(old_keys[p as int], old_keys[b - 1]));
                            lemma_key_before_trans(
                                key_view(key),
                                old_keys[p as int],
                                old_keys[b - 1],
                            );
                        }
                    } else {
                        assert(key_before(old_keys[a - 1], old_keys[b - 1]));
                    }
                }
            }
            assert(now.contains(key_view(key))) by {
                assert(now[p as int] == key_view(key));
            }
            assert forall|m: int| 0 <= m < whole.len() implies now.contains(
                key_of(#[trigger] whole[m]),
            ) by {
                if m < head.len() {
                    assert(head[m] == whole[m]);
                    assert(old_keys.contains(key_of(head[m])));
                    let k = choose|k: int| 0 <= k < old_keys.len() && old_keys[k] == key_of(head[m]);
                    if known || k < p {
                        assert(now[k] == old_keys[k]);
                    } else {
                        assert(now[k + 1] == old_keys[k]);
                    }
                }
            }
            assert forall|k: int| 0 <= k < now.len() implies exists|m: int|
                0 <= m < whole.len() && key_of(#[trigger] whole[m]) == #[trigger] now[k] by {
                if !known && k == p {
                    assert(key_of(whole[i as int]) == now[k]);
                } else {
                    let o = if known || k < p {
                        k
                    } else {
                        k - 1
                    };
                    assert(old_keys[o] == now[k]);
                    let m = choose|m: int|
                        0 <= m < head.len() && key_of(#[trigger] head[m]) == old_keys[o];
                    assert(key_of(whole[m]) == now[k]);
                }
            }
        }
        i += 1;
    }
    proof {
        assert(containers@.take(containers.len() as int) =~= containers@);
    }
    keys
}

fn members_with_key<'a>(containers: &'a [model::ContainerMetrics], key: StackKey<'a>) -> (r: Vec<
    &'a model::ContainerMetrics,
>)
    ensures
        r@ == refs(containers@).filter(has_key(key_view(key))),
{
    let ghost all = refs(containers@);
    let ghost p = has_key(key_view(key));
    let mut out: Vec<&'a model::ContainerMetrics> = Vec::new();
    let mut i: usize = 0;
    proof {
        reveal(Seq::filter);
        assert(all.take(0) =~= Seq::empty());
        assert(out@ =~= all.take(0).filter(p));
    }
    while i < containers.len()
        invariant
            i <= containers.len(),
            all == refs(containers@),
            p == has_key(key_view(key)),
            out@ == all.take(i as int).filter(p),
        decreases containers.len() - i,
    {
        proof {
            reveal(Seq::filter);
            assert(all.take(i + 1).drop_last() =~= all.take(i as int));
            assert(all.take(i + 1).last() == &containers@[i as int]);
        }
        if same_key(stack_key(&containers[i]), key) {
            out.push(&containers[i]);
        }
        i += 1;
    }
    proof {
        assert(all.take(containers.len() as int) =~= all);
    }
    out
}

/// The containers by stack: named stacks by name, containers without a stack
/// last, and the members of each by name.
pub fn group_by_stack<'a>(containers: &'a [model::ContainerMetrics]) -> (r: Vec<StackGroup<'a>>)
    ensures
        are_groups(r@, containers@),
{
    let keys = collect_keys(containers);
    let mut out: Vec<StackGroup<'a>> = Vec::new();
    let mut i: usize = 0;
    while i < keys.len()
        invariant
            i <= keys.len(),
            out.len() == i,
            forall|g: int| 0 <= g < i ==> (#[trigger] out[g]).key == keys[g],
            forall|g: int|
                0 <= g < i ==> (#[trigger] out[g]).members@ == order::sorted(
                    refs(containers@).filter(has_key(key_view(out[g].key))),
                ),
        decreases keys.len() - i,
    {
        let key = keys[i];
        let members = order::stable_sort(members_with_key(containers, key));
        out.push(StackGroup { key, members });
        i += 1;
    }
    proof {
        assert(group_keys(out@) =~= key_views(keys@));
    }
    out
}

/// How many containers have one of these keys, each key counted.
spec fn members_total(
    keys: Seq<Option<Seq<char>>>,
    cs: Seq<&model::ContainerMetrics>,
) -> int
    decreases keys.len(),
{
    if keys.len() == 0 {
        0
    } else {
        members_total(keys.drop_last(), cs) + cs.filter(has_key(keys.last())).len()
    }
}

/// How often a key occurs.
spec fn occurrences(keys: Seq<Option<Seq<char>>>, k: Option<Seq<char>>) -> int
    decreases keys.len(),
{
    if keys.len() == 0 {
        0
    } else {
        occurrences(keys.drop_last(), k) + (if keys.last() == k {
            1int
        } else {
            0int
        })
    }
}

proof fn lemma_total_push(
    keys: Seq<Option<Seq<char>>>,
    cs: Seq<&model::ContainerMetrics>,
    c: &model::ContainerMetrics,
)
    ensures
        members_total(keys, cs.push(c)) == members_total(keys, cs) + occurrences(
            keys,
            key_of(*c),
        ),
    decreases keys.len(),
{
    reveal(Seq::filter);
    if keys.len() > 0 {
        lemma_total_push(keys.drop_last(), cs, c);
        assert(cs.push(c).drop_last() =~= cs);
        assert(cs.push(c).last() == c);
    }
}

proof fn lemma_no_occurrence(keys: Seq<Option<Seq<char>>>, k: Option<Seq<char>>)
    requires
        !keys.contains(k),
    ensures
        occurrences(keys, k) == 0,
    decreases keys.len(),
{
    if keys.len() > 0 {
        let head = keys.drop_last();
        assert(!head.contains(k)) by {
            if head.contains(k) {
                let i = choose|i: int| 0 <= i < head.len() && head[i] == k;
                assert(keys[i] == k);
            }
        }
        assert(keys[keys.len() - 1] != k);
        lemma_no_occurrence(head, k);
    }
}

proof fn lemma_one_occurrence(keys: Seq<Option<Seq<char>>>, k: Option<Seq<char>>)
    requires
        keys_ascend(keys),
        keys.contains(k),
    ensures
        occurrences(keys, k) == 1,
    decreases keys.len(),
{
    let head = keys.drop_last();
    let last = keys.len() - 1;
    assert(keys_ascend(head));
    if keys[last] == k {
        assert(!head.contains(k)) by {
            if head.contains(k) {
                let i = choose|i: int| 0 <= i < head.len() && head[i] == k;
                assert(key_before(keys[i], keys[last]));
            }
        }
        lemma_no_occurrence(head, k);
    } else {
        let i = choose|i: int| 0 <= i < keys.len() && keys[i] == k;
        assert(head[i] == k);
        lemma_one_occurrence(head, k);
    }
}

proof fn lemma_total(keys: Seq<Option<Seq<char>>>, cs: Seq<&model::ContainerMetrics>)
    requires
        keys_ascend(keys),
        forall|i: int| 0 <= i < cs.len() ==> keys.contains(key_of(*(#[trigger] cs[i]))),
    ensures
        members_total(keys, cs) == cs.len(),
    decreases cs.len(),
{
    if cs.len() == 0 {
        lemma_total_empty(keys, cs);
    } else {
        let head = cs.drop_last();
        assert forall|i: int| 0 <= i < head.len() implies keys.contains(
            key_of(*(#[trigger] head[i])),
        ) by {
            assert(head[i] == cs[i]);
        }
        lemma_total(keys, head);
        assert(cs =~= head.push(cs.last()));
        lemma_total_push(keys, head, cs.last());
        assert(keys.contains(key_of(*cs[cs.len() - 1])));
        lemma_one_occurrence(keys, key_of(*cs.last()));
    }
}

proof fn lemma_total_empty(keys: Seq<Option<Seq<char>>>, cs: Seq<&model::ContainerMetrics>)
    requires
        cs.len() == 0,
    ensures
        members_total(keys, cs) == 0,
    decreases keys.len(),
{
    reveal(Seq::filter);
    if keys.len() > 0 {
        lemma_total_empty(keys.drop_last(), cs);
    }
}

/// How many members groups have together.
pub open spec fn group_total(groups: Seq<StackGroup>) -> int
    decreases groups.len(),
{
    if groups.len() == 0 {
        0
    } else {
        group_total(groups.drop_last()) + groups.last().members@.len()
    }
}

/// Groups that hold the containers of their keys have as many members together.
proof fn lemma_group_total(groups: Seq<StackGroup>, all: Seq<&model::ContainerMetrics>)
    requires
        forall|g: int|
            0 <= g < groups.len() ==> (#[trigger] groups[g]).members@ == order::sorted(
                all.filter(has_key(key_view(groups[g].key))),
            ),
    ensures
        group_total(groups) == members_total(group_keys(groups), all),
    decreases groups.len(),
{
    if groups.len() > 0 {
        let head = groups.drop_last();
        lemma_group_total(head, all);
        assert(group_keys(groups).drop_last() =~= group_keys(head));
        let last = groups[groups.len() - 1];
        let own = all.filter(has_key(key_view(last.key)));
        order::law_sorted_is_a_stable_sort(own);
        order::law_stable_sort_is_a_permutation(own, last.members@);
    }
}

/// A group holds exactly the containers of its stack, each as often as it is
/// listed, by name and those of the same name in their listed order.
pub proof fn law_groups_hold_their_stack(
    groups: Seq<StackGroup>,
    cs: Seq<model::ContainerMetrics>,
    g: int,
)
    requires
        are_groups(groups, cs),
        0 <= g < groups.len(),
    ensures
        order::is_stable_sort(
            refs(cs).filter(has_key(key_view(groups[g].key))),
            groups[g].members@,
        ),
        groups[g].members@.to_multiset() == refs(cs).filter(
            has_key(key_view(groups[g].key)),
        ).to_multiset(),
{
    let own = refs(cs).filter(has_key(key_view(groups[g].key)));
    order::law_sorted_is_a_stable_sort(own);
    order::law_stable_sort_is_a_permutation(own, groups[g].members@);
}

/// Grouping neither loses nor repeats a container: the groups together have as
/// many members as there are containers.
pub proof fn law_groups_hold_every_container_once(
    groups: Seq<StackGroup>,
    cs: Seq<model::ContainerMetrics>,
)
    requires
        are_groups(groups, cs),
    ensures
        group_total(groups) == cs.len(),
{
    let keys = group_keys(groups);
    let all = refs(cs);
    assert forall|i: int| 0 <= i < all.len() implies keys.contains(key_of(*(#[trigger] all[i]))) by {
        assert(*all[i] == cs[i]);
        assert(keys.contains(key_of(cs[i])));
    }
    lemma_total(keys, all);
    lemma_group_total(groups, all);
}

/// Containers without a stack come last.
pub proof fn law_standalone_comes_last(groups: Seq<StackGroup>, cs: Seq<model::ContainerMetrics>, g: int)
    requires
        are_groups(groups, cs),
        0 <= g < groups.len(),
        groups[g].key is Standalone,
    ensures
        g == groups.len() - 1,
{
    let keys = group_keys(groups);
    if g < groups.len() - 1 {
        assert(key_before(keys[g], keys[groups.len() - 1]));
    }
}

// ---------------------------------------------------------------------------
// Stacks
// ---------------------------------------------------------------------------

/// The members of a stack, in their listed order.
pub fn stack_containers<'a>(containers: &'a [model::ContainerMetrics], stack: &'a str) -> (r: Vec<
    &'a model::ContainerMetrics,
>)
    ensures
        r@ == refs(containers@).filter(has_key(Some(stack@))),
{
    members_with_key(containers, StackKey::Named(stack))
}

/// The memory of containers together; a missing reading counts as none.
pub open spec fn memory_sum(cs: Seq<&model::ContainerMetrics>) -> int
    decreases cs.len(),
{
    if cs.len() == 0 {
        0
    } else {
        memory_sum(cs.drop_last()) + (match cs.last().mem_used {
            Some(n) => n as int,
            None => 0,
        })
    }
}

/// Parts of a list use no more memory than all of it.
proof fn lemma_memory_prefix(cs: Seq<&model::ContainerMetrics>, k: int)
    requires
        0 <= k <= cs.len(),
    ensures
        0 <= memory_sum(cs.take(k)) <= memory_sum(cs),
    decreases cs.len(),
{
    if k == cs.len() {
        assert(cs.take(k) =~= cs);
        if k > 0 {
            lemma_memory_prefix(cs.drop_last(), k - 1);
            assert(cs.drop_last().take(k - 1) =~= cs.drop_last());
        }
    } else {
        lemma_memory_prefix(cs.drop_last(), k);
        assert(cs.drop_last().take(k) =~= cs.take(k));
    }
}

/// The memory of a stack's members together.
pub fn stack_memory(members: &[&model::ContainerMetrics]) -> (r: u64)
    requires
        memory_sum(members@) <= u64::MAX,
    ensures
        r == memory_sum(members@),
        forall|i: int|
            0 <= i < members@.len() ==> (#[trigger] members@[i].mem_used matches Some(n) ==> n
                <= r),
{
    let mut sum: u64 = 0;
    let mut i: usize = 0;
    proof {
        assert(members@.take(0) =~= Seq::empty());
    }
    while i < members.len()
        invariant
            i <= members.len(),
            memory_sum(members@) <= u64::MAX,
            sum == memory_sum(members@.take(i as int)),
            forall|j: int|
                0 <= j < i ==> (#[trigger] members@[j].mem_used matches Some(n) ==> n <= sum),
        decreases members.len() - i,
    {
        proof {
            assert(members@.take(i + 1).drop_last() =~= members@.take(i as int));
            assert(members@.take(i + 1).last() == members@[i as int]);
            lemma_memory_prefix(members@, i + 1);
        }
        if let Some(n) = members[i].mem_used {
            sum = sum + n;
        }
        i += 1;
    }
    proof {
        assert(members@.take(members.len() as int) =~= members@);
    }
    sum
}

/// The readings that are present, in order.
pub open spec fn present(readings: Seq<Option<reading::Reading>>) -> Seq<reading::Reading>
    decreases readings.len(),
{
    if readings.len() == 0 {
        Seq::empty()
    } else {
        let before = present(readings.drop_last());
        match readings.last() {
            Some(r) => before.push(r),
            None => before,
        }
    }
}

/// One reading of each container.
pub open spec fn column(
    cs: Seq<&model::ContainerMetrics>,
    pick: spec_fn(model::ContainerMetrics) -> Option<reading::Reading>,
) -> Seq<Option<reading::Reading>> {
    cs.map_values(|c: &model::ContainerMetrics| pick(*c))
}

/// What the members of a stack report, to be summed. A sum over no readings is
/// unknown, except that of CPU shares, which is zero.
#[derive(Debug)]
pub struct StackReadings {
    pub cpu: Vec<reading::Reading>,
    pub net_rx: Vec<reading::Reading>,
    pub net_tx: Vec<reading::Reading>,
    pub disk_read: Vec<reading::Reading>,
    pub disk_write: Vec<reading::Reading>,
}

fn keep(list: &mut Vec<reading::Reading>, r: Option<reading::Reading>)
    ensures
        final(list)@ == (match r {
            Some(v) => old(list)@.push(v),
            None => old(list)@,
        }),
{
    if let Some(v) = r {
        list.push(v);
    }
}

proof fn lemma_column_step(
    cs: Seq<&model::ContainerMetrics>,
    i: int,
    pick: spec_fn(model::ContainerMetrics) -> Option<reading::Reading>,
)
    requires
        0 <= i < cs.len(),
    ensures
        present(column(cs.take(i + 1), pick)) == (match pick(*cs[i]) {
            Some(v) => present(column(cs.take(i), pick)).push(v),
            None => present(column(cs.take(i), pick)),
        }),
{
    let c = column(cs.take(i + 1), pick);
    assert(c.drop_last() =~= column(cs.take(i), pick));
    assert(c.last() == pick(*cs[i]));
}

/// What the members of a stack report.
pub fn stack_readings(members: &[&model::ContainerMetrics]) -> (r: StackReadings)
    ensures
        r.cpu@ == present(column(members@, |c: model::ContainerMetrics| c.cpu_percent)),
        r.net_rx@ == present(column(members@, |c: model::ContainerMetrics| c.net_rx_bps)),
        r.net_tx@ == present(column(members@, |c: model::ContainerMetrics| c.net_tx_bps)),
        r.disk_read@ == present(column(members@, |c: model::ContainerMetrics| c.disk_read_bps)),
        r.disk_write@ == present(column(members@, |c: model::ContainerMetrics| c.disk_write_bps)),
{
    let ghost cpu_of = |c: model::ContainerMetrics| c.cpu_percent;
    let ghost rx_of = |c: model::ContainerMetrics| c.net_rx_bps;
    let ghost tx_of = |c: model::ContainerMetrics| c.net_tx_bps;
    let ghost read_of = |c: model::ContainerMetrics| c.disk_read_bps;
    let ghost write_of = |c: model::ContainerMetrics| c.disk_write_bps;
    let mut cpu: Vec<reading::Reading> = Vec::new();
    let mut net_rx: Vec<reading::Reading> = Vec::new();
    let mut net_tx: Vec<reading::Reading> = Vec::new();
    let mut disk_read: Vec<reading::Reading> = Vec::new();
    let mut disk_write: Vec<reading::Reading> = Vec::new();
    let mut i: usize = 0;
    while i < members.len()
        invariant
            i <= members.len(),
            cpu_of == (|c: model::ContainerMetrics| c.cpu_percent),
            rx_of == (|c: model::ContainerMetrics| c.net_rx_bps),
            tx_of == (|c: model::ContainerMetrics| c.net_tx_bps),
            read_of == (|c: model::ContainerMetrics| c.disk_read_bps),
            write_of == (|c: model::ContainerMetrics| c.disk_write_bps),
            cpu@ == present(column(members@.take(i as int), cpu_of)),
            net_rx@ == present(column(members@.take(i as int), rx_of)),
            net_tx@ == present(column(members@.take(i as int), tx_of)),
            disk_read@ == present(column(members@.take(i as int), read_of)),
            disk_write@ == present(column(members@.take(i as int), write_of)),
        decreases members.len() - i,
    {
        let c = members[i];
        proof {
            lemma_column_step(members@, i as int, cpu_of);
            lemma_column_step(members@, i as int, rx_of);
            lemma_column_step(members@, i as int, tx_of);
            lemma_column_step(members@, i as int, read_of);
            lemma_column_step(members@, i as int, write_of);
        }
        keep(&mut cpu, c.cpu_percent);
        keep(&mut net_rx, c.net_rx_bps);
        keep(&mut net_tx, c.net_tx_bps);
        keep(&mut disk_read, c.disk_read_bps);
        keep(&mut disk_write, c.disk_write_bps);
        i += 1;
    }
    proof {
        assert(members@.take(members.len() as int) =~= members@);
    }
    StackReadings { cpu, net_rx, net_tx, disk_read, disk_write }
}

// ---------------------------------------------------------------------------
// Lookups and decisions
// ---------------------------------------------------------------------------

/// The position of the first container with an id, or the length.
pub open spec fn position_of(cs: Seq<model::ContainerMetrics>, id: Seq<char>) -> int
    decreases cs.len(),
{
    if cs.len() == 0 {
        0
    } else if cs[0].id@ == id {
        0
    } else {
        1 + position_of(cs.skip(1), id)
    }
}

/// The first container with an id.
pub fn find_container<'a>(containers: &'a [model::ContainerMetrics], id: &str) -> (r: Option<
    &'a model::ContainerMetrics,
>)
    ensures
        ({
            let i = position_of(containers@, id@);
            if 0 <= i < containers@.len() {
                r matches Some(c) && *c == containers@[i]
            } else {
                r is None
            }
        }),
{
    let mut i: usize = 0;
    proof {
        assert(containers@.skip(0) =~= containers@);
    }
    while i < containers.len()
        invariant
            i <= containers.len(),
            position_of(containers@, id@) == i + position_of(containers@.skip(i as int), id@),
        decreases containers.len() - i,
    {
        proof {
            assert(containers@.skip(i as int)[0] == containers@[i as int]);
            assert(containers@.skip(i as int).skip(1) =~= containers@.skip(i + 1));
        }
        if text::same(containers[i].id.as_str(), id) {
            return Some(&containers[i]);
        }
        i += 1;
    }
    None
}

/// The point of a container for the live charts. A missing CPU reading is shown
/// as zero.
pub fn container_point(ts_ms: u64, c: &model::ContainerMetrics) -> (r: store::MetricPoint)
    ensures
        r.ts_ms == ts_ms,
        r.cpu_percent == (match c.cpu_percent {
            Some(v) => v,
            None => reading::Reading::count(0),
        }),
        r.mem_used == c.mem_used,
        r.net_rx == c.net_rx_bps,
        r.net_tx == c.net_tx_bps,
        r.disk_read == c.disk_read_bps,
        r.disk_write == c.disk_write_bps,
{
    store::MetricPoint {
        ts_ms,
        cpu_percent: match c.cpu_percent {
            Some(v) => v,
            None => reading::Reading::zero(),
        },
        mem_used: c.mem_used,
        net_rx: c.net_rx_bps,
        net_tx: c.net_tx_bps,
        disk_read: c.disk_read_bps,
        disk_write: c.disk_write_bps,
    }
}

/// Whether a live stream sends a snapshot: only one that it has not sent last.
pub fn is_fresh(generated_at_ms: u64, last_sent_ms: u64) -> (r: bool)
    ensures
        r == (generated_at_ms != last_sent_ms),
{
    generated_at_ms != last_sent_ms
}

/// Where the landing page leads: straight to the only host, if there is one.
pub fn landing_target(hosts: &[String]) -> (r: Option<String>)
    ensures
        text::opt_view(r) == (if hosts@.len() == 1 {
            Some("/host/"@ + hosts@[0]@)
        } else {
            None
        }),
{
    if hosts.len() == 1 {
        let mut target = "/host/".to_owned();
        target.append(hosts[0].as_str());
        Some(target)
    } else {
        None
    }
}

/// What came of an action on the engine.
#[derive(Debug, Clone, Copy, PartialEq, Eq, Structural)]
pub enum ActionResult {
    Applied,
    /// The engine, or a proxy before it, forbids it.
    Forbidden,
    Failed,
}

/// The answer to a requested action.
#[derive(Debug, Clone, Copy, PartialEq, Eq, Structural)]
pub enum ActionReply {
    /// Show the buttons again, disabled on a host that takes no actions.
    Buttons(bool),
    /// Remember that the host takes no actions, and show disabled buttons.
    Latch,
    /// Report the failure.
    Failure,
}

/// The answer to a requested action. A host that forbids one takes no actions
/// from then on.
pub fn action_reply(result: ActionResult, read_only: bool) -> (r: ActionReply)
    ensures
        r == (match result {
            ActionResult::Applied => ActionReply::Buttons(read_only),
            ActionResult::Forbidden => ActionReply::Latch,
            ActionResult::Failed => ActionReply::Failure,
        }),
{
    match result {
        ActionResult::Applied => ActionReply::Buttons(read_only),
        ActionResult::Forbidden => ActionReply::Latch,
        ActionResult::Failed => ActionReply::Failure,
    }
}

/// Whether a host takes no actions, after what came of one.
pub open spec fn latched(read_only: bool, result: ActionResult) -> bool {
    read_only || result == ActionResult::Forbidden
}

/// Whether a host takes no actions, after what came of one.
pub fn read_only_after(read_only: bool, result: ActionResult) -> (r: bool)
    ensures
        r == latched(read_only, result),
{
    match result {
        ActionResult::Forbidden => true,
        _ => read_only,
    }
}

/// Whether a host takes no actions, after what came of several.
pub open spec fn latched_after(read_only: bool, results: Seq<ActionResult>) -> bool
    decreases results.len(),
{
    if results.len() == 0 {
        read_only
    } else {
        latched(latched_after(read_only, results.drop_last()), results.last())
    }
}

/// A host takes no actions from the first that it forbids, and for good.
pub proof fn law_read_only_latches(results: Seq<ActionResult>)
    ensures
        latched_after(false, results) == results.contains(ActionResult::Forbidden),
    decreases results.len(),
{
    if results.len() > 0 {
        let before = results.drop_last();
        law_read_only_latches(before);
        assert(results =~= before.push(results.last()));
        if before.contains(ActionResult::Forbidden) {
            let i = before.index_of(ActionResult::Forbidden);
            assert(results[i] == ActionResult::Forbidden);
        }
        if results.contains(ActionResult::Forbidden) && results.last() != ActionResult::Forbidden {
            let i = results.index_of(ActionResult::Forbidden);
            assert(before[i] == ActionResult::Forbidden);
        }
        if results.last() == ActionResult::Forbidden {
            assert(results[results.len() - 1] == ActionResult::Forbidden);
        }
    }
}

// ---------------------------------------------------------------------------
// Laws of the figures
// ---------------------------------------------------------------------------

/// Memory adds up over members: that of two lists together is the sum of theirs,
/// that of one container is what it uses, and that of none is nothing.
pub proof fn law_memory_adds_up(
    a: Seq<&model::ContainerMetrics>,
    b: Seq<&model::ContainerMetrics>,
    c: &model::ContainerMetrics,
)
    ensures
        memory_sum(a + b) == memory_sum(a) + memory_sum(b),
        memory_sum(seq![c]) == (match c.mem_used {
            Some(n) => n as int,
            None => 0,
        }),
        memory_sum(Seq::empty()) == 0,
    decreases b.len(),
{
    reveal_with_fuel(memory_sum, 2);
    assert(seq![c].drop_last() =~= Seq::<&model::ContainerMetrics>::empty());
    if b.len() == 0 {
        assert(a + b =~= a);
    } else {
        law_memory_adds_up(a, b.drop_last(), c);
        assert((a + b).drop_last() =~= a + b.drop_last());
        assert((a + b).last() == b.last());
    }
}

/// The readings of two lists of members are those of the first followed by those
/// of the second; a member with a reading adds it, and one without adds none.
pub proof fn law_readings_add_up(
    a: Seq<&model::ContainerMetrics>,
    b: Seq<&model::ContainerMetrics>,
    c: &model::ContainerMetrics,
    pick: spec_fn(model::ContainerMetrics) -> Option<reading::Reading>,
)
    ensures
        present(column(a + b, pick)) == present(column(a, pick)) + present(column(b, pick)),
        present(column(seq![c], pick)) == (match pick(*c) {
            Some(v) => seq![v],
            None => Seq::empty(),
        }),
        present(column(Seq::empty(), pick)) == Seq::<reading::Reading>::empty(),
    decreases b.len(),
{
    reveal_with_fuel(present, 2);
    let one = column(seq![c], pick);
    let none = column(Seq::empty(), pick);
    assert(none =~= Seq::<Option<reading::Reading>>::empty());
    assert(one.drop_last() =~= Seq::<Option<reading::Reading>>::empty());
    assert(one.last() == pick(*c));
    assert(present(one) =~= (match pick(*c) {
        Some(v) => seq![v],
        None => Seq::empty(),
    }));
    if b.len() == 0 {
        assert(a + b =~= a);
        assert(column(b, pick) =~= none);
        assert(present(column(a, pick)) + present(column(b, pick)) =~= present(column(a, pick)));
    } else {
        law_readings_add_up(a, b.drop_last(), c, pick);
        let all = column(a + b, pick);
        assert(all.drop_last() =~= column(a + b.drop_last(), pick));
        assert(column(b, pick).drop_last() =~= column(b.drop_last(), pick));
        assert(all.last() == column(b, pick).last());
        assert(present(all) =~= present(column(a, pick)) + present(column(b, pick)));
    }
}

/// Whether text is a number of bytes in a unit of `size` bytes, with one decimal
/// that is off by half a tenth at most.
pub open spec fn shows_tenths(s: Seq<char>, bytes: nat, size: nat, unit: Seq<char>) -> bool {
    exists|t: nat|
        #![trigger num::dec(t / 10)]
        s == num::dec(t / 10) + seq!['.', num::digit((t % 10) as int)] + unit && -(size as int)
            <= 2 * (t * size - 10 * bytes) <= size
}

/// A byte count is shown in the largest binary unit that it reaches, whole below
/// 1024 and to the nearest tenth above.
pub proof fn law_bytes_are_shown_to_a_tenth(bytes: nat)
    requires
        bytes < 0x20_0000_0000_0000,
    ensures
        bytes < 1024 ==> bytes_text(bytes) == num::dec(bytes) + " B"@,
        1024 <= bytes < 1024 * 1024 ==> shows_tenths(bytes_text(bytes), bytes, 1024, " KiB"@),
        1024 * 1024 <= bytes < 1024 * 1024 * 1024 ==> shows_tenths(
            bytes_text(bytes),
            bytes,
            1024 * 1024,
            " MiB"@,
        ),
        1024 * 1024 * 1024 <= bytes < 1024 * 1024 * 1024 * 1024 ==> shows_tenths(
            bytes_text(bytes),
            bytes,
            1024 * 1024 * 1024,
            " GiB"@,
        ),
        1024 * 1024 * 1024 * 1024 <= bytes ==> shows_tenths(
            bytes_text(bytes),
            bytes,
            1024 * 1024 * 1024 * 1024,
            " TiB"@,
        ),
{
    reading::law_small_counts_are_exact(bytes);
    let u = unit_index(bytes as int);
    let size = unit_size(u);
    if u > 0 {
        reveal_strlit(" ");
        reveal_strlit("KiB");
        reveal_strlit("MiB");
        reveal_strlit("GiB");
        reveal_strlit("TiB");
        reveal_strlit(" KiB");
        reveal_strlit(" MiB");
        reveal_strlit(" GiB");
        reveal_strlit(" TiB");
        reading::law_nearest_is_within_half_a_unit(10 * bytes as int, size);
        let t = reading::nearest(10 * bytes as int, size);
        assert(t >= 0) by (nonlinear_arith)
            requires
                2 * (t * size - 10 * bytes) >= -size,
                size > 0,
                bytes >= size,
        ;
        let text = bytes_text(bytes);
        let name = " "@ + unit_name(u);
        assert(u == 1 ==> name =~= " KiB"@);
        assert(u == 2 ==> name =~= " MiB"@);
        assert(u == 3 ==> name =~= " GiB"@);
        assert(u == 4 ==> name =~= " TiB"@);
        assert(text =~= num::dec(t as nat / 10) + seq!['.', num::digit((t as nat % 10) as int)]
            + name);
        assert(shows_tenths(text, bytes, size as nat, name));
    }
}

/// An age is shown as the whole number of seconds, minutes, hours or days that
/// have passed, in the largest of these of which at least one has.
pub proof fn law_ages_are_whole_units(secs: nat, n: nat)
    ensures
        secs == 0 ==> age_text(secs) == "just now"@,
        1 <= secs < 60 && n == secs ==> age_text(secs) == num::dec(n) + "s ago"@,
        60 <= secs < 60 * 60 && 60 * n <= secs < 60 * (n + 1) ==> age_text(secs) == num::dec(n)
            + "m ago"@,
        3600 <= secs < 24 * 3600 && 3600 * n <= secs < 3600 * (n + 1) ==> age_text(secs)
            == num::dec(n) + "h ago"@,
        24 * 3600 <= secs && 86400 * n <= secs < 86400 * (n + 1) ==> age_text(secs) == num::dec(n)
            + "d ago"@,
{
}

/// A container is found by its id: the first one that has it. None is found
/// exactly if no container has it.
pub proof fn law_containers_are_found_by_id(cs: Seq<model::ContainerMetrics>, id: Seq<char>)
    ensures
        ({
            let i = position_of(cs, id);
            &&& 0 <= i <= cs.len()
            &&& i < cs.len() ==> cs[i].id@ == id
            &&& forall|j: int| 0 <= j < i ==> (#[trigger] cs[j]).id@ != id
        }),
    decreases cs.len(),
{
    if cs.len() > 0 && cs[0].id@ != id {
        let t = cs.skip(1);
        law_containers_are_found_by_id(t, id);
        assert forall|j: int| 0 <= j < position_of(cs, id) implies (#[trigger] cs[j]).id@
            != id by {
            if j > 0 {
                assert(t[j - 1] == cs[j]);
            }
        }
    }
}

/// The content type goes by the extension of a path, which is what follows its
/// last dot.
pub proof fn law_content_types_go_by_extension(stem: Seq<char>, ext: Seq<char>)
    requires
        !ext.contains('.'),
    ensures
        ext == "css"@ ==> content_type(stem.push('.') + ext) == "text/css; charset=utf-8"@,
        ext == "js"@ ==> content_type(stem.push('.') + ext) == "text/javascript; charset=utf-8"@,
        ext == "svg"@ ==> content_type(stem.push('.') + ext) == "image/svg+xml"@,
        ext != "css"@ && ext != "js"@ && ext != "svg"@ ==> content_type(stem.push('.') + ext)
            == "application/octet-stream"@,
{
    lemma_after_last_at(stem, '.', ext);
    reveal_strlit("css");
    reveal_strlit("js");
    reveal_strlit("svg");
    assert("css"@[0] != "svg"@[0]);
}

proof fn lemma_after_last_at(a: Seq<char>, c: char, b: Seq<char>)
    requires
        !b.contains(c),
    ensures
        text::after_last(a.push(c) + b, c) == b,
{
    let s = a.push(c) + b;
    let n = a.len() as int + 1;
    assert forall|j: int| n <= j < s.len() implies text::not_char(c)(#[trigger] s[j]) by {
        assert(b[j - n] == s[j]);
        assert(b.contains(b[j - n]));
    }
    assert(s[n - 1] == c);
    text::lemma_trail_is(s, text::not_char(c), b.len() as int);
    assert(s.skip(n) =~= b);
}

/// The short name of an image is what follows its last slash, and an image
/// without one is shown whole.
pub proof fn law_short_images_have_no_path(path: Seq<char>, name: Seq<char>)
    requires
        !name.contains('/'),
    ensures
        text::after_last(path.push('/') + name, '/') == name,
        text::after_last(name, '/') == name,
{
    lemma_after_last_at(path, '/', name);
    assert forall|j: int| 0 <= j < name.len() implies text::not_char('/')(#[trigger] name[j]) by {
        assert(name.contains(name[j]));
    }
    text::lemma_trail_is(name, text::not_char('/'), name.len() as int);
    assert(name.skip(0) =~= name);
}

/// Groups of named stacks stand in the order of their names, no name twice, and
/// within a group a container that stands before another does not have a later
/// name.
pub proof fn law_groups_are_in_order(
    groups: Seq<StackGroup>,
    cs: Seq<model::ContainerMetrics>,
    g: int,
    h: int,
    i: int,
    j: int,
)
    requires
        are_groups(groups, cs),
    ensures
        0 <= g < h < groups.len() ==> (match (groups[g].key, groups[h].key) {
            (StackKey::Named(x), StackKey::Named(y)) => x@ != y@ && order::text_le(x@, y@),
            (StackKey::Named(_), StackKey::Standalone) => true,
            (StackKey::Standalone, _) => false,
        }),
        0 <= g < groups.len() && 0 <= i < j < groups[g].members@.len() ==> order::text_le(
            groups[g].members@[i].name@,
            groups[g].members@[j].name@,
        ),
        0 <= g < groups.len() && 0 <= i < groups[g].members@.len() ==> cs.contains(
            *groups[g].members@[i],
        ) && text::opt_view(groups[g].members@[i].stack) == (match groups[g].key {
            StackKey::Named(x) => Some(x@),
            StackKey::Standalone => None,
        }),
{
    let keys = group_keys(groups);
    if 0 <= g < h < groups.len() {
        assert(key_before(keys[g], keys[h]));
    }
    if 0 <= g < groups.len() {
        law_groups_hold_their_stack(groups, cs, g);
        let all = refs(cs);
        let own = all.filter(has_key(key_view(groups[g].key)));
        let members = groups[g].members@;
        if 0 <= i < j < members.len() {
            assert(order::Ranked::le(&members[i], &members[j]));
        }
        if 0 <= i < members.len() {
            own.to_multiset_ensures();
            members.to_multiset_ensures();
            assert(members.contains(members[i]));
            assert(own.to_multiset().contains(members[i]));
            assert(own.contains(members[i]));
            let k = choose|k: int| 0 <= k < own.len() && own[k] == members[i];
            all.lemma_filter_pred(has_key(key_view(groups[g].key)), k);
            lemma_filtered_is_listed(all, has_key(key_view(groups[g].key)), k);
            let m = choose|m: int| 0 <= m < all.len() && all[m] == own[k];
            assert(cs[m] == *members[i]);
        }
    }
}

proof fn lemma_filtered_is_listed<T>(s: Seq<T>, p: spec_fn(T) -> bool, k: int)
    requires
        0 <= k < s.filter(p).len(),
    ensures
        s.contains(s.filter(p)[k]),
    decreases s.len(),
{
    reveal(Seq::filter);
    if s.len() > 0 {
        let head = s.drop_last();
        if k < head.filter(p).len() {
            lemma_filtered_is_listed(head, p, k);
            let j = choose|j: int| 0 <= j < head.len() && head[j] == head.filter(p)[k];
            assert(s[j] == s.filter(p)[k]);
        } else {
            assert(s[s.len() - 1] == s.filter(p)[k]);
        }
    }
}

/// States have names of their own.
pub proof fn law_state_names_differ(a: model::ContainerState, b: model::ContainerState)
    requires
        state_text(a) == state_text(b),
    ensures
        a == b,
{
    reveal_strlit("running");
    reveal_strlit("exited");
    reveal_strlit("dead");
    reveal_strlit("paused");
    reveal_strlit("restarting");
    reveal_strlit("stopping");
    reveal_strlit("removing");
    reveal_strlit("created");
    reveal_strlit("unknown");
    assert("running"@.len() == 7 && "running"@[1] == 'u' && "running"@[0] == 'r');
    assert("exited"@.len() == 6 && "exited"@[0] == 'e');
    assert("dead"@.len() == 4);
    assert("paused"@.len() == 6 && "paused"@[0] == 'p');
    assert("restarting"@.len() == 10);
    assert("stopping"@.len() == 8 && "stopping"@[0] == 's');
    assert("removing"@.len() == 8 && "removing"@[0] == 'r');
    assert("created"@.len() == 7 && "created"@[0] == 'c');
    assert("unknown"@.len() == 7 && "unknown"@[0] == 'u');
}

/// A tally counts the containers in each state: those of two lists together are
/// the sums of theirs, and one container counts in one place.
pub proof fn law_tallies_count_states(
    a: Seq<model::ContainerMetrics>,
    b: Seq<model::ContainerMetrics>,
    c: model::ContainerMetrics,
)
    ensures
        (a + b).filter(runs()).len() == a.filter(runs()).len() + b.filter(runs()).len(),
        (a + b).filter(has_exited()).len() == a.filter(has_exited()).len() + b.filter(
            has_exited(),
        ).len(),
        (a + b).filter(is_other()).len() == a.filter(is_other()).len() + b.filter(is_other()).len(),
        (a + b).filter(is_unhealthy()).len() == a.filter(is_unhealthy()).len() + b.filter(
            is_unhealthy(),
        ).len(),
        runs()(c) == (c.state == model::ContainerState::Running),
        has_exited()(c) == (c.state == model::ContainerState::Exited),
        is_other()(c) == (c.state != model::ContainerState::Running && c.state
            != model::ContainerState::Exited),
        is_unhealthy()(c) == (c.health == model::HealthState::Unhealthy),
{
    Seq::filter_distributes_over_add(a, b, runs());
    Seq::filter_distributes_over_add(a, b, has_exited());
    Seq::filter_distributes_over_add(a, b, is_other());
    Seq::filter_distributes_over_add(a, b, is_unhealthy());
}

/// A part of the tally is shown exactly if its count is not zero, behind those
/// that are shown already.
pub proof fn law_zero_counts_are_left_out(
    parts: Seq<(Seq<char>, usize, Seq<char>)>,
    class: Seq<char>,
    count: usize,
    label: Seq<char>,
)
    ensures
        parts.is_prefix_of(with_part(parts, class, count, label)),
        count == 0 ==> with_part(parts, class, count, label).len() == parts.len(),
        count > 0 ==> with_part(parts, class, count, label).len() == parts.len() + 1 && with_part(
            parts,
            class,
            count,
            label,
        ).last() == (class, count, label),
{
}

} // verus!
