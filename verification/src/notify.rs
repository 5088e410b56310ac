//! Notifications for container status changes.
//!
//! Each container has a coarse status: up, unhealthy or down. A change is
//! reported once it has lasted for the incubation delay, so flapping is
//! swallowed. The first status seen of a container is adopted silently.

use vstd::prelude::*;
use vstd::string::*;

use crate::{model, table};

verus! {

/// The notification-worthy status of a container.
#[derive(Clone, Copy, PartialEq, Eq, Debug, Structural)]
pub enum Status {
    /// Running and not failing its healthcheck.
    Up,
    /// Running, but the healthcheck reports unhealthy.
    Unhealthy,
    /// Not running.
    Down,
}

/// The status that a container's state and health amount to.
pub open spec fn status(c: model::ContainerMetrics) -> Status {
    if c.state != model::ContainerState::Running {
        Status::Down
    } else if c.health == model::HealthState::Unhealthy {
        Status::Unhealthy
    } else {
        Status::Up
    }
}

/// The status that a container's state and health amount to.
pub fn status_of(c: &model::ContainerMetrics) -> (r: Status)
    ensures
        r == status(*c),
        (r is Down) == (c.state != model::ContainerState::Running),
        (r is Unhealthy) == (c.state == model::ContainerState::Running && c.health
            == model::HealthState::Unhealthy),
        (r is Up) == (c.state == model::ContainerState::Running && c.health
            != model::HealthState::Unhealthy),
{
    match c.state {
        model::ContainerState::Running => match c.health {
            model::HealthState::Unhealthy => Status::Unhealthy,
            _ => Status::Up,
        },
        _ => Status::Down,
    }
}

/// A message to send: its type and its body.
#[derive(Debug)]
pub struct Notification {
    /// `success`, `warning` or `failure`.
    pub kind: &'static str,
    pub body: String,
}

/// How a message names a container.
pub open spec fn who(host: Seq<char>, c: model::ContainerMetrics) -> Seq<char> {
    let base = "Container '"@ + c.name@ + "'"@;
    let placed = match c.stack {
        Some(stack) => base + " (stack "@ + stack@ + ")"@,
        None => base,
    };
    placed + " on host '"@ + host + "'"@
}

/// The type and the body of the message for a container of `host` that settled
/// into `to`.
pub open spec fn message(host: Seq<char>, c: model::ContainerMetrics, to: Status) -> (
    Seq<char>,
    Seq<char>,
) {
    match to {
        Status::Down => ("failure"@, who(host, c) + " is down — "@ + c.status@),
        Status::Unhealthy => ("warning"@, who(host, c) + " is unhealthy — "@ + c.status@),
        Status::Up => ("success"@, who(host, c) + " recovered — "@ + c.status@),
    }
}

/// The types and the bodies of messages.
pub open spec fn note_views(notes: Seq<Notification>) -> Seq<(Seq<char>, Seq<char>)> {
    notes.map_values(|n: Notification| (n.kind@, n.body@))
}

/// The message for a container of `host` that has settled into `to`.
pub fn notification_for(host: &str, c: &model::ContainerMetrics, to: Status) -> (r: Notification)
    ensures
        (r.kind@, r.body@) == message(host@, *c, to),
{
    let mut body = "Container '".to_owned();
    body.append(c.name.as_str());
    body.append("'");
    match &c.stack {
        Some(stack) => {
            body.append(" (stack ");
            body.append(stack.as_str());
            body.append(")");
        },
        None => {},
    }
    body.append(" on host '");
    body.append(host);
    body.append("'");
    let kind: &'static str = match to {
        Status::Down => {
            body.append(" is down — ");
            "failure"
        },
        Status::Unhealthy => {
            body.append(" is unhealthy — ");
            "warning"
        },
        Status::Up => {
            body.append(" recovered — ");
            "success"
        },
    };
    body.append(c.status.as_str());
    Notification { kind, body }
}

/// What is known about one container between cycles.
#[derive(Clone, Copy, Debug)]
pub struct Watched {
    /// The status last reported: the baseline for comparison.
    pub notified: Status,
    /// A different status that is waiting out the delay, and since when.
    pub pending: Option<(Status, u64)>,
}

/// When a status that differs from the baseline was first observed.
pub open spec fn since(t: Watched, cur: Status, now: u64) -> u64 {
    match t.pending {
        Some((p, at)) => if p == cur {
            at
        } else {
            now
        },
        None => now,
    }
}

/// Whether observing `cur` at `now` makes a report due.
pub open spec fn due(t: Option<Watched>, cur: Status, now: u64, delay: u64) -> bool {
    match t {
        None => false,
        Some(t) => cur != t.notified && (delay == 0 || now - since(t, cur, now) >= delay),
    }
}

/// What is known after observing `cur` at `now`.
pub open spec fn after(t: Option<Watched>, cur: Status, now: u64, delay: u64) -> Watched {
    match t {
        None => Watched { notified: cur, pending: None },
        Some(k) => if cur == k.notified || due(t, cur, now, delay) {
            Watched { notified: cur, pending: None }
        } else {
            Watched { notified: k.notified, pending: Some((cur, since(k, cur, now))) }
        },
    }
}

/// The entry of a key, if the map has one.
pub open spec fn lookup(m: Map<Seq<char>, Watched>, id: Seq<char>) -> Option<Watched> {
    if m.contains_key(id) {
        Some(m[id])
    } else {
        None
    }
}

/// What is known after observing the containers in turn.
pub open spec fn observed(
    m: Map<Seq<char>, Watched>,
    cs: Seq<model::ContainerMetrics>,
    now: u64,
    delay: u64,
) -> Map<Seq<char>, Watched>
    decreases cs.len(),
{
    if cs.len() == 0 {
        m
    } else {
        let before = observed(m, cs.drop_last(), now, delay);
        let c = cs.last();
        before.insert(c.id@, after(lookup(before, c.id@), status(c), now, delay))
    }
}

/// The messages that become due while observing the containers in turn.
pub open spec fn reported(
    host: Seq<char>,
    m: Map<Seq<char>, Watched>,
    cs: Seq<model::ContainerMetrics>,
    now: u64,
    delay: u64,
) -> Seq<(Seq<char>, Seq<char>)>
    decreases cs.len(),
{
    if cs.len() == 0 {
        Seq::empty()
    } else {
        let before = observed(m, cs.drop_last(), now, delay);
        let c = cs.last();
        let notes = reported(host, m, cs.drop_last(), now, delay);
        if due(lookup(before, c.id@), status(c), now, delay) {
            notes.push(message(host, c, status(c)))
        } else {
            notes
        }
    }
}

/// Whether a container with this id is present.
pub open spec fn present(cs: Seq<model::ContainerMetrics>, id: Seq<char>) -> bool {
    exists|i: int| 0 <= i < cs.len() && (#[trigger] cs[i]).id@ == id
}

/// The ids of the present containers.
pub open spec fn present_ids(cs: Seq<model::ContainerMetrics>) -> Set<Seq<char>> {
    Set::new(|id: Seq<char>| present(cs, id))
}

/// Whether no two containers share an id.
pub open spec fn distinct_ids(cs: Seq<model::ContainerMetrics>) -> bool {
    forall|i: int, j: int|
        0 <= i < j < cs.len() ==> (#[trigger] cs[i]).id@ != (#[trigger] cs[j]).id@
}

/// Decides, over successive snapshots, which changes have settled.
pub struct Tracker {
    host: String,
    delay_ms: u64,
    states: table::Table<Watched>,
}

/// What folding one snapshot in does: the due messages come out, and only the
/// containers of the snapshot are remembered.
pub open spec fn evaluated(
    before: Tracker,
    after: Tracker,
    ts_ms: u64,
    cs: Seq<model::ContainerMetrics>,
    notes: Seq<Notification>,
) -> bool {
    &&& after.host() == before.host()
    &&& after.delay() == before.delay()
    &&& after.states() == observed(before.states(), cs, ts_ms, before.delay()).restrict(
        present_ids(cs),
    )
    &&& note_views(notes) == reported(before.host(), before.states(), cs, ts_ms, before.delay())
}

impl Tracker {
    /// The host that messages name.
    pub closed spec fn host(&self) -> Seq<char> {
        self.host@
    }

    /// How long a new status must last before it is reported.
    pub closed spec fn delay(&self) -> u64 {
        self.delay_ms
    }

    /// What is known, by container id.
    pub closed spec fn states(&self) -> Map<Seq<char>, Watched> {
        self.states@
    }

    /// A tracker for the containers of `host` that knows none of them yet.
    pub fn new(host: String, delay_ms: u64) -> (r: Self)
        ensures
            r.host() == host@,
            r.delay() == delay_ms,
            r.states() == Map::<Seq<char>, Watched>::empty(),
    {
        Tracker { host, delay_ms, states: table::Table::new() }
    }

    /// Whether no container is known.
    pub fn is_empty(&self) -> (r: bool)
        ensures
            r == (self.states() == Map::<Seq<char>, Watched>::empty()),
    {
        self.states.is_empty()
    }

    /// Fold one snapshot in and return the messages that became due. Containers
    /// that are gone are forgotten.
    pub fn evaluate(&mut self, ts_ms: u64, containers: &[model::ContainerMetrics]) -> (out: Vec<
        Notification,
    >)
        ensures
            evaluated(*old(self), *final(self), ts_ms, containers@, out@),
    {
        let ghost start = self.states@;
        let ghost delay = self.delay_ms;
        let ghost host = self.host@;
        let mut out: Vec<Notification> = Vec::new();
        let mut seen: Vec<&str> = Vec::new();
        let mut i: usize = 0;
        proof {
            assert(containers@.take(0) =~= Seq::empty());
            assert(note_views(out@) =~= Seq::empty());
        }
        while i < containers.len()
            invariant
                i <= containers.len(),
                self.delay_ms == delay,
                self.host@ == host,
                self.states@ == observed(start, containers@.take(i as int), ts_ms, delay),
                note_views(out@) == reported(host, start, containers@.take(i as int), ts_ms, delay),
                seen.len() == i,
                forall|j: int| 0 <= j < i ==> (#[trigger] seen[j])@ == containers[j].id@,
            decreases containers.len() - i,
        {
            let c = &containers[i];
            let ghost prefix = containers@.take(i + 1);
            let ghost notes = note_views(out@);
            proof {
                assert(prefix.drop_last() =~= containers@.take(i as int));
                assert(prefix.last() == *c);
            }
            seen.push(c.id.as_str());
            let cur = status_of(c);
            match self.states.get(c.id.as_str()) {
                None => {
                    self.states.set(c.id.clone(), Watched { notified: cur, pending: None });
                },
                Some(t) => {
                    if cur == t.notified {
                        self.states.set(c.id.clone(), Watched { notified: cur, pending: None });
                    } else {
                        let from: u64 = match t.pending {
                            Some((p, at)) => if p == cur {
                                at
                            } else {
                                ts_ms
                            },
                            None => ts_ms,
                        };
                        if ts_ms.saturating_sub(from) >= self.delay_ms {
                            let note = notification_for(self.host.as_str(), c, cur);
                            out.push(note);
                            proof {
                                assert(note_views(out@) =~= notes.push(message(host, *c, cur)));
                            }
                            self.states.set(c.id.clone(), Watched { notified: cur, pending: None });
                        } else {
                            self.states.set(
                                c.id.clone(),
                                Watched { notified: t.notified, pending: Some((cur, from)) },
                            );
                        }
                    }
                },
            }
            i += 1;
        }
        proof {
            assert(containers@.take(containers.len() as int) =~= containers@);
            assert forall|id: Seq<char>| table::is_live(seen@, id) == present(containers@, id) by {
                if present(containers@, id) {
                    let j = choose|j: int|
                        0 <= j < containers@.len() && (#[trigger] containers@[j]).id@ == id;
                    assert(seen@[j]@ == id);
                }
                if table::is_live(seen@, id) {
                    let j = choose|j: int| 0 <= j < seen@.len() && (#[trigger] seen@[j])@ == id;
                    assert(containers@[j].id@ == id);
                }
            }
            assert(Set::new(|k: Seq<char>| table::is_live(seen@, k)) =~= present_ids(containers@));
        }
        self.states.retain(&seen);
        out
    }
}

// ---------------------------------------------------------------------------
// Laws
// ---------------------------------------------------------------------------

/// Observing containers changes nothing about the others.
proof fn lemma_others_untouched(
    m: Map<Seq<char>, Watched>,
    cs: Seq<model::ContainerMetrics>,
    now: u64,
    delay: u64,
    id: Seq<char>,
)
    requires
        !present(cs, id),
    ensures
        lookup(observed(m, cs, now, delay), id) == lookup(m, id),
    decreases cs.len(),
{
    if cs.len() > 0 {
        let head = cs.drop_last();
        assert(cs[cs.len() - 1].id@ != id);
        assert(!present(head, id)) by {
            if present(head, id) {
                let i = choose|i: int| 0 <= i < head.len() && (#[trigger] head[i]).id@ == id;
                assert(cs[i].id@ == id);
            }
        }
        lemma_others_untouched(m, head, now, delay, id);
    }
}

/// Each container's entry follows from its own previous entry and its own
/// status alone, whatever the other containers do.
pub proof fn law_containers_are_independent(
    m: Map<Seq<char>, Watched>,
    cs: Seq<model::ContainerMetrics>,
    now: u64,
    delay: u64,
    i: int,
)
    requires
        distinct_ids(cs),
        0 <= i < cs.len(),
    ensures
        lookup(observed(m, cs, now, delay), cs[i].id@) == Some(
            after(lookup(m, cs[i].id@), status(cs[i]), now, delay),
        ),
    decreases cs.len(),
{
    let head = cs.drop_last();
    assert(distinct_ids(head));
    if i < cs.len() - 1 {
        law_containers_are_independent(m, head, now, delay, i);
        assert(head[i] == cs[i]);
        assert(cs[i].id@ != cs[cs.len() - 1].id@);
    } else {
        assert(!present(head, cs[i].id@)) by {
            if present(head, cs[i].id@) {
                let j = choose|j: int| 0 <= j < head.len() && (#[trigger] head[j]).id@ == cs[i].id@;
                assert(cs[j].id@ == cs[i].id@);
            }
        }
        lemma_others_untouched(m, head, now, delay, cs[i].id@);
    }
}

/// The messages for the containers whose own history makes a report due, in
/// the order of the snapshot.
pub open spec fn due_messages(
    host: Seq<char>,
    m: Map<Seq<char>, Watched>,
    cs: Seq<model::ContainerMetrics>,
    now: u64,
    delay: u64,
) -> Seq<(Seq<char>, Seq<char>)>
    decreases cs.len(),
{
    if cs.len() == 0 {
        Seq::empty()
    } else {
        let c = cs.last();
        let notes = due_messages(host, m, cs.drop_last(), now, delay);
        if due(lookup(m, c.id@), status(c), now, delay) {
            notes.push(message(host, c, status(c)))
        } else {
            notes
        }
    }
}

/// What is reported is what each container's own history makes due.
pub proof fn law_reports_are_independent(
    host: Seq<char>,
    m: Map<Seq<char>, Watched>,
    cs: Seq<model::ContainerMetrics>,
    now: u64,
    delay: u64,
)
    requires
        distinct_ids(cs),
    ensures
        reported(host, m, cs, now, delay) == due_messages(host, m, cs, now, delay),
    decreases cs.len(),
{
    if cs.len() > 0 {
        let head = cs.drop_last();
        let c = cs.last();
        assert(distinct_ids(head));
        law_reports_are_independent(host, m, head, now, delay);
        assert(!present(head, c.id@)) by {
            if present(head, c.id@) {
                let j = choose|j: int| 0 <= j < head.len() && (#[trigger] head[j]).id@ == c.id@;
                assert(cs[j].id@ == cs[cs.len() - 1].id@);
            }
        }
        lemma_others_untouched(m, head, now, delay, c.id@);
    }
}

/// Containers that were not known before are adopted without a message.
pub proof fn law_first_sighting_is_silent(
    host: Seq<char>,
    m: Map<Seq<char>, Watched>,
    cs: Seq<model::ContainerMetrics>,
    now: u64,
    delay: u64,
)
    requires
        distinct_ids(cs),
        forall|i: int| 0 <= i < cs.len() ==> !m.contains_key((#[trigger] cs[i]).id@),
    ensures
        reported(host, m, cs, now, delay) == Seq::<(Seq<char>, Seq<char>)>::empty(),
        forall|i: int|
            0 <= i < cs.len() ==> lookup(observed(m, cs, now, delay), (#[trigger] cs[i]).id@)
                == Some(Watched { notified: status(cs[i]), pending: None }),
    decreases cs.len(),
{
    assert forall|i: int| 0 <= i < cs.len() implies lookup(
        observed(m, cs, now, delay),
        (#[trigger] cs[i]).id@,
    ) == Some(Watched { notified: status(cs[i]), pending: None }) by {
        law_containers_are_independent(m, cs, now, delay, i);
    }
    law_reports_are_independent(host, m, cs, now, delay);
    lemma_nothing_due(host, m, cs, now, delay);
}

proof fn lemma_nothing_due(
    host: Seq<char>,
    m: Map<Seq<char>, Watched>,
    cs: Seq<model::ContainerMetrics>,
    now: u64,
    delay: u64,
)
    requires
        forall|i: int|
            0 <= i < cs.len() ==> !due(
                lookup(m, (#[trigger] cs[i]).id@),
                status(cs[i]),
                now,
                delay,
            ),
    ensures
        due_messages(host, m, cs, now, delay) == Seq::<(Seq<char>, Seq<char>)>::empty(),
    decreases cs.len(),
{
    if cs.len() > 0 {
        assert(!due(lookup(m, cs[cs.len() - 1].id@), status(cs[cs.len() - 1]), now, delay));
        let head = cs.drop_last();
        assert forall|i: int| 0 <= i < head.len() implies !due(
            lookup(m, (#[trigger] head[i]).id@),
            status(head[i]),
            now,
            delay,
        ) by {
            assert(head[i] == cs[i]);
        }
        lemma_nothing_due(host, m, head, now, delay);
    }
}

/// A report comes only once the new status has lasted for the delay: it was
/// already pending, and the pending status was first seen that long ago.
pub proof fn law_report_waits_out_the_delay(t: Watched, cur: Status, now: u64, delay: u64)
    requires
        due(Some(t), cur, now, delay),
        delay > 0,
    ensures
        cur != t.notified,
        t.pending matches Some((p, at)) && p == cur && now - at >= delay,
{
}

/// A status that comes back to the baseline before a report is due is
/// forgotten: nothing is reported, and the next change starts over.
pub proof fn law_flap_is_swallowed(t: Watched, cur: Status, away: u64, back: u64, delay: u64)
    requires
        cur != t.notified,
        !due(Some(t), cur, away, delay),
    ensures
        !due(Some(after(Some(t), cur, away, delay)), t.notified, back, delay),
        after(Some(after(Some(t), cur, away, delay)), t.notified, back, delay) == (Watched {
            notified: t.notified,
            pending: None,
        }),
{
}

/// When the target of a pending change moves, the wait starts again.
pub proof fn law_shifting_target_restarts_the_timer(
    t: Watched,
    target: Status,
    other: Status,
    now: u64,
    delay: u64,
)
    requires
        t.pending matches Some((p, _)) && p == other,
        other != target,
        target != t.notified,
        delay > 0,
    ensures
        !due(Some(t), target, now, delay),
        after(Some(t), target, now, delay) == (Watched {
            notified: t.notified,
            pending: Some((target, now)),
        }),
{
}

/// What is known after observing the same status at several times.
pub open spec fn after_all(t: Watched, cur: Status, times: Seq<u64>, delay: u64) -> Watched
    decreases times.len(),
{
    if times.len() == 0 {
        t
    } else {
        after(Some(after_all(t, cur, times.drop_last(), delay)), cur, times.last(), delay)
    }
}

/// Whether the delay is over at time `k`, counted from the first.
pub open spec fn waited(times: Seq<u64>, k: int, delay: u64) -> bool {
    times[k] - times[0] >= delay
}

proof fn lemma_steady(t: Watched, cur: Status, times: Seq<u64>, delay: u64, k: int)
    requires
        t.pending is None,
        cur != t.notified,
        0 < k <= times.len(),
        forall|i: int, j: int| 0 <= i <= j < times.len() ==> times[i] <= times[j],
    ensures
        after_all(t, cur, times.take(k), delay) == (if waited(times, k - 1, delay) {
            Watched { notified: cur, pending: None }
        } else {
            Watched { notified: t.notified, pending: Some((cur, times[0])) }
        }),
    decreases k,
{
    assert(times.take(k).drop_last() =~= times.take(k - 1));
    assert(times.take(k).last() == times[k - 1]);
    if k == 1 {
        assert(times.take(0) =~= Seq::empty());
        reveal_with_fuel(after_all, 2);
    } else {
        lemma_steady(t, cur, times, delay, k - 1);
        assert(times[0] <= times[k - 2] <= times[k - 1]);
    }
}

/// A change that keeps its target is reported once: at the first of the times
/// it is observed at which the delay, counted from the first of them, is over.
pub proof fn law_steady_change_is_reported_once(
    t: Watched,
    cur: Status,
    times: Seq<u64>,
    delay: u64,
    k: int,
)
    requires
        t.pending is None,
        cur != t.notified,
        0 <= k < times.len(),
        forall|i: int, j: int| 0 <= i <= j < times.len() ==> times[i] <= times[j],
    ensures
        due(Some(after_all(t, cur, times.take(k), delay)), cur, times[k], delay) == (waited(
            times,
            k,
            delay,
        ) && (k > 0 ==> !waited(times, k - 1, delay))),
{
    if k == 0 {
        assert(times.take(0) =~= Seq::empty());
    } else {
        lemma_steady(t, cur, times, delay, k);
        assert(times[0] <= times[k - 1] <= times[k]);
    }
}

/// Only containers of the last snapshot are remembered, and all of them are.
pub proof fn law_vanished_containers_are_forgotten(
    m: Map<Seq<char>, Watched>,
    cs: Seq<model::ContainerMetrics>,
    now: u64,
    delay: u64,
)
    ensures
        observed(m, cs, now, delay).restrict(present_ids(cs)).dom() =~= present_ids(cs),
    decreases cs.len(),
{
    lemma_present_are_observed(m, cs, now, delay);
    assert forall|id: Seq<char>| present_ids(cs).contains(id) implies observed(
        m,
        cs,
        now,
        delay,
    ).contains_key(id) by {
        let i = choose|i: int| 0 <= i < cs.len() && (#[trigger] cs[i]).id@ == id;
        assert(observed(m, cs, now, delay).contains_key(cs[i].id@));
    }
}

proof fn lemma_present_are_observed(
    m: Map<Seq<char>, Watched>,
    cs: Seq<model::ContainerMetrics>,
    now: u64,
    delay: u64,
)
    ensures
        forall|i: int|
            0 <= i < cs.len() ==> observed(m, cs, now, delay).contains_key((#[trigger] cs[i]).id@),
    decreases cs.len(),
{
    if cs.len() > 0 {
        let head = cs.drop_last();
        lemma_present_are_observed(m, head, now, delay);
        assert forall|i: int| 0 <= i < cs.len() implies observed(m, cs, now, delay).contains_key(
            (#[trigger] cs[i]).id@,
        ) by {
            if i < cs.len() - 1 {
                assert(head[i] == cs[i]);
            }
        }
    }
}

/// A container is down exactly if it is in any state but running, and unhealthy
/// exactly if it runs and its healthcheck says so.
pub proof fn law_only_running_containers_are_up(c: model::ContainerMetrics)
    ensures
        (status(c) is Down) == (c.state != model::ContainerState::Running),
        (status(c) is Unhealthy) == (c.state == model::ContainerState::Running && c.health
            == model::HealthState::Unhealthy),
        (status(c) is Up) == (c.state == model::ContainerState::Running && c.health
            != model::HealthState::Unhealthy),
{
}

/// Whether a container has departed from its baseline for the delay: with no
/// delay at once, and otherwise since a time at which the same status was first
/// seen.
pub open spec fn settled(t: Watched, cur: Status, now: u64, delay: u64) -> bool {
    delay == 0 || (t.pending matches Some((p, at)) && p == cur && now >= at && now - at >= delay)
}

/// What is known of a container settles whether it is reported: exactly if its
/// status is not the baseline and has lasted for the delay.
proof fn lemma_due_is_settled(t: Watched, cur: Status, now: u64, delay: u64)
    ensures
        due(Some(t), cur, now, delay) == (cur != t.notified && settled(t, cur, now, delay)),
{
}

proof fn lemma_due_is_among(
    host: Seq<char>,
    m: Map<Seq<char>, Watched>,
    cs: Seq<model::ContainerMetrics>,
    now: u64,
    delay: u64,
    i: int,
)
    requires
        0 <= i < cs.len(),
        due(lookup(m, cs[i].id@), status(cs[i]), now, delay),
    ensures
        due_messages(host, m, cs, now, delay).contains(message(host, cs[i], status(cs[i]))),
    decreases cs.len(),
{
    let head = cs.drop_last();
    let all = due_messages(host, m, cs, now, delay);
    let note = message(host, cs[i], status(cs[i]));
    if i < cs.len() - 1 {
        assert(head[i] == cs[i]);
        lemma_due_is_among(host, m, head, now, delay, i);
        let before = due_messages(host, m, head, now, delay);
        let k = choose|k: int| 0 <= k < before.len() && before[k] == note;
        assert(all[k] == note);
    } else {
        assert(all[all.len() - 1] == note);
    }
}

/// How a message begins: it names the container, its stack if it has one, and the
/// host.
pub open spec fn names_the_container(
    body: Seq<char>,
    host: Seq<char>,
    c: model::ContainerMetrics,
    rest: Seq<char>,
) -> bool {
    body == (match c.stack {
        Some(stack) => "Container '"@ + c.name@ + "'"@ + " (stack "@ + stack@ + ")"@
            + " on host '"@ + host + "'"@ + rest,
        None => "Container '"@ + c.name@ + "'"@ + " on host '"@ + host + "'"@ + rest,
    })
}

/// A known container that is found in another state than running, and that was up
/// or unhealthy when it was last reported, yields a failure message as soon as it
/// has been down for the delay.
pub proof fn law_going_down_is_a_failure(
    host: Seq<char>,
    m: Map<Seq<char>, Watched>,
    cs: Seq<model::ContainerMetrics>,
    now: u64,
    delay: u64,
    i: int,
)
    requires
        distinct_ids(cs),
        0 <= i < cs.len(),
        m.contains_key(cs[i].id@),
        !(m[cs[i].id@].notified is Down),
        cs[i].state != model::ContainerState::Running,
        settled(m[cs[i].id@], Status::Down, now, delay),
    ensures
        exists|body: Seq<char>|
            #[trigger] reported(host, m, cs, now, delay).contains(("failure"@, body))
                && names_the_container(body, host, cs[i], " is down — "@ + cs[i].status@),
{
    law_reports_are_independent(host, m, cs, now, delay);
    lemma_due_is_settled(m[cs[i].id@], Status::Down, now, delay);
    lemma_due_is_among(host, m, cs, now, delay, i);
    let body = message(host, cs[i], Status::Down).1;
    lemma_message_names(host, cs[i], " is down — "@);
    assert(reported(host, m, cs, now, delay).contains(("failure"@, body)));
}

proof fn lemma_message_names(host: Seq<char>, c: model::ContainerMetrics, what: Seq<char>)
    ensures
        names_the_container(who(host, c) + what + c.status@, host, c, what + c.status@),
{
    match c.stack {
        Some(stack) => {
            assert(who(host, c) + what + c.status@ =~= "Container '"@ + c.name@ + "'"@
                + " (stack "@ + stack@ + ")"@ + " on host '"@ + host + "'"@ + (what + c.status@));
        },
        None => {
            assert(who(host, c) + what + c.status@ =~= "Container '"@ + c.name@ + "'"@
                + " on host '"@ + host + "'"@ + (what + c.status@));
        },
    }
}

/// A known container that runs and whose healthcheck fails, and that was up or
/// down when it was last reported, yields a warning as soon as that has lasted
/// for the delay.
pub proof fn law_failing_healthchecks_are_warned_of(
    host: Seq<char>,
    m: Map<Seq<char>, Watched>,
    cs: Seq<model::ContainerMetrics>,
    now: u64,
    delay: u64,
    i: int,
)
    requires
        distinct_ids(cs),
        0 <= i < cs.len(),
        m.contains_key(cs[i].id@),
        !(m[cs[i].id@].notified is Unhealthy),
        cs[i].state == model::ContainerState::Running,
        cs[i].health == model::HealthState::Unhealthy,
        settled(m[cs[i].id@], Status::Unhealthy, now, delay),
    ensures
        exists|body: Seq<char>|
            #[trigger] reported(host, m, cs, now, delay).contains(("warning"@, body))
                && names_the_container(body, host, cs[i], " is unhealthy — "@ + cs[i].status@),
{
    law_reports_are_independent(host, m, cs, now, delay);
    lemma_due_is_settled(m[cs[i].id@], Status::Unhealthy, now, delay);
    lemma_due_is_among(host, m, cs, now, delay, i);
    let body = message(host, cs[i], Status::Unhealthy).1;
    lemma_message_names(host, cs[i], " is unhealthy — "@);
    assert(reported(host, m, cs, now, delay).contains(("warning"@, body)));
}

/// A known container that runs without a failing healthcheck, and that was down or
/// unhealthy when it was last reported, yields a success message as soon as that
/// has lasted for the delay.
pub proof fn law_recoveries_are_reported(
    host: Seq<char>,
    m: Map<Seq<char>, Watched>,
    cs: Seq<model::ContainerMetrics>,
    now: u64,
    delay: u64,
    i: int,
)
    requires
        distinct_ids(cs),
        0 <= i < cs.len(),
        m.contains_key(cs[i].id@),
        !(m[cs[i].id@].notified is Up),
        cs[i].state == model::ContainerState::Running,
        cs[i].health != model::HealthState::Unhealthy,
        settled(m[cs[i].id@], Status::Up, now, delay),
    ensures
        exists|body: Seq<char>|
            #[trigger] reported(host, m, cs, now, delay).contains(("success"@, body))
                && names_the_container(body, host, cs[i], " recovered — "@ + cs[i].status@),
{
    law_reports_are_independent(host, m, cs, now, delay);
    lemma_due_is_settled(m[cs[i].id@], Status::Up, now, delay);
    lemma_due_is_among(host, m, cs, now, delay, i);
    let body = message(host, cs[i], Status::Up).1;
    lemma_message_names(host, cs[i], " recovered — "@);
    assert(reported(host, m, cs, now, delay).contains(("success"@, body)));
}

/// Whether a container was known, its status is another than the one last
/// reported, and it has settled.
pub open spec fn has_changed(
    m: Map<Seq<char>, Watched>,
    c: model::ContainerMetrics,
    now: u64,
    delay: u64,
) -> bool {
    m.contains_key(c.id@) && status(c) != m[c.id@].notified && settled(
        m[c.id@],
        status(c),
        now,
        delay,
    )
}

/// There is one message for each container that has changed and settled, and none
/// for any other.
pub proof fn law_one_message_for_each_change(
    host: Seq<char>,
    m: Map<Seq<char>, Watched>,
    cs: Seq<model::ContainerMetrics>,
    now: u64,
    delay: u64,
)
    requires
        distinct_ids(cs),
    ensures
        reported(host, m, cs, now, delay).len() == cs.filter(
            |c: model::ContainerMetrics| has_changed(m, c, now, delay),
        ).len(),
    decreases cs.len(),
{
    law_reports_are_independent(host, m, cs, now, delay);
    reveal(Seq::filter);
    if cs.len() > 0 {
        let head = cs.drop_last();
        let c = cs.last();
        assert(distinct_ids(head));
        law_reports_are_independent(host, m, head, now, delay);
        law_one_message_for_each_change(host, m, head, now, delay);
        if m.contains_key(c.id@) {
            lemma_due_is_settled(m[c.id@], status(c), now, delay);
        }
    }
}

/// After a report the reported status is the baseline, so that it is not reported
/// again; and until a change has settled the baseline stays, with the time at
/// which the change was first seen.
pub proof fn law_baseline_moves_with_reports(
    m: Map<Seq<char>, Watched>,
    cs: Seq<model::ContainerMetrics>,
    now: u64,
    delay: u64,
    i: int,
)
    requires
        distinct_ids(cs),
        0 <= i < cs.len(),
        m.contains_key(cs[i].id@),
    ensures
        ({
            let c = cs[i];
            let t = m[c.id@];
            let next = observed(m, cs, now, delay).restrict(present_ids(cs));
            &&& next.contains_key(c.id@)
            &&& next[c.id@].notified == (if has_changed(m, c, now, delay) {
                status(c)
            } else {
                t.notified
            })
            &&& (status(c) == t.notified || has_changed(m, c, now, delay))
                ==> next[c.id@].pending is None
            &&& (status(c) != t.notified && !has_changed(m, c, now, delay)) ==> (
            next[c.id@].pending matches Some((p, at)) && p == status(c) && match t.pending {
                Some((q, first)) => at == (if q == p {
                    first
                } else {
                    now
                }),
                None => at == now,
            })
        }),
{
    law_containers_are_independent(m, cs, now, delay, i);
    lemma_due_is_settled(m[cs[i].id@], status(cs[i]), now, delay);
    assert(present(cs, cs[i].id@));
}

/// Folding in a snapshot keeps the host and the delay, remembers the containers of
/// the snapshot and no others, and gives one message for each container that has
/// changed and settled.
pub proof fn law_evaluation_reports_and_remembers(
    before: Tracker,
    after: Tracker,
    ts_ms: u64,
    cs: Seq<model::ContainerMetrics>,
    notes: Seq<Notification>,
    id: Seq<char>,
)
    requires
        evaluated(before, after, ts_ms, cs, notes),
        distinct_ids(cs),
    ensures
        after.host() == before.host(),
        after.delay() == before.delay(),
        after.states().contains_key(id) == (exists|i: int|
            0 <= i < cs.len() && (#[trigger] cs[i]).id@ == id),
        notes.len() == cs.filter(
            |c: model::ContainerMetrics| has_changed(before.states(), c, ts_ms, before.delay()),
        ).len(),
{
    law_one_message_for_each_change(before.host(), before.states(), cs, ts_ms, before.delay());
    law_vanished_containers_are_forgotten(before.states(), cs, ts_ms, before.delay());
    assert(note_views(notes).len() == notes.len());
    assert(present_ids(cs).contains(id) == present(cs, id));
    assert(after.states().contains_key(id) == after.states().dom().contains(id));
}

/// A tracker that last reported a container as up or unhealthy sends a failure
/// message that names it, as soon as it has been in another state than running
/// for the delay.
pub proof fn law_evaluation_reports_going_down(
    before: Tracker,
    after: Tracker,
    ts_ms: u64,
    cs: Seq<model::ContainerMetrics>,
    notes: Seq<Notification>,
    i: int,
)
    requires
        evaluated(before, after, ts_ms, cs, notes),
        distinct_ids(cs),
        0 <= i < cs.len(),
        before.states().contains_key(cs[i].id@),
        !(before.states()[cs[i].id@].notified is Down),
        cs[i].state != model::ContainerState::Running,
        settled(before.states()[cs[i].id@], Status::Down, ts_ms, before.delay()),
    ensures
        exists|k: int|
            0 <= k < notes.len() && (#[trigger] notes[k]).kind@ == "failure"@
                && names_the_container(
                notes[k].body@,
                before.host(),
                cs[i],
                " is down — "@ + cs[i].status@,
            ),
{
    law_going_down_is_a_failure(before.host(), before.states(), cs, ts_ms, before.delay(), i);
    let views = note_views(notes);
    let body = choose|body: Seq<char>|
        #[trigger] reported(
            before.host(),
            before.states(),
            cs,
            ts_ms,
            before.delay(),
        ).contains(("failure"@, body)) && names_the_container(
            body,
            before.host(),
            cs[i],
            " is down — "@ + cs[i].status@,
        );
    let k = choose|k: int| 0 <= k < views.len() && views[k] == ("failure"@, body);
    assert(views[k] == (notes[k].kind@, notes[k].body@));
}

} // verus!
