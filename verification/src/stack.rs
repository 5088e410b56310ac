//! Compose stacks: members, their dependencies, and the order of work.
//!
//! A stack is started with dependencies first and stopped in reverse. Which
//! dependencies its members have, and the order that they make, are decided
//! here; [`crate::lifecycle`] decides on waiting, retrying and giving up.

use vstd::prelude::*;
use vstd::seq_lib::*;
use vstd::string::*;

use crate::text;

verus! {

/// What a dependent waits for.
#[derive(Debug, Clone, Copy, PartialEq, Eq, Structural)]
pub enum DepCondition {
    Started,
    Healthy,
    CompletedSuccessfully,
}

/// One dependency of a member.
#[derive(Debug, Clone, PartialEq, Eq)]
pub struct Dep {
    pub service: String,
    pub condition: DepCondition,
}

/// A member of a stack and its dependencies.
#[derive(Debug, Clone, PartialEq, Eq)]
pub struct Member {
    pub id: String,
    pub service: String,
    pub deps: Vec<Dep>,
}

/// The outcome of an action on a whole stack.
#[derive(Debug, Clone, Copy, PartialEq, Eq, Structural)]
pub struct StackOutcome {
    pub total: usize,
    pub failed: usize,
}

// ---------------------------------------------------------------------------
// Reading dependencies
// ---------------------------------------------------------------------------

/// A dependency as plain values.
pub open spec fn dep_view(d: Dep) -> (Seq<char>, DepCondition) {
    (d.service@, d.condition)
}

/// Dependencies as plain values.
pub open spec fn dep_views(deps: Seq<Dep>) -> Seq<(Seq<char>, DepCondition)> {
    deps.map_values(|d: Dep| dep_view(d))
}

/// The condition that a label's second field names.
pub open spec fn condition_of(field: Option<Seq<char>>) -> DepCondition {
    if field == Some("service_healthy"@) {
        DepCondition::Healthy
    } else if field == Some("service_completed_successfully"@) {
        DepCondition::CompletedSuccessfully
    } else {
        DepCondition::Started
    }
}

/// The dependency that one entry of a label stands for: a service, and the
/// condition in the second of its fields. An entry without a service is none.
pub open spec fn dep_of_entry(entry: Seq<char>) -> Option<(Seq<char>, DepCondition)> {
    let fields = text::pieces(text::trimmed(entry), ':');
    let service = text::trimmed(fields[0]);
    if service.len() == 0 {
        None
    } else {
        Some(
            (
                service,
                condition_of(
                    if fields.len() > 1 {
                        Some(fields[1])
                    } else {
                        None
                    },
                ),
            ),
        )
    }
}

/// The dependencies that the entries of a label stand for, in order.
pub open spec fn deps_of_entries(entries: Seq<Seq<char>>) -> Seq<(Seq<char>, DepCondition)>
    decreases entries.len(),
{
    if entries.len() == 0 {
        Seq::empty()
    } else {
        let before = deps_of_entries(entries.drop_last());
        match dep_of_entry(entries.last()) {
            Some(d) => before.push(d),
            None => before,
        }
    }
}

/// Parse a dependency label: `service:condition:restart` entries, separated by
/// commas.
pub fn parse_depends_on(label: &str) -> (r: Vec<Dep>)
    ensures
        dep_views(r@) == deps_of_entries(text::pieces(label@, ',')),
{
    let entries = text::split(label, ',');
    let ghost all = text::slice_views(entries@);
    let mut out: Vec<Dep> = Vec::new();
    let mut i: usize = 0;
    proof {
        assert(all.take(0) =~= Seq::empty());
        assert(dep_views(out@) =~= Seq::empty());
    }
    while i < entries.len()
        invariant
            i <= entries.len(),
            all == text::slice_views(entries@),
            dep_views(out@) == deps_of_entries(all.take(i as int)),
        decreases entries.len() - i,
    {
        let ghost before = dep_views(out@);
        proof {
            assert(all.take(i + 1).drop_last() =~= all.take(i as int));
            assert(all.take(i + 1).last() == entries[i as int]@);
        }
        let fields = text::split(text::trim(entries[i]), ':');
        let ghost parts = text::slice_views(fields@);
        proof {
            assert(parts[0] == fields[0]@);
            assert(fields.len() > 1 ==> parts[1] == fields[1]@);
        }
        let service = text::trim(fields[0]);
        if !service.is_empty() {
            let condition: DepCondition = if fields.len() > 1 && text::same(
                fields[1],
                "service_healthy",
            ) {
                DepCondition::Healthy
            } else if fields.len() > 1 && text::same(fields[1], "service_completed_successfully") {
                DepCondition::CompletedSuccessfully
            } else {
                DepCondition::Started
            };
            let d = Dep { service: service.to_owned(), condition };
            proof {
                assert(dep_of_entry(entries[i as int]@) == Some(dep_view(d)));
            }
            out.push(d);
            proof {
                assert(dep_views(out@) =~= before.push(dep_view(d)));
            }
        }
        i += 1;
    }
    proof {
        assert(all.take(entries.len() as int) =~= all);
    }
    out
}

/// The service of the last of `ids` that is exactly `target`.
pub open spec fn exact_service(ids: Seq<(String, String)>, target: Seq<char>) -> Option<Seq<char>>
    decreases ids.len(),
{
    if ids.len() == 0 {
        None
    } else if ids.last().0@ == target {
        Some(ids.last().1@)
    } else {
        exact_service(ids.drop_last(), target)
    }
}

/// Whether one of two ids is a shortened form of the other.
pub open spec fn short_match(id: Seq<char>, target: Seq<char>) -> bool {
    target.is_prefix_of(id) || id.is_prefix_of(target)
}

/// The service of the first of `ids` of which one is a short form of the other.
pub open spec fn short_service(ids: Seq<(String, String)>, target: Seq<char>) -> Option<Seq<char>>
    decreases ids.len(),
{
    if ids.len() == 0 {
        None
    } else if short_match(ids[0].0@, target) {
        Some(ids[0].1@)
    } else {
        short_service(ids.skip(1), target)
    }
}

/// The service that a container reference names: by the full id, or else by a
/// short one.
pub open spec fn service_of(ids: Seq<(String, String)>, target: Seq<char>) -> Option<Seq<char>> {
    match exact_service(ids, target) {
        Some(s) => Some(s),
        None => short_service(ids, target),
    }
}

/// Resolve a container reference to the service of a member of the stack. Full
/// ids are matched first, then short ones. `None` when the container is not
/// part of the stack.
pub fn resolve_service(service_by_id: &Vec<(String, String)>, target_id: &str) -> (r: Option<
    String,
>)
    ensures
        text::opt_view(r) == service_of(service_by_id@, target_id@),
{
    let ghost ids = service_by_id@;
    let mut i: usize = service_by_id.len();
    proof {
        assert(ids.take(ids.len() as int) =~= ids);
    }
    while i > 0
        invariant
            i <= service_by_id.len(),
            ids == service_by_id@,
            exact_service(ids, target_id@) == exact_service(ids.take(i as int), target_id@),
        decreases i,
    {
        proof {
            assert(ids.take(i as int).drop_last() =~= ids.take(i - 1));
        }
        if text::same(service_by_id[i - 1].0.as_str(), target_id) {
            return Some(service_by_id[i - 1].1.clone());
        }
        i -= 1;
    }
    let mut j: usize = 0;
    proof {
        assert(ids.skip(0) =~= ids);
    }
    while j < service_by_id.len()
        invariant
            j <= service_by_id.len(),
            ids == service_by_id@,
            exact_service(ids, target_id@) is None,
            short_service(ids, target_id@) == short_service(ids.skip(j as int), target_id@),
        decreases service_by_id.len() - j,
    {
        proof {
            assert(ids.skip(j as int)[0] == ids[j as int]);
            assert(ids.skip(j as int).skip(1) =~= ids.skip(j + 1));
        }
        let id = service_by_id[j].0.as_str();
        if text::starts_with(id, target_id) || text::starts_with(target_id, id) {
            return Some(service_by_id[j].1.clone());
        }
        j += 1;
    }
    None
}

/// The container that a namespace mode refers to.
pub open spec fn namespace_target(mode: Option<String>) -> Option<Seq<char>> {
    match mode {
        Some(m) => if "container:"@.is_prefix_of(m@) {
            Some(m@.skip("container:"@.len() as int))
        } else {
            None
        },
        None => None,
    }
}

/// A list with one more item, if there is one.
pub open spec fn push_some(s: Seq<Seq<char>>, x: Option<Seq<char>>) -> Seq<Seq<char>> {
    match x {
        Some(v) => s.push(v),
        None => s,
    }
}

fn push_target(out: &mut Vec<String>, mode: &Option<String>)
    ensures
        text::string_views(final(out)@) == push_some(
            text::string_views(old(out)@),
            namespace_target(*mode),
        ),
{
    let ghost before = text::string_views(out@);
    if let Some(m) = mode {
        if let Some(target) = text::strip_prefix(m.as_str(), "container:") {
            out.push(target.to_owned());
            proof {
                assert(text::string_views(out@) =~= before.push(target@));
            }
        }
    }
}

/// The containers that a container shares a namespace with, from its network,
/// IPC and PID modes. The daemon does not start it before those run.
pub fn namespace_targets(
    network_mode: &Option<String>,
    ipc_mode: &Option<String>,
    pid_mode: &Option<String>,
) -> (r: Vec<String>)
    ensures
        text::string_views(r@) == push_some(
            push_some(
                push_some(Seq::empty(), namespace_target(*network_mode)),
                namespace_target(*ipc_mode),
            ),
            namespace_target(*pid_mode),
        ),
{
    let mut out: Vec<String> = Vec::new();
    proof {
        assert(text::string_views(out@) =~= Seq::empty());
    }
    push_target(&mut out, network_mode);
    push_target(&mut out, ipc_mode);
    push_target(&mut out, pid_mode);
    out
}

/// Whether a service is among dependencies.
pub open spec fn depends_on(deps: Seq<(Seq<char>, DepCondition)>, service: Seq<char>) -> bool {
    exists|i: int| 0 <= i < deps.len() && (#[trigger] deps[i]).0 == service
}

/// The dependencies of a member of `service`, with those that the containers it
/// shares a namespace with add: one for each in-stack service that is neither
/// its own nor already there.
pub open spec fn with_targets(
    deps: Seq<(Seq<char>, DepCondition)>,
    service: Seq<char>,
    ids: Seq<(String, String)>,
    targets: Seq<Seq<char>>,
) -> Seq<(Seq<char>, DepCondition)>
    decreases targets.len(),
{
    if targets.len() == 0 {
        deps
    } else {
        let before = with_targets(deps, service, ids, targets.drop_last());
        match service_of(ids, targets.last()) {
            Some(s) => if s != service && !depends_on(before, s) {
                before.push((s, DepCondition::Started))
            } else {
                before
            },
            None => before,
        }
    }
}

fn has_dep(deps: &Vec<Dep>, service: &str) -> (r: bool)
    ensures
        r == depends_on(dep_views(deps@), service@),
{
    let ghost views = dep_views(deps@);
    let mut i: usize = 0;
    while i < deps.len()
        invariant
            i <= deps.len(),
            views == dep_views(deps@),
            forall|j: int| 0 <= j < i ==> (#[trigger] views[j]).0 != service@,
        decreases deps.len() - i,
    {
        if text::same(deps[i].service.as_str(), service) {
            proof {
                assert(views[i as int].0 == service@);
            }
            return true;
        }
        i += 1;
    }
    false
}

/// Add the dependencies of one member that sharing namespaces implies.
pub fn add_namespace_deps(
    member: Member,
    service_by_id: &Vec<(String, String)>,
    targets: &Vec<String>,
) -> (r: Member)
    ensures
        r.id == member.id,
        r.service == member.service,
        dep_views(r.deps@) == with_targets(
            dep_views(member.deps@),
            member.service@,
            service_by_id@,
            text::string_views(targets@),
        ),
{
    let ghost all = text::string_views(targets@);
    let ghost start = dep_views(member.deps@);
    let Member { id, service, deps } = member;
    let mut deps = deps;
    let mut i: usize = 0;
    proof {
        assert(all.take(0) =~= Seq::empty());
    }
    while i < targets.len()
        invariant
            i <= targets.len(),
            all == text::string_views(targets@),
            dep_views(deps@) == with_targets(start, service@, service_by_id@, all.take(i as int)),
        decreases targets.len() - i,
    {
        let ghost before = dep_views(deps@);
        proof {
            assert(all.take(i + 1).drop_last() =~= all.take(i as int));
            assert(all.take(i + 1).last() == targets[i as int]@);
        }
        if let Some(s) = resolve_service(service_by_id, targets[i].as_str()) {
            if !text::same(s.as_str(), service.as_str()) && !has_dep(&deps, s.as_str()) {
                let d = Dep { service: s, condition: DepCondition::Started };
                deps.push(d);
                proof {
                    assert(dep_views(deps@) =~= before.push(dep_view(d)));
                }
            }
        }
        i += 1;
    }
    proof {
        assert(all.take(targets.len() as int) =~= all);
    }
    Member { id, service, deps }
}

/// The ids and the services of members.
pub fn service_ids(members: &[Member]) -> (r: Vec<(String, String)>)
    ensures
        r.len() == members.len(),
        forall|i: int|
            0 <= i < members.len() ==> (#[trigger] r[i]).0 == members[i].id && r[i].1
                == members[i].service,
{
    let mut out: Vec<(String, String)> = Vec::new();
    let mut i: usize = 0;
    while i < members.len()
        invariant
            i <= members.len(),
            out.len() == i,
            forall|j: int|
                0 <= j < i ==> (#[trigger] out[j]).0 == members[j].id && out[j].1
                    == members[j].service,
        decreases members.len() - i,
    {
        out.push((members[i].id.clone(), members[i].service.clone()));
        i += 1;
    }
    out
}

// ---------------------------------------------------------------------------
// Dependency order
// ---------------------------------------------------------------------------

/// Whether a service belongs to the stack.
pub open spec fn in_stack(members: Seq<Member>, service: Seq<char>) -> bool {
    exists|j: int| 0 <= j < members.len() && (#[trigger] members[j]).service@ == service
}

/// Whether a member of a service is among those at `done`.
pub open spec fn placed(members: Seq<Member>, done: Seq<usize>, service: Seq<char>) -> bool {
    exists|k: int|
        0 <= k < done.len() && members[(#[trigger] done[k]) as int].service@ == service
}

/// Whether every dependency of member `i` that belongs to the stack is placed.
pub open spec fn ready(members: Seq<Member>, done: Seq<usize>, i: usize) -> bool {
    forall|d: int|
        0 <= d < members[i as int].deps@.len() ==> (in_stack(
            members,
            (#[trigger] members[i as int].deps@[d]).service@,
        ) ==> placed(members, done, members[i as int].deps@[d].service@))
}

/// The predicate "is ready".
pub open spec fn is_ready(members: Seq<Member>, done: Seq<usize>) -> spec_fn(usize) -> bool {
    |i: usize| ready(members, done, i)
}

/// The predicate "is not ready".
pub open spec fn not_ready(members: Seq<Member>, done: Seq<usize>) -> spec_fn(usize) -> bool {
    |i: usize| !ready(members, done, i)
}

/// What can be placed after `done`: round by round all that are ready, in their
/// order; with `rest`, what is left when no more are ready.
pub open spec fn settle(
    members: Seq<Member>,
    done: Seq<usize>,
    remaining: Seq<usize>,
) -> (Seq<usize>, Seq<usize>)
    decreases remaining.len(),
{
    let now = remaining.filter(is_ready(members, done));
    let later = remaining.filter(not_ready(members, done));
    if now.len() == 0 || later.len() >= remaining.len() {
        (done, remaining)
    } else {
        settle(members, done + now, later)
    }
}

/// The positions of `n` members, in order.
pub open spec fn positions(n: nat) -> Seq<usize> {
    Seq::new(n, |i: int| i as usize)
}

/// The members that can be placed so that each follows its dependencies.
pub open spec fn settled(members: Seq<Member>) -> Seq<usize> {
    settle(members, Seq::empty(), positions(members.len())).0
}

/// The members that cannot: those in or behind a cycle.
pub open spec fn stuck(members: Seq<Member>) -> Seq<usize> {
    settle(members, Seq::empty(), positions(members.len())).1
}

/// The dependency order: what can be settled, and then the rest as listed.
pub open spec fn topo(members: Seq<Member>) -> Seq<usize> {
    settled(members) + stuck(members)
}

/// A filter and its complement share a sequence out.
proof fn lemma_partition(s: Seq<usize>, members: Seq<Member>, done: Seq<usize>)
    ensures
        s.filter(is_ready(members, done)).len() + s.filter(not_ready(members, done)).len()
            == s.len(),
        s.filter(is_ready(members, done)).to_multiset().add(
            s.filter(not_ready(members, done)).to_multiset(),
        ) =~= s.to_multiset(),
        s.filter(is_ready(members, done)).len() == 0 ==> s.filter(not_ready(members, done)) == s,
    decreases s.len(),
{
    reveal(Seq::filter);
    broadcast use group_to_multiset_ensures;

    if s.len() > 0 {
        let head = s.drop_last();
        lemma_partition(head, members, done);
        assert(s =~= head.push(s.last()));
        let a = head.filter(is_ready(members, done));
        let b = head.filter(not_ready(members, done));
        assert(s.to_multiset() =~= head.to_multiset().insert(s.last()));
        if ready(members, done, s.last()) {
            assert(s.filter(is_ready(members, done)) =~= a.push(s.last()));
            assert(s.filter(not_ready(members, done)) =~= b);
            assert(a.push(s.last()).to_multiset() =~= a.to_multiset().insert(s.last()));
        } else {
            assert(s.filter(is_ready(members, done)) =~= a);
            assert(s.filter(not_ready(members, done)) =~= b.push(s.last()));
            assert(b.push(s.last()).to_multiset() =~= b.to_multiset().insert(s.last()));
        }
    } else {
        assert(s.filter(is_ready(members, done)) =~= s);
        assert(s.filter(not_ready(members, done)) =~= s);
    }
}

fn service_placed(members: &[Member], done: &Vec<usize>, service: &str) -> (r: bool)
    requires
        forall|k: int| 0 <= k < done.len() ==> (#[trigger] done[k]) < members.len(),
    ensures
        r == placed(members@, done@, service@),
{
    let mut k: usize = 0;
    while k < done.len()
        invariant
            k <= done.len(),
            forall|k: int| 0 <= k < done.len() ==> (#[trigger] done[k]) < members.len(),
            forall|j: int|
                0 <= j < k ==> members[(#[trigger] done[j]) as int].service@ != service@,
        decreases done.len() - k,
    {
        if text::same(members[done[k]].service.as_str(), service) {
            proof {
                assert(members@[done@[k as int] as int].service@ == service@);
            }
            return true;
        }
        k += 1;
    }
    false
}

fn service_in_stack(members: &[Member], service: &str) -> (r: bool)
    ensures
        r == in_stack(members@, service@),
{
    let mut k: usize = 0;
    while k < members.len()
        invariant
            k <= members.len(),
            forall|j: int| 0 <= j < k ==> (#[trigger] members[j]).service@ != service@,
        decreases members.len() - k,
    {
        if text::same(members[k].service.as_str(), service) {
            proof {
                assert(members@[k as int].service@ == service@);
            }
            return true;
        }
        k += 1;
    }
    false
}

fn member_ready(members: &[Member], done: &Vec<usize>, i: usize) -> (r: bool)
    requires
        i < members.len(),
        forall|k: int| 0 <= k < done.len() ==> (#[trigger] done[k]) < members.len(),
    ensures
        r == ready(members@, done@, i),
{
    let deps = &members[i].deps;
    let mut d: usize = 0;
    while d < deps.len()
        invariant
            d <= deps.len(),
            i < members.len(),
            *deps == members[i as int].deps,
            forall|k: int| 0 <= k < done.len() ==> (#[trigger] done[k]) < members.len(),
            forall|j: int|
                0 <= j < d ==> (in_stack(
                    members@,
                    (#[trigger] members@[i as int].deps@[j]).service@,
                ) ==> placed(members@, done@, members@[i as int].deps@[j].service@)),
        decreases deps.len() - d,
    {
        let service = deps[d].service.as_str();
        if service_in_stack(members, service) && !service_placed(members, done, service) {
            proof {
                assert(in_stack(members@, members@[i as int].deps@[d as int].service@));
            }
            return false;
        }
        d += 1;
    }
    true
}

/// The dependency order of members, as positions in the list.
pub fn topo_positions(members: &[Member]) -> (r: Vec<usize>)
    ensures
        r@ == topo(members@),
        r.len() == members.len(),
        forall|k: int| 0 <= k < r.len() ==> (#[trigger] r[k]) < members.len(),
{
    let mut remaining: Vec<usize> = Vec::new();
    let mut i: usize = 0;
    while i < members.len()
        invariant
            i <= members.len(),
            remaining.len() == i,
            forall|j: int| 0 <= j < i ==> (#[trigger] remaining[j]) == j,
        decreases members.len() - i,
    {
        remaining.push(i);
        i += 1;
    }
    let mut done: Vec<usize> = Vec::new();
    proof {
        assert(remaining@ =~= positions(members@.len()));
        assert(done@ =~= Seq::<usize>::empty());
    }
    loop
        invariant
            done.len() + remaining.len() == members.len(),
            forall|k: int| 0 <= k < done.len() ==> (#[trigger] done[k]) < members.len(),
            forall|k: int| 0 <= k < remaining.len() ==> (#[trigger] remaining[k]) < members.len(),
            settle(members@, done@, remaining@) == settle(
                members@,
                Seq::empty(),
                positions(members@.len()),
            ),
        decreases remaining.len(),
    {
        let mut now: Vec<usize> = Vec::new();
        let mut later: Vec<usize> = Vec::new();
        let ghost yes = is_ready(members@, done@);
        let ghost no = not_ready(members@, done@);
        let mut k: usize = 0;
        proof {
            reveal(Seq::filter);
            assert(remaining@.take(0) =~= Seq::<usize>::empty());
            assert(now@ =~= remaining@.take(0).filter(yes));
            assert(later@ =~= remaining@.take(0).filter(no));
        }
        while k < remaining.len()
            invariant
                k <= remaining.len(),
                yes == is_ready(members@, done@),
                no == not_ready(members@, done@),
                forall|k: int| 0 <= k < done.len() ==> (#[trigger] done[k]) < members.len(),
                forall|k: int|
                    0 <= k < remaining.len() ==> (#[trigger] remaining[k]) < members.len(),
                now@ == remaining@.take(k as int).filter(yes),
                later@ == remaining@.take(k as int).filter(no),
                forall|j: int| 0 <= j < now.len() ==> (#[trigger] now[j]) < members.len(),
                forall|j: int| 0 <= j < later.len() ==> (#[trigger] later[j]) < members.len(),
            decreases remaining.len() - k,
        {
            let m: usize = remaining[k];
            proof {
                reveal(Seq::filter);
                assert(remaining@.take(k + 1).drop_last() =~= remaining@.take(k as int));
                assert(remaining@.take(k + 1).last() == m);
            }
            if member_ready(members, &done, m) {
                now.push(m);
            } else {
                later.push(m);
            }
            k += 1;
        }
        proof {
            assert(remaining@.take(remaining.len() as int) =~= remaining@);
            lemma_partition(remaining@, members@, done@);
        }
        if now.len() == 0 {
            done.append(&mut remaining);
            return done;
        }
        let ghost before = done@;
        done.append(&mut now);
        proof {
            assert(done@ == before + remaining@.filter(yes));
            assert forall|k: int| 0 <= k < done.len() implies (#[trigger] done[k])
                < members.len() by {
                if k >= before.len() {
                    assert(done[k] == remaining@.filter(yes)[k - before.len()]);
                }
            }
        }
        remaining = later;
    }
}

/// Order members so that every one comes after the dependencies it declares
/// within the stack. What a cycle blocks comes last, in the listed order.
pub fn topo_order<'a>(members: &'a [Member]) -> (r: Vec<&'a Member>)
    ensures
        r.len() == members.len(),
        forall|k: int|
            0 <= k < r.len() ==> *(#[trigger] r[k]) == members[topo(members@)[k] as int],
{
    let positions = topo_positions(members);
    let mut out: Vec<&'a Member> = Vec::new();
    let mut i: usize = 0;
    while i < positions.len()
        invariant
            i <= positions.len(),
            positions@ == topo(members@),
            positions.len() == members.len(),
            forall|k: int|
                0 <= k < positions.len() ==> (#[trigger] positions[k]) < members.len(),
            out.len() == i,
            forall|k: int| 0 <= k < i ==> *(#[trigger] out[k]) == members[positions[k] as int],
        decreases positions.len() - i,
    {
        out.push(&members[positions[i]]);
        i += 1;
    }
    out
}

// ---------------------------------------------------------------------------
// Laws of the dependency order
// ---------------------------------------------------------------------------

/// Whether every member comes after its dependencies within the stack.
pub open spec fn ordered(members: Seq<Member>, s: Seq<usize>) -> bool {
    forall|k: int| 0 <= k < s.len() ==> ready(members, s.take(k), #[trigger] s[k])
}

/// Whether positions are in the listed order.
pub open spec fn as_listed(s: Seq<usize>) -> bool {
    forall|i: int, j: int| 0 <= i < j < s.len() ==> (#[trigger] s[i]) < (#[trigger] s[j])
}

/// What is ready stays ready when more is placed.
proof fn lemma_ready_grows(members: Seq<Member>, done: Seq<usize>, more: Seq<usize>, i: usize)
    requires
        ready(members, done, i),
        done.is_prefix_of(more),
    ensures
        ready(members, more, i),
{
    let deps = members[i as int].deps@;
    assert forall|d: int| 0 <= d < deps.len() implies (in_stack(
        members,
        (#[trigger] members[i as int].deps@[d]).service@,
    ) ==> placed(members, more, members[i as int].deps@[d].service@)) by {
        let service = deps[d].service@;
        if in_stack(members, service) {
            assert(placed(members, done, service));
            let k = choose|k: int|
                0 <= k < done.len() && members[(#[trigger] done[k]) as int].service@ == service;
            assert(more[k] == done[k]);
            assert(members[more[k] as int].service@ == service);
        }
    }
}

/// Filtering keeps the listed order.
proof fn lemma_filter_as_listed(s: Seq<usize>, p: spec_fn(usize) -> bool)
    requires
        as_listed(s),
    ensures
        as_listed(s.filter(p)),
        forall|k: int| 0 <= k < s.filter(p).len() ==> p(#[trigger] s.filter(p)[k]),
        forall|k: int| 0 <= k < s.filter(p).len() ==> s.contains(#[trigger] s.filter(p)[k]),
    decreases s.len(),
{
    reveal(Seq::filter);
    if s.len() > 0 {
        let head = s.drop_last();
        lemma_filter_as_listed(head, p);
        let f = head.filter(p);
        assert forall|k: int| 0 <= k < f.len() implies s.contains(#[trigger] f[k]) && f[k]
            < s.last() by {
            assert(head.contains(f[k]));
            let j = choose|j: int| 0 <= j < head.len() && head[j] == f[k];
            assert(s[j] == f[k]);
            assert(s[j] < s[s.len() - 1]);
        }
        if p(s.last()) {
            let g = s.filter(p);
            assert(g =~= f.push(s.last()));
            assert forall|i: int, j: int| 0 <= i < j < g.len() implies (#[trigger] g[i])
                < (#[trigger] g[j]) by {
                if j < f.len() {
                    assert(f[i] < f[j]);
                } else {
                    assert(g[i] == f[i]);
                }
            }
            assert forall|k: int| 0 <= k < g.len() implies s.contains(#[trigger] g[k]) by {
                if k < f.len() {
                    assert(g[k] == f[k]);
                } else {
                    assert(s[s.len() - 1] == g[k]);
                }
            }
        }
    }
}

/// Settling shares the positions out, keeps dependencies first, and leaves only
/// what is not ready, in the listed order.
proof fn lemma_settle(members: Seq<Member>, done: Seq<usize>, remaining: Seq<usize>)
    requires
        ordered(members, done),
        as_listed(remaining),
    ensures
        ({
            let (s, rest) = settle(members, done, remaining);
            &&& ordered(members, s)
            &&& as_listed(rest)
            &&& forall|k: int| 0 <= k < rest.len() ==> !ready(members, s, #[trigger] rest[k])
            &&& s.to_multiset().add(rest.to_multiset()) =~= done.to_multiset().add(
                remaining.to_multiset(),
            )
        }),
    decreases remaining.len(),
{
    let yes = is_ready(members, done);
    let no = not_ready(members, done);
    let now = remaining.filter(yes);
    let later = remaining.filter(no);
    lemma_partition(remaining, members, done);
    lemma_filter_as_listed(remaining, yes);
    lemma_filter_as_listed(remaining, no);
    if now.len() == 0 || later.len() >= remaining.len() {
        assert(now.len() == 0);
        assert forall|k: int| 0 <= k < remaining.len() implies !ready(
            members,
            done,
            #[trigger] remaining[k],
        ) by {
            assert(later[k] == remaining[k]);
            assert(no(later[k]));
        }
    } else {
        let more = done + now;
        assert(ordered(members, more)) by {
            assert forall|k: int| 0 <= k < more.len() implies ready(
                members,
                more.take(k),
                #[trigger] more[k],
            ) by {
                if k < done.len() {
                    assert(more.take(k) =~= done.take(k));
                    assert(more[k] == done[k]);
                } else {
                    assert(more[k] == now[k - done.len()]);
                    assert(yes(now[k - done.len()]));
                    assert(done.is_prefix_of(more.take(k)));
                    lemma_ready_grows(members, done, more.take(k), more[k]);
                }
            }
        }
        lemma_settle(members, more, later);
        lemma_multiset_commutative(done, now);
        assert(more.to_multiset() =~= done.to_multiset().add(now.to_multiset()));
        assert(more.to_multiset().add(later.to_multiset()) =~= done.to_multiset().add(
            remaining.to_multiset(),
        ));
    }
}

proof fn lemma_settled(members: Seq<Member>)
    requires
        members.len() <= usize::MAX,
    ensures
        ordered(members, settled(members)),
        as_listed(stuck(members)),
        forall|k: int|
            0 <= k < stuck(members).len() ==> !ready(
                members,
                settled(members),
                #[trigger] stuck(members)[k],
            ),
        topo(members).to_multiset() =~= positions(members.len()).to_multiset(),
{
    let none = Seq::<usize>::empty();
    let all = positions(members.len());
    lemma_settle(members, none, all);
    lemma_multiset_commutative(settled(members), stuck(members));
    broadcast use group_to_multiset_ensures;

    assert(none.to_multiset().add(all.to_multiset()) =~= all.to_multiset());
}

/// The dependency order holds every member exactly once.
pub proof fn law_order_is_a_permutation(members: Seq<Member>)
    requires
        members.len() <= usize::MAX,
    ensures
        topo(members).to_multiset() == positions(members.len()).to_multiset(),
        topo(members).len() == members.len(),
        forall|i: usize| i < members.len() ==> #[trigger] topo(members).contains(i),
{
    lemma_settled(members);
    broadcast use group_to_multiset_ensures;

    let all = positions(members.len());
    all.to_multiset_ensures();
    topo(members).to_multiset_ensures();
    assert forall|i: usize| i < members.len() implies #[trigger] topo(members).contains(i) by {
        assert(all[i as int] == i);
        assert(all.contains(i));
        assert(all.to_multiset().contains(i));
    }
}

/// Every member that can be settled comes after each dependency that it has
/// within the stack; dependencies outside the stack are ignored.
pub proof fn law_dependencies_come_first(members: Seq<Member>, k: int, d: int)
    requires
        members.len() <= usize::MAX,
        0 <= k < settled(members).len(),
        0 <= d < members[topo(members)[k] as int].deps@.len(),
        in_stack(members, members[topo(members)[k] as int].deps@[d].service@),
    ensures
        exists|j: int|
            0 <= j < k && members[(#[trigger] topo(members)[j]) as int].service@
                == members[topo(members)[k] as int].deps@[d].service@,
{
    lemma_settled(members);
    let s = settled(members);
    let t = topo(members);
    assert(t[k] == s[k]);
    assert(ready(members, s.take(k), s[k]));
    let service = members[s[k] as int].deps@[d].service@;
    assert(placed(members, s.take(k), service));
    let j = choose|j: int|
        0 <= j < s.take(k).len() && members[(#[trigger] s.take(k)[j]) as int].service@ == service;
    assert(t[j] == s.take(k)[j]);
    assert(members[t[j] as int].service@ == service);
}

/// What cannot be settled comes last, in the listed order, and each of these
/// members has a dependency within the stack that is not settled either.
pub proof fn law_stuck_members_come_last(members: Seq<Member>)
    requires
        members.len() <= usize::MAX,
    ensures
        as_listed(stuck(members)),
        topo(members) == settled(members) + stuck(members),
        forall|k: int|
            0 <= k < stuck(members).len() ==> !ready(
                members,
                settled(members),
                #[trigger] stuck(members)[k],
            ),
{
    lemma_settled(members);
}

/// The position in `s` of a member whose service ranks lowest.
proof fn lemma_lowest(members: Seq<Member>, s: Seq<usize>, rank: spec_fn(Seq<char>) -> nat) -> (k:
    int)
    requires
        s.len() > 0,
    ensures
        0 <= k < s.len(),
        forall|j: int|
            0 <= j < s.len() ==> rank(members[s[k] as int].service@) <= rank(
                members[(#[trigger] s[j]) as int].service@,
            ),
    decreases s.len(),
{
    if s.len() == 1 {
        0
    } else {
        let head = s.drop_last();
        let m = lemma_lowest(members, head, rank);
        let last = s.len() - 1;
        if rank(members[s[last] as int].service@) < rank(members[s[m] as int].service@) {
            assert forall|j: int| 0 <= j < s.len() implies rank(members[s[last] as int].service@)
                <= rank(members[(#[trigger] s[j]) as int].service@) by {
                if j < last {
                    assert(head[j] == s[j]);
                }
            }
            last
        } else {
            assert forall|j: int| 0 <= j < s.len() implies rank(members[s[m] as int].service@)
                <= rank(members[(#[trigger] s[j]) as int].service@) by {
                if j < last {
                    assert(head[j] == s[j]);
                }
            }
            m
        }
    }
}

/// Whether dependencies within the stack always rank below their dependents,
/// which can be arranged exactly when they form no cycle.
pub open spec fn ranks_dependencies(
    members: Seq<Member>,
    rank: spec_fn(Seq<char>) -> nat,
) -> bool {
    forall|i: int, d: int|
        0 <= i < members.len() && 0 <= d < members[i].deps@.len() && in_stack(
            members,
            (#[trigger] members[i].deps@[d]).service@,
        ) ==> rank(members[i].deps@[d].service@) < rank(members[i].service@)
}

/// Without a cycle nothing gets stuck: every member comes after all of its
/// dependencies within the stack.
pub proof fn law_acyclic_stacks_are_fully_ordered(
    members: Seq<Member>,
    rank: spec_fn(Seq<char>) -> nat,
)
    requires
        members.len() <= usize::MAX,
        ranks_dependencies(members, rank),
    ensures
        stuck(members).len() == 0,
        settled(members) == topo(members),
        ordered(members, topo(members)),
{
    lemma_settled(members);
    law_order_is_a_permutation(members);
    let s = settled(members);
    let rest = stuck(members);
    let t = topo(members);
    if rest.len() > 0 {
        let k = lemma_lowest(members, rest, rank);
        let i = rest[k];
        assert(!ready(members, s, i));
        let d = choose|d: int|
            0 <= d < members[i as int].deps@.len() && in_stack(
                members,
                (#[trigger] members[i as int].deps@[d]).service@,
            ) && !placed(members, s, members[i as int].deps@[d].service@);
        let service = members[i as int].deps@[d].service@;
        assert(in_stack(members, service));
        assert(i < members.len()) by {
            assert(t[s.len() + k] == i);
            lemma_topo_in_range(members, s.len() + k);
        }
        assert(rank(service) < rank(members[i as int].service@));
        let j = choose|j: int| 0 <= j < members.len() && (#[trigger] members[j]).service@ == service;
        assert(t.contains(j as usize));
        let m = choose|m: int| 0 <= m < t.len() && t[m] == j as usize;
        if m < s.len() {
            assert(s[m] == j as usize);
            assert(members[s[m] as int].service@ == service);
            assert(placed(members, s, service));
        } else {
            assert(rest[m - s.len()] == j as usize);
        }
        assert(false);
    }
    assert(t =~= s);
}

proof fn lemma_topo_in_range(members: Seq<Member>, k: int)
    requires
        members.len() <= usize::MAX,
        0 <= k < topo(members).len(),
    ensures
        topo(members)[k] < members.len(),
{
    lemma_settled(members);
    broadcast use group_to_multiset_ensures;

    let t = topo(members);
    let all = positions(members.len());
    assert(t.contains(t[k]));
    assert(t.to_multiset().contains(t[k]));
    assert(all.to_multiset().contains(t[k]));
    assert(all.contains(t[k]));
}

/// Whether services can be ranked so that every one ranks above those of the stack
/// that a member of it depends on, which is so exactly when there is no cycle.
pub open spec fn no_cycle(members: Seq<Member>, rank: spec_fn(Seq<char>) -> nat) -> bool {
    forall|i: int, d: int, j: int|
        0 <= i < members.len() && 0 <= d < members[i].deps@.len() && 0 <= j < members.len() && (
        #[trigger] members[j]).service@ == (#[trigger] members[i].deps@[d]).service@ ==> rank(
            members[j].service@,
        ) < rank(members[i].service@)
}

/// Every settled member that depends on the service of a member comes after a
/// member of that service.
pub proof fn law_settled_members_follow_their_dependencies(
    members: Seq<Member>,
    k: int,
    d: int,
    j: int,
)
    requires
        members.len() <= usize::MAX,
        0 <= k < settled(members).len(),
        0 <= d < members[topo(members)[k] as int].deps@.len(),
        0 <= j < members.len(),
        members[j].service@ == members[topo(members)[k] as int].deps@[d].service@,
    ensures
        exists|m: int|
            0 <= m < k && members[(#[trigger] topo(members)[m]) as int].service@
                == members[j].service@,
{
    assert(in_stack(members, members[j].service@));
    law_dependencies_come_first(members, k, d);
}

/// Every member that is left over lacks a dependency: it depends on the service of
/// a member, and no settled member is of that service.
pub proof fn law_stuck_members_lack_a_dependency(members: Seq<Member>, k: int)
    requires
        members.len() <= usize::MAX,
        0 <= k < stuck(members).len(),
    ensures
        exists|d: int, j: int|
            0 <= d < members[stuck(members)[k] as int].deps@.len() && 0 <= j < members.len() && (
            #[trigger] members[j]).service@ == (
            #[trigger] members[stuck(members)[k] as int].deps@[d]).service@ && forall|m: int|
                0 <= m < settled(members).len() ==> members[(
                #[trigger] settled(members)[m]) as int].service@ != members[j].service@,
{
    lemma_settled(members);
    let i = stuck(members)[k];
    assert(!ready(members, settled(members), i));
    let d = choose|d: int|
        0 <= d < members[i as int].deps@.len() && in_stack(
            members,
            (#[trigger] members[i as int].deps@[d]).service@,
        ) && !placed(members, settled(members), members[i as int].deps@[d].service@);
    let service = members[i as int].deps@[d].service@;
    let j = choose|j: int| 0 <= j < members.len() && (#[trigger] members[j]).service@ == service;
    assert(members[j].service@ == members[i as int].deps@[d].service@);
    assert forall|m: int| 0 <= m < settled(members).len() implies members[(
    #[trigger] settled(members)[m]) as int].service@ != members[j].service@ by {
        if members[settled(members)[m] as int].service@ == service {
            assert(placed(members, settled(members), service));
        }
    }
}

/// Without a cycle, every member that depends on the service of a member comes
/// after a member of that service.
pub proof fn law_acyclic_order_puts_dependencies_first(
    members: Seq<Member>,
    rank: spec_fn(Seq<char>) -> nat,
    k: int,
    d: int,
    j: int,
)
    requires
        members.len() <= usize::MAX,
        no_cycle(members, rank),
        0 <= k < topo(members).len(),
        0 <= d < members[topo(members)[k] as int].deps@.len(),
        0 <= j < members.len(),
        members[j].service@ == members[topo(members)[k] as int].deps@[d].service@,
    ensures
        exists|m: int|
            0 <= m < k && members[(#[trigger] topo(members)[m]) as int].service@
                == members[j].service@,
{
    assert(ranks_dependencies(members, rank)) by {
        assert forall|i: int, e: int|
            0 <= i < members.len() && 0 <= e < members[i].deps@.len() && in_stack(
                members,
                (#[trigger] members[i].deps@[e]).service@,
            ) implies rank(members[i].deps@[e].service@) < rank(members[i].service@) by {
            let o = choose|o: int|
                0 <= o < members.len() && (#[trigger] members[o]).service@
                    == members[i].deps@[e].service@;
            assert(members[o].service@ == members[i].deps@[e].service@);
        }
    }
    law_acyclic_stacks_are_fully_ordered(members, rank);
    law_settled_members_follow_their_dependencies(members, k, d, j);
}

// ---------------------------------------------------------------------------
// Laws of reading dependencies
// ---------------------------------------------------------------------------

/// An entry `service:condition:restart` stands for a dependency on the service.
/// Only the two conditions that compose knows beside a plain start are waited
/// for.
pub proof fn law_entries_name_service_and_condition(
    service: Seq<char>,
    condition: Seq<char>,
    rest: Seq<char>,
)
    requires
        service.len() > 0,
        !service.contains(':'),
        !condition.contains(':'),
        !text::is_space(service[0]),
        !text::is_space(service.last()),
        rest.len() > 0,
        !text::is_space(rest.last()),
    ensures
        dep_of_entry(service.push(':') + (condition.push(':') + rest)) == Some(
            (
                service,
                if condition == "service_healthy"@ {
                    DepCondition::Healthy
                } else if condition == "service_completed_successfully"@ {
                    DepCondition::CompletedSuccessfully
                } else {
                    DepCondition::Started
                },
            ),
        ),
{
    let tail = condition.push(':') + rest;
    let entry = service.push(':') + tail;
    assert(entry[0] == service[0]);
    assert(entry.last() == rest.last());
    text::lemma_trimmed_id(entry);
    text::lemma_trimmed_id(service);
    text::lemma_pieces_at(service, ':', tail);
    text::lemma_pieces_at(condition, ':', rest);
    let fields = text::pieces(entry, ':');
    assert(fields == seq![service] + (seq![condition] + text::pieces(rest, ':')));
    assert(fields[0] == service);
    assert(fields[1] == condition);
}

/// An entry that names only a service stands for a plain dependency on it, and an
/// entry without a service for none.
pub proof fn law_bare_entries_are_plain_dependencies(service: Seq<char>)
    requires
        !service.contains(':'),
        service.len() > 0 ==> !text::is_space(service[0]) && !text::is_space(service.last()),
    ensures
        dep_of_entry(service) == (if service.len() > 0 {
            Some((service, DepCondition::Started))
        } else {
            None
        }),
{
    text::lemma_trimmed_id(service);
    text::lemma_pieces_none(service, ':');
}

/// The dependencies of two lists of entries are those of the first followed by
/// those of the second, each entry standing for one at most.
pub proof fn law_entries_add_up(a: Seq<Seq<char>>, b: Seq<Seq<char>>, entry: Seq<char>)
    ensures
        deps_of_entries(a + b) == deps_of_entries(a) + deps_of_entries(b),
        deps_of_entries(seq![entry]) == (match dep_of_entry(entry) {
            Some(d) => seq![d],
            None => Seq::empty(),
        }),
        deps_of_entries(Seq::empty()) == Seq::<(Seq<char>, DepCondition)>::empty(),
    decreases b.len(),
{
    reveal_with_fuel(deps_of_entries, 2);
    assert(seq![entry].drop_last() =~= Seq::<Seq<char>>::empty());
    assert(deps_of_entries(seq![entry]) =~= (match dep_of_entry(entry) {
        Some(d) => seq![d],
        None => Seq::empty(),
    }));
    if b.len() == 0 {
        assert(a + b =~= a);
        assert(deps_of_entries(a) + deps_of_entries(b) =~= deps_of_entries(a));
    } else {
        law_entries_add_up(a, b.drop_last(), entry);
        assert((a + b).drop_last() =~= a + b.drop_last());
        assert((a + b).last() == b.last());
        assert(deps_of_entries(a + b) =~= deps_of_entries(a) + deps_of_entries(b));
    }
}

/// A mode of the form `container:x` refers to container `x`, and no other mode
/// refers to a container.
pub proof fn law_container_modes_name_their_target(mode: String, x: Seq<char>)
    ensures
        mode@ == "container:"@ + x ==> namespace_target(Some(mode)) == Some(x),
        !"container:"@.is_prefix_of(mode@) ==> namespace_target(Some(mode)) is None,
        namespace_target(None) is None,
{
    if mode@ == "container:"@ + x {
        assert("container:"@.is_prefix_of(mode@));
        assert(mode@.skip("container:"@.len() as int) =~= x);
    }
}

/// A reference that is the full id of a member names the service of that member;
/// with several such members, of the last.
pub proof fn law_full_ids_win(ids: Seq<(String, String)>, target: Seq<char>, k: int)
    requires
        0 <= k < ids.len(),
        ids[k].0@ == target,
        forall|j: int| k < j < ids.len() ==> (#[trigger] ids[j]).0@ != target,
    ensures
        service_of(ids, target) == Some(ids[k].1@),
    decreases ids.len(),
{
    if k < ids.len() - 1 {
        let head = ids.drop_last();
        assert(ids[ids.len() - 1].0@ != target);
        assert(head[k] == ids[k]);
        assert forall|j: int| k < j < head.len() implies (#[trigger] head[j]).0@ != target by {
            assert(head[j] == ids[j]);
        }
        law_full_ids_win(head, target, k);
        lemma_exact_in(head, target, k);
    }
}

proof fn lemma_exact_in(ids: Seq<(String, String)>, target: Seq<char>, k: int)
    requires
        0 <= k < ids.len(),
        ids[k].0@ == target,
    ensures
        exact_service(ids, target) is Some,
    decreases ids.len(),
{
    if k < ids.len() - 1 {
        let head = ids.drop_last();
        assert(head[k] == ids[k]);
        lemma_exact_in(head, target, k);
    }
}

proof fn lemma_no_exact(ids: Seq<(String, String)>, target: Seq<char>)
    requires
        forall|j: int| 0 <= j < ids.len() ==> (#[trigger] ids[j]).0@ != target,
    ensures
        exact_service(ids, target) is None,
    decreases ids.len(),
{
    if ids.len() > 0 {
        let head = ids.drop_last();
        assert forall|j: int| 0 <= j < head.len() implies (#[trigger] head[j]).0@ != target by {
            assert(head[j] == ids[j]);
        }
        lemma_no_exact(head, target);
        assert(ids[ids.len() - 1].0@ != target);
    }
}

/// A reference that is no full id names the service of the first member whose id
/// it starts, or that starts with an id; if there is none, it names no service.
pub proof fn law_short_ids_name_the_first_match(
    ids: Seq<(String, String)>,
    target: Seq<char>,
    k: int,
)
    requires
        0 <= k <= ids.len(),
        forall|j: int| 0 <= j < ids.len() ==> (#[trigger] ids[j]).0@ != target,
        forall|j: int|
            0 <= j < k ==> !target.is_prefix_of((#[trigger] ids[j]).0@)
                && !ids[j].0@.is_prefix_of(target),
        k < ids.len() ==> target.is_prefix_of(ids[k].0@) || ids[k].0@.is_prefix_of(target),
    ensures
        service_of(ids, target) == (if k < ids.len() {
            Some(ids[k].1@)
        } else {
            None
        }),
{
    lemma_no_exact(ids, target);
    lemma_short_at(ids, target, k);
}

proof fn lemma_short_at(ids: Seq<(String, String)>, target: Seq<char>, k: int)
    requires
        0 <= k <= ids.len(),
        forall|j: int|
            0 <= j < k ==> !target.is_prefix_of((#[trigger] ids[j]).0@)
                && !ids[j].0@.is_prefix_of(target),
        k < ids.len() ==> target.is_prefix_of(ids[k].0@) || ids[k].0@.is_prefix_of(target),
    ensures
        short_service(ids, target) == (if k < ids.len() {
            Some(ids[k].1@)
        } else {
            None
        }),
    decreases ids.len(),
{
    if k > 0 {
        let t = ids.skip(1);
        assert(!target.is_prefix_of(ids[0].0@) && !ids[0].0@.is_prefix_of(target));
        assert forall|j: int| 0 <= j < k - 1 implies !target.is_prefix_of((#[trigger] t[j]).0@)
            && !t[j].0@.is_prefix_of(target) by {
            assert(t[j] == ids[j + 1]);
        }
        if k < ids.len() {
            assert(t[k - 1] == ids[k]);
        }
        lemma_short_at(t, target, k - 1);
    }
}

/// Sharing a namespace adds dependencies and takes none away: those that were
/// there stay first, every in-stack service that is shared with, other than the
/// own one, is depended on, and what is added asks for a start only.
pub proof fn law_shared_namespaces_are_dependencies(
    deps: Seq<(Seq<char>, DepCondition)>,
    service: Seq<char>,
    ids: Seq<(String, String)>,
    targets: Seq<Seq<char>>,
    k: int,
)
    ensures
        deps.is_prefix_of(with_targets(deps, service, ids, targets)),
        (0 <= k < targets.len() && service_of(ids, targets[k]) is Some && service_of(
            ids,
            targets[k],
        ) != Some(service)) ==> exists|i: int|
            0 <= i < with_targets(deps, service, ids, targets).len() && (#[trigger] with_targets(
                deps,
                service,
                ids,
                targets,
            )[i]).0 == service_of(ids, targets[k])->0,
        forall|i: int|
            deps.len() <= i < with_targets(deps, service, ids, targets).len() ==> {
                &&& (#[trigger] with_targets(deps, service, ids, targets)[i]).1
                    == DepCondition::Started
                &&& with_targets(deps, service, ids, targets)[i].0 != service
                &&& exists|t: int|
                    0 <= t < targets.len() && service_of(ids, #[trigger] targets[t]) == Some(
                        with_targets(deps, service, ids, targets)[i].0,
                    )
            },
    decreases targets.len(),
{
    if targets.len() > 0 {
        let head = targets.drop_last();
        let last = targets.len() - 1;
        let before = with_targets(deps, service, ids, head);
        let all = with_targets(deps, service, ids, targets);
        law_shared_namespaces_are_dependencies(deps, service, ids, head, k);
        assert(before.is_prefix_of(all));
        if 0 <= k < targets.len() && service_of(ids, targets[k]) is Some && service_of(
            ids,
            targets[k],
        ) != Some(service) {
            let s = service_of(ids, targets[k])->0;
            if k < last {
                assert(head[k] == targets[k]);
                let i = choose|i: int| 0 <= i < before.len() && (#[trigger] before[i]).0 == s;
                assert(all[i].0 == s);
            } else if depends_on(before, s) {
                let i = choose|i: int| 0 <= i < before.len() && (#[trigger] before[i]).0 == s;
                assert(all[i].0 == s);
            } else {
                assert(all[all.len() - 1].0 == s);
            }
        }
        assert forall|i: int| deps.len() <= i < all.len() implies (#[trigger] all[i]).1
            == DepCondition::Started && all[i].0 != service && exists|t: int|
            0 <= t < targets.len() && service_of(ids, #[trigger] targets[t]) == Some(all[i].0) by {
            if i < before.len() {
                assert(before[i] == all[i]);
                let t = choose|t: int|
                    0 <= t < head.len() && service_of(ids, #[trigger] head[t]) == Some(before[i].0);
                assert(service_of(ids, targets[t]) == Some(all[i].0));
            } else {
                assert(service_of(ids, targets[last]) == Some(all[i].0));
            }
        }
    }
}

// ---------------------------------------------------------------------------
// Members that depend on nothing
// ---------------------------------------------------------------------------

/// Whether a member depends on no service of the stack.
pub open spec fn is_independent(members: Seq<Member>, i: int) -> bool {
    forall|d: int, j: int|
        0 <= d < members[i].deps@.len() && 0 <= j < members.len() ==> (
        #[trigger] members[j]).service@ != (#[trigger] members[i].deps@[d]).service@
}

proof fn lemma_done_stays_first(members: Seq<Member>, done: Seq<usize>, remaining: Seq<usize>)
    ensures
        done.is_prefix_of(settle(members, done, remaining).0),
    decreases remaining.len(),
{
    let now = remaining.filter(is_ready(members, done));
    let later = remaining.filter(not_ready(members, done));
    if !(now.len() == 0 || later.len() >= remaining.len()) {
        lemma_done_stays_first(members, done + now, later);
        assert(done.is_prefix_of(done + now));
    }
}

proof fn lemma_positions_listed(n: nat)
    requires
        n <= usize::MAX,
    ensures
        as_listed(positions(n)),
        positions(n).no_duplicates(),
{
}

/// Members that depend on no service of the stack come in their listed order.
pub proof fn law_independent_members_keep_their_order(
    members: Seq<Member>,
    a: int,
    b: int,
)
    requires
        members.len() <= usize::MAX,
        0 <= a < topo(members).len(),
        0 <= b < topo(members).len(),
        topo(members)[a] < topo(members)[b] < members.len(),
        is_independent(members, topo(members)[a] as int),
        is_independent(members, topo(members)[b] as int),
    ensures
        a < b,
{
    let none = Seq::<usize>::empty();
    let all = positions(members.len());
    let t = topo(members);
    let yes = is_ready(members, none);
    let now = all.filter(yes);
    let later = all.filter(not_ready(members, none));
    let i = t[a];
    let j = t[b];
    lemma_positions_listed(members.len());
    lemma_filter_as_listed(all, yes);
    lemma_partition(all, members, none);
    lemma_independent_ready(members, i);
    lemma_independent_ready(members, j);
    assert(all[i as int] == i);
    assert(all[j as int] == j);
    all.lemma_filter_contains(yes, i as int);
    all.lemma_filter_contains(yes, j as int);
    let p = choose|p: int| 0 <= p < now.len() && now[p] == i;
    let q = choose|q: int| 0 <= q < now.len() && now[q] == j;
    if q < p {
        assert(now[q] < now[p]);
    }
    assert(none + now =~= now);
    lemma_done_stays_first(members, now, later);
    assert(settled(members) == settle(members, now, later).0);
    assert(t[p] == i);
    assert(t[q] == j);
    lemma_settled(members);
    all.lemma_multiset_has_no_duplicates();
    t.lemma_multiset_has_no_duplicates_conv();
}

proof fn lemma_independent_ready(members: Seq<Member>, i: usize)
    requires
        is_independent(members, i as int),
    ensures
        ready(members, Seq::empty(), i),
{
    assert forall|d: int| 0 <= d < members[i as int].deps@.len() implies !in_stack(
        members,
        (#[trigger] members[i as int].deps@[d]).service@,
    ) by {
        if in_stack(members, members[i as int].deps@[d].service@) {
            let j = choose|j: int|
                0 <= j < members.len() && (#[trigger] members[j]).service@
                    == members[i as int].deps@[d].service@;
            assert(members[j].service@ != members[i as int].deps@[d].service@);
        }
    }
}

/// Sharing a namespace adds no service twice: what is added was not depended on
/// before.
pub proof fn law_shared_namespaces_add_no_service_twice(
    deps: Seq<(Seq<char>, DepCondition)>,
    service: Seq<char>,
    ids: Seq<(String, String)>,
    targets: Seq<Seq<char>>,
    i: int,
    j: int,
)
    requires
        0 <= j < i < with_targets(deps, service, ids, targets).len(),
        i >= deps.len(),
    ensures
        with_targets(deps, service, ids, targets)[j].0 != with_targets(
            deps,
            service,
            ids,
            targets,
        )[i].0,
    decreases targets.len(),
{
    if targets.len() > 0 {
        let head = targets.drop_last();
        let before = with_targets(deps, service, ids, head);
        let all = with_targets(deps, service, ids, targets);
        if i < before.len() {
            law_shared_namespaces_add_no_service_twice(deps, service, ids, head, i, j);
        } else {
            assert(!depends_on(before, all[i].0));
            assert(before[j].0 != all[i].0);
        }
    }
}

/// Each of the three modes that refers to a container adds it to the targets, and
/// nothing else does.
pub proof fn law_shared_namespaces_are_targets(
    network: Option<String>,
    ipc: Option<String>,
    pid: Option<String>,
    x: Seq<char>,
)
    ensures
        push_some(
            push_some(push_some(Seq::empty(), namespace_target(network)), namespace_target(ipc)),
            namespace_target(pid),
        ).contains(x) == ((network matches Some(m) && m@ == "container:"@ + x) || (
        ipc matches Some(m) && m@ == "container:"@ + x) || (pid matches Some(m) && m@
            == "container:"@ + x)),
{
    lemma_target_of(network, x);
    lemma_target_of(ipc, x);
    lemma_target_of(pid, x);
    let none = Seq::<Seq<char>>::empty();
    let a = push_some(none, namespace_target(network));
    let b = push_some(a, namespace_target(ipc));
    lemma_pushed(none, namespace_target(network), x);
    lemma_pushed(a, namespace_target(ipc), x);
    lemma_pushed(b, namespace_target(pid), x);
}

proof fn lemma_target_of(mode: Option<String>, x: Seq<char>)
    ensures
        (namespace_target(mode) == Some(x)) == (mode matches Some(m) && m@ == "container:"@ + x),
{
    if let Some(m) = mode {
        law_container_modes_name_their_target(m, x);
        if namespace_target(mode) == Some(x) {
            assert(m@ =~= "container:"@ + m@.skip("container:"@.len() as int));
        }
    }
}

proof fn lemma_pushed(s: Seq<Seq<char>>, o: Option<Seq<char>>, x: Seq<char>)
    ensures
        push_some(s, o).contains(x) == (s.contains(x) || o == Some(x)),
{
    let t = push_some(s, o);
    if s.contains(x) {
        let k = choose|k: int| 0 <= k < s.len() && s[k] == x;
        assert(t[k] == x);
    }
    if o == Some(x) {
        assert(t[s.len() as int] == x);
    }
    if t.contains(x) {
        let k = choose|k: int| 0 <= k < t.len() && t[k] == x;
        if k < s.len() {
            assert(s[k] == x);
        }
    }
}

} // verus!
