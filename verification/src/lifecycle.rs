//! Starting, stopping and restarting a whole stack, as decisions.
//!
//! A machine holds the state of the work and says what to do next; the caller
//! does it and reports what happened. Dependency order does most of the work
//! of a start. Should a member still not start, the machine goes over the stack
//! again until all run or time is up.

use vstd::prelude::*;
use vstd::string::*;

use crate::{stack, text};

verus! {

/// A lifecycle action on a container or a stack.
#[derive(Debug, Clone, Copy, PartialEq, Eq, Structural)]
pub enum Action {
    Start,
    Stop,
    Restart,
}

/// The name of an action in a URL.
pub open spec fn action_name(a: Action) -> Seq<char> {
    match a {
        Action::Start => "start"@,
        Action::Stop => "stop"@,
        Action::Restart => "restart"@,
    }
}

/// The action of a name.
pub open spec fn action_named(s: Seq<char>) -> Option<Action> {
    if s == "start"@ {
        Some(Action::Start)
    } else if s == "stop"@ {
        Some(Action::Stop)
    } else if s == "restart"@ {
        Some(Action::Restart)
    } else {
        None
    }
}

impl Action {
    /// Parse an action from a URL path segment.
    pub fn parse(s: &str) -> (r: Option<Self>)
        ensures
            r == action_named(s@),
    {
        if text::same(s, "start") {
            Some(Action::Start)
        } else if text::same(s, "stop") {
            Some(Action::Stop)
        } else if text::same(s, "restart") {
            Some(Action::Restart)
        } else {
            None
        }
    }

    /// The name of the action in a URL.
    pub fn as_str(self) -> (r: &'static str)
        ensures
            r@ == action_name(self),
    {
        match self {
            Action::Start => "start",
            Action::Stop => "stop",
            Action::Restart => "restart",
        }
    }
}

/// Every action parses from its own name, and from no other.
pub proof fn law_actions_parse_from_their_names(s: Seq<char>, a: Action)
    ensures
        (action_named(s) == Some(a)) == (s == action_name(a)),
{
    reveal_strlit("start");
    reveal_strlit("stop");
    reveal_strlit("restart");
    assert("start"@.len() == 5 && "stop"@.len() == 4 && "restart"@.len() == 7);
}

/// How long to wait for a dependency before starting its dependent anyway, in
/// milliseconds.
pub const DEP_WAIT_MS: u64 = 120_000;

/// How long to pause between two looks at a dependency, in milliseconds.
pub const DEP_POLL_MS: u64 = 1_000;

/// How long to keep trying to start all members of a stack, in milliseconds.
pub const STACK_START_TIMEOUT_MS: u64 = 120_000;

// ---------------------------------------------------------------------------
// Waiting on one dependency
// ---------------------------------------------------------------------------

/// Health as an inspection of a container reports it.
#[derive(Debug, Clone, Copy, PartialEq, Eq, Structural)]
pub enum HealthReport {
    Healthy,
    Starting,
    Unhealthy,
    /// The container has no healthcheck, or none was reported.
    Absent,
}

/// What to do after a look at a dependency.
#[derive(Debug, Clone, Copy, PartialEq, Eq, Structural)]
pub enum WaitStep {
    /// The condition is met.
    Met,
    /// There is nothing to wait for.
    Moot,
    /// Time is up; go on without it.
    TimedOut,
    /// Look again after a pause.
    Poll,
}

/// What to do after a look at the health of a dependency.
pub open spec fn health_step(report: Option<HealthReport>, elapsed_ms: u64) -> WaitStep {
    if report == Some(HealthReport::Healthy) {
        WaitStep::Met
    } else if report is None || report == Some(HealthReport::Absent) {
        WaitStep::Moot
    } else if elapsed_ms >= DEP_WAIT_MS {
        WaitStep::TimedOut
    } else {
        WaitStep::Poll
    }
}

/// What to do after a look at whether a dependency has exited.
pub open spec fn completion_step(state: Option<(bool, i64)>, elapsed_ms: u64) -> WaitStep {
    match state {
        None => WaitStep::Moot,
        Some((running, _)) => if !running {
            WaitStep::Met
        } else if elapsed_ms >= DEP_WAIT_MS {
            WaitStep::TimedOut
        } else {
            WaitStep::Poll
        },
    }
}

/// Whether to go on waiting for a container to become healthy. One without a
/// healthcheck, or that cannot be inspected, is not waited for.
pub fn wait_healthy(report: Option<HealthReport>, elapsed_ms: u64) -> (r: WaitStep)
    ensures
        r == health_step(report, elapsed_ms),
        (r == WaitStep::Met) == (report == Some(HealthReport::Healthy)),
        (r == WaitStep::Moot) == (report is None || report == Some(HealthReport::Absent)),
        (report == Some(HealthReport::Starting) || report == Some(HealthReport::Unhealthy)) ==> r
            == (if elapsed_ms < 120_000 {
            WaitStep::Poll
        } else {
            WaitStep::TimedOut
        }),
{
    match report {
        Some(HealthReport::Healthy) => WaitStep::Met,
        None => WaitStep::Moot,
        Some(HealthReport::Absent) => WaitStep::Moot,
        _ => if elapsed_ms >= DEP_WAIT_MS {
            WaitStep::TimedOut
        } else {
            WaitStep::Poll
        },
    }
}

/// Whether to go on waiting for a container to exit, given whether it runs and
/// its exit code. One that cannot be inspected is not waited for.
pub fn wait_completed(state: Option<(bool, i64)>, elapsed_ms: u64) -> (r: WaitStep)
    ensures
        r == completion_step(state, elapsed_ms),
        (r == WaitStep::Moot) == (state is None),
        (r == WaitStep::Met) == (state matches Some((running, _)) && !running),
        state matches Some((true, _)) ==> r == (if elapsed_ms < 120_000 {
            WaitStep::Poll
        } else {
            WaitStep::TimedOut
        }),
{
    match state {
        None => WaitStep::Moot,
        Some((running, _)) => if !running {
            WaitStep::Met
        } else if elapsed_ms >= DEP_WAIT_MS {
            WaitStep::TimedOut
        } else {
            WaitStep::Poll
        },
    }
}

/// Whether a container runs, given the `running` and exit fields of its state,
/// which may be missing.
pub fn run_state(running: Option<bool>, exit_code: Option<i64>) -> (r: (bool, i64))
    ensures
        r.0 == (running == Some(true)),
        r.1 == (match exit_code {
            Some(c) => c,
            None => 0,
        }),
{
    let is_running: bool = match running {
        Some(b) => b,
        None => false,
    };
    let code: i64 = match exit_code {
        Some(c) => c,
        None => 0,
    };
    (is_running, code)
}

/// Waiting for health goes on exactly while a healthcheck has not reported health
/// and two minutes have not passed; waiting for an exit goes on exactly while the
/// container runs and two minutes have not passed. A condition counts as met only
/// if it is.
pub proof fn law_waiting_lasts_until_the_condition(
    report: Option<HealthReport>,
    state: Option<(bool, i64)>,
    elapsed_ms: u64,
)
    ensures
        (health_step(report, elapsed_ms) == WaitStep::Met) == (report == Some(
            HealthReport::Healthy,
        )),
        (health_step(report, elapsed_ms) == WaitStep::Poll) == (elapsed_ms < 120_000 && (report
            == Some(HealthReport::Starting) || report == Some(HealthReport::Unhealthy))),
        (completion_step(state, elapsed_ms) == WaitStep::Met) == (state matches Some((running, _))
            && !running),
        (completion_step(state, elapsed_ms) == WaitStep::Poll) == (elapsed_ms < 120_000
            && (state matches Some((running, _)) && running)),
{
    match report {
        Some(HealthReport::Healthy) => {},
        Some(HealthReport::Starting) => {},
        Some(HealthReport::Unhealthy) => {},
        Some(HealthReport::Absent) => {},
        None => {},
    }
}

/// Once time is up no look at a dependency asks for another one, so the waiting
/// ends.
pub proof fn law_waiting_ends(
    report: Option<HealthReport>,
    state: Option<(bool, i64)>,
    elapsed_ms: u64,
)
    requires
        elapsed_ms >= DEP_WAIT_MS,
    ensures
        health_step(report, elapsed_ms) != WaitStep::Poll,
        completion_step(state, elapsed_ms) != WaitStep::Poll,
{
}

// ---------------------------------------------------------------------------
// Starting a stack
// ---------------------------------------------------------------------------

/// What to do next to start a stack. Members are named by their position.
#[derive(Debug, Clone, Copy, PartialEq, Eq, Structural)]
pub enum StartCommand {
    /// Find out whether the member runs.
    Inspect(usize),
    /// Wait for the member to become healthy.
    AwaitHealthy(usize),
    /// Wait for the member to exit.
    AwaitCompleted(usize),
    /// Start the member.
    Start(usize),
    /// Find out whether [`STACK_START_TIMEOUT_MS`] have passed.
    AskDeadline,
    /// Pause for [`DEP_POLL_MS`].
    Pause,
    /// The work is over.
    Finish(stack::StackOutcome),
}

/// What the caller reports.
#[derive(Debug, Clone, Copy, PartialEq, Eq, Structural)]
pub enum StartEvent {
    /// Whether the inspected member runs.
    Running(bool),
    /// Waiting for a dependency is over.
    Waited,
    /// Whether the start succeeded.
    Started(bool),
    /// Whether the deadline has passed.
    Deadline(bool),
    /// The pause is over.
    Rested,
}

/// What the machine is at.
#[derive(Debug, Clone, Copy, PartialEq, Eq, Structural)]
pub enum Stage {
    /// Inspecting the member at `next`.
    Inspecting,
    /// Waiting on a dependency of the member at `next`.
    Awaiting,
    /// Starting the member at `next`.
    Starting,
    /// At the end of a pass with failures.
    Judging,
    /// Pausing before another pass.
    Pausing,
    /// Done.
    Done,
}

/// The moving part of the machine.
pub struct Run {
    pub stage: Stage,
    /// How many members of this pass are dealt with.
    pub next: int,
    /// The dependency of the current member that is waited on.
    pub dep: int,
    /// How many members failed to start in this pass.
    pub failed: int,
    /// Whether a member was started in this pass.
    pub progressed: bool,
}

/// The last position below `n` of a member of a service, or minus one.
pub open spec fn last_of(members: Seq<stack::Member>, service: Seq<char>, n: int) -> int
    decreases n,
{
    if n <= 0 {
        -1
    } else if members[n - 1].service@ == service {
        n - 1
    } else {
        last_of(members, service, n - 1)
    }
}

/// The member that stands for a service.
pub open spec fn target(members: Seq<stack::Member>, service: Seq<char>) -> int {
    last_of(members, service, members.len() as int)
}

/// Whether member `i` waits on its dependency `d` before it is started: it is
/// within the stack, and more than started is asked of it.
pub open spec fn waits_on(members: Seq<stack::Member>, i: int, d: int) -> bool {
    let dep = members[i].deps@[d];
    dep.condition != stack::DepCondition::Started && target(members, dep.service@) >= 0
}

/// The first dependency from `d` on that member `i` waits on, or their number.
pub open spec fn next_wait(members: Seq<stack::Member>, i: int, d: int) -> int
    decreases members[i].deps@.len() - d,
{
    if d >= members[i].deps@.len() {
        members[i].deps@.len() as int
    } else if waits_on(members, i, d) {
        d
    } else {
        next_wait(members, i, d + 1)
    }
}

/// The machine at the start of a pass.
pub open spec fn pass_start(n: int) -> Run {
    at_member(Run { stage: Stage::Done, next: 0, dep: 0, failed: 0, progressed: false }, n)
}

/// The machine when it turns to the member at `next`, or to the end of a pass.
pub open spec fn at_member(run: Run, n: int) -> Run {
    if run.next < n {
        Run { stage: Stage::Inspecting, ..run }
    } else if run.failed == 0 {
        Run { stage: Stage::Done, ..run }
    } else {
        Run { stage: Stage::Judging, ..run }
    }
}

/// The machine when it looks for a dependency to wait on, from `d` on.
pub open spec fn at_dependency(
    run: Run,
    members: Seq<stack::Member>,
    order: Seq<usize>,
    d: int,
) -> Run {
    let i = order[run.next] as int;
    let w = next_wait(members, i, d);
    if w < members[i].deps@.len() {
        Run { stage: Stage::Awaiting, dep: w, ..run }
    } else {
        Run { stage: Stage::Starting, dep: w, ..run }
    }
}

/// The machine after an event. An event that does not answer the current
/// command changes nothing.
pub open spec fn after(
    run: Run,
    members: Seq<stack::Member>,
    order: Seq<usize>,
    event: StartEvent,
) -> Run {
    let n = order.len() as int;
    match (run.stage, event) {
        (Stage::Inspecting, StartEvent::Running(true)) => at_member(
            Run { next: run.next + 1, ..run },
            n,
        ),
        (Stage::Inspecting, StartEvent::Running(false)) => at_dependency(run, members, order, 0),
        (Stage::Awaiting, StartEvent::Waited) => at_dependency(run, members, order, run.dep + 1),
        (Stage::Starting, StartEvent::Started(true)) => at_member(
            Run { next: run.next + 1, progressed: true, ..run },
            n,
        ),
        (Stage::Starting, StartEvent::Started(false)) => at_member(
            Run { next: run.next + 1, failed: run.failed + 1, ..run },
            n,
        ),
        (Stage::Judging, StartEvent::Deadline(true)) => Run { stage: Stage::Done, ..run },
        (Stage::Judging, StartEvent::Deadline(false)) => if run.progressed {
            pass_start(n)
        } else {
            Run { stage: Stage::Pausing, ..run }
        },
        (Stage::Pausing, StartEvent::Rested) => pass_start(n),
        _ => run,
    }
}

/// What the machine asks for.
pub open spec fn command_of(
    run: Run,
    members: Seq<stack::Member>,
    order: Seq<usize>,
) -> StartCommand {
    match run.stage {
        Stage::Inspecting => StartCommand::Inspect(order[run.next]),
        Stage::Awaiting => {
            let dep = members[order[run.next] as int].deps@[run.dep];
            let t = target(members, dep.service@) as usize;
            if dep.condition == stack::DepCondition::Healthy {
                StartCommand::AwaitHealthy(t)
            } else {
                StartCommand::AwaitCompleted(t)
            }
        },
        Stage::Starting => StartCommand::Start(order[run.next]),
        Stage::Judging => StartCommand::AskDeadline,
        Stage::Pausing => StartCommand::Pause,
        Stage::Done => StartCommand::Finish(
            stack::StackOutcome { total: members.len() as usize, failed: run.failed as usize },
        ),
    }
}

/// The machine that starts a stack.
pub struct StackStart {
    members: Vec<stack::Member>,
    order: Vec<usize>,
    stage: Stage,
    next: usize,
    dep: usize,
    failed: usize,
    progressed: bool,
}

impl StackStart {
    /// The members, as listed.
    pub closed spec fn members(&self) -> Seq<stack::Member> {
        self.members@
    }

    /// The order in which a pass visits the members.
    pub closed spec fn order(&self) -> Seq<usize> {
        self.order@
    }

    /// The moving part.
    pub closed spec fn run(&self) -> Run {
        Run {
            stage: self.stage,
            next: self.next as int,
            dep: self.dep as int,
            failed: self.failed as int,
            progressed: self.progressed,
        }
    }

    /// A pass visits every member in dependency order, and the current place
    /// lies within it.
    pub open spec fn wf(&self) -> bool {
        &&& self.order() == stack::topo(self.members())
        &&& self.order().len() == self.members().len()
        &&& forall|k: int|
            0 <= k < self.order().len() ==> (#[trigger] self.order()[k]) < self.members().len()
        &&& in_place(self.run(), self.members(), self.order())
    }

    /// The machine at its first pass.
    pub fn new(members: Vec<stack::Member>) -> (r: Self)
        ensures
            r.wf(),
            r.members() == members@,
            r.run() == pass_start(members@.len() as int),
    {
        let order = stack::topo_positions(members.as_slice());
        let stage = if order.len() == 0 {
            Stage::Done
        } else {
            Stage::Inspecting
        };
        StackStart { members, order, stage, next: 0, dep: 0, failed: 0, progressed: false }
    }

    /// The id of a member.
    pub fn id(&self, position: usize) -> (r: &str)
        requires
            position < self.members().len(),
        ensures
            r@ == self.members()[position as int].id@,
    {
        self.members[position].id.as_str()
    }

    /// What to do next.
    pub fn command(&self) -> (r: StartCommand)
        requires
            self.wf(),
        ensures
            r == command_of(self.run(), self.members(), self.order()),
            match r {
                StartCommand::Inspect(i) => i < self.members().len(),
                StartCommand::AwaitHealthy(i) => i < self.members().len(),
                StartCommand::AwaitCompleted(i) => i < self.members().len(),
                StartCommand::Start(i) => i < self.members().len(),
                _ => true,
            },
    {
        match self.stage {
            Stage::Inspecting => StartCommand::Inspect(self.order[self.next]),
            Stage::Awaiting => {
                let i: usize = self.order[self.next];
                proof {
                    assert(waits_on(self.members(), i as int, self.dep as int));
                    lemma_last_of(
                        self.members(),
                        self.members()[i as int].deps@[self.dep as int].service@,
                        self.members().len() as int,
                    );
                }
                let dep = &self.members[i].deps[self.dep];
                let t: usize = match self.find_target(dep.service.as_str()) {
                    Some(t) => t,
                    None => 0,
                };
                match dep.condition {
                    stack::DepCondition::Healthy => StartCommand::AwaitHealthy(t),
                    _ => StartCommand::AwaitCompleted(t),
                }
            },
            Stage::Starting => StartCommand::Start(self.order[self.next]),
            Stage::Judging => StartCommand::AskDeadline,
            Stage::Pausing => StartCommand::Pause,
            Stage::Done => StartCommand::Finish(
                stack::StackOutcome { total: self.members.len(), failed: self.failed },
            ),
        }
    }

    /// Take in what happened.
    pub fn advance(&mut self, event: StartEvent)
        requires
            old(self).wf(),
        ensures
            final(self).wf(),
            final(self).members() == old(self).members(),
            final(self).order() == old(self).order(),
            final(self).run() == after(
                old(self).run(),
                old(self).members(),
                old(self).order(),
                event,
            ),
    {
        proof {
            assert(self.order().len() == self.order.len());
            if self.stage == Stage::Awaiting {
                let deps = self.members[self.order[self.next as int] as int].deps;
                assert(deps@.len() == deps.len());
            }
        }
        match self.stage {
            Stage::Inspecting => {
                if let StartEvent::Running(runs) = event {
                    if runs {
                        self.next = self.next + 1;
                        self.turn();
                    } else {
                        self.seek(0);
                    }
                }
            },
            Stage::Awaiting => {
                if let StartEvent::Waited = event {
                    self.seek(self.dep + 1);
                }
            },
            Stage::Starting => {
                if let StartEvent::Started(ok) = event {
                    if ok {
                        self.progressed = true;
                    } else {
                        self.failed = self.failed + 1;
                    }
                    self.next = self.next + 1;
                    self.turn();
                }
            },
            Stage::Judging => {
                if let StartEvent::Deadline(passed) = event {
                    if passed {
                        self.stage = Stage::Done;
                    } else if self.progressed {
                        self.restart_pass();
                    } else {
                        self.stage = Stage::Pausing;
                    }
                }
            },
            Stage::Pausing => {
                if let StartEvent::Rested = event {
                    self.restart_pass();
                }
            },
            Stage::Done => {},
        }
    }

    fn restart_pass(&mut self)
        requires
            old(self).wf(),
        ensures
            final(self).wf(),
            final(self).members() == old(self).members(),
            final(self).order() == old(self).order(),
            final(self).run() == pass_start(old(self).order().len() as int),
    {
        self.next = 0;
        self.dep = 0;
        self.failed = 0;
        self.progressed = false;
        self.turn();
    }

    fn turn(&mut self)
        requires
            old(self).order() == stack::topo(old(self).members()),
            old(self).order().len() == old(self).members().len(),
            forall|k: int|
                0 <= k < old(self).order().len() ==> (#[trigger] old(self).order()[k])
                    < old(self).members().len(),
            old(self).run().next <= old(self).order().len(),
            old(self).run().failed <= old(self).run().next,
        ensures
            final(self).wf(),
            final(self).members() == old(self).members(),
            final(self).order() == old(self).order(),
            final(self).run() == at_member(old(self).run(), old(self).order().len() as int),
    {
        self.stage = if self.next < self.order.len() {
            Stage::Inspecting
        } else if self.failed == 0 {
            Stage::Done
        } else {
            Stage::Judging
        };
    }

    fn seek(&mut self, from: usize)
        requires
            old(self).wf(),
            old(self).run().next < old(self).order().len(),
            from <= old(self).members()[old(self).order()[old(self).run().next] as int].deps@.len(),
        ensures
            final(self).wf(),
            final(self).members() == old(self).members(),
            final(self).order() == old(self).order(),
            final(self).run() == at_dependency(
                old(self).run(),
                old(self).members(),
                old(self).order(),
                from as int,
            ),
    {
        let i: usize = self.order[self.next];
        let mut d: usize = from;
        while d < self.members[i].deps.len()
            invariant_except_break
                i < self.members.len(),
                i == self.order@[self.next as int],
                *self == *old(self),
                from <= d <= self.members[i as int].deps.len(),
                next_wait(self.members(), i as int, d as int) == next_wait(
                    self.members(),
                    i as int,
                    from as int,
                ),
            ensures
                i < self.members.len(),
                *self == *old(self),
                d <= self.members[i as int].deps.len(),
                d == next_wait(self.members(), i as int, from as int),
                d < self.members[i as int].deps.len() ==> waits_on(
                    self.members(),
                    i as int,
                    d as int,
                ),
            decreases self.members[i as int].deps.len() - d,
        {
            let dep = &self.members[i].deps[d];
            let weak: bool = match dep.condition {
                stack::DepCondition::Started => true,
                _ => false,
            };
            if !weak && self.find_target(dep.service.as_str()).is_some() {
                break ;
            }
            d += 1;
        }
        self.dep = d;
        self.stage = if d < self.members[i].deps.len() {
            Stage::Awaiting
        } else {
            Stage::Starting
        };
    }

    fn find_target(&self, service: &str) -> (r: Option<usize>)
        ensures
            match r {
                Some(t) => target(self.members(), service@) == t && t < self.members().len(),
                None => target(self.members(), service@) == -1,
            },
    {
        let mut n: usize = self.members.len();
        while n > 0
            invariant
                n <= self.members.len(),
                last_of(self.members(), service@, self.members().len() as int) == last_of(
                    self.members(),
                    service@,
                    n as int,
                ),
            decreases n,
        {
            if text::same(self.members[n - 1].service.as_str(), service) {
                return Some(n - 1);
            }
            n -= 1;
        }
        None
    }
}

/// Whether the moving part fits the stack.
pub open spec fn in_place(run: Run, members: Seq<stack::Member>, order: Seq<usize>) -> bool {
    &&& 0 <= run.failed <= run.next <= order.len()
    &&& match run.stage {
        Stage::Inspecting => run.next < order.len(),
        Stage::Awaiting => {
            &&& run.next < order.len()
            &&& 0 <= run.dep < members[order[run.next] as int].deps@.len()
            &&& waits_on(members, order[run.next] as int, run.dep)
        },
        Stage::Starting => run.next < order.len(),
        _ => true,
    }
}

proof fn lemma_last_of(members: Seq<stack::Member>, service: Seq<char>, n: int)
    requires
        0 <= n <= members.len(),
    ensures
        -1 <= last_of(members, service, n) < n || n == 0,
        last_of(members, service, n) >= -1,
    decreases n,
{
    if n > 0 {
        lemma_last_of(members, service, n - 1);
    }
}

// ---------------------------------------------------------------------------
// Stopping a stack
// ---------------------------------------------------------------------------

/// The machine that stops a stack: each member once, dependents first.
pub struct StackStop {
    members: Vec<stack::Member>,
    order: Vec<usize>,
    /// How many members are left.
    left: usize,
    failed: usize,
}

/// What to do next to stop a stack.
#[derive(Debug, Clone, Copy, PartialEq, Eq, Structural)]
pub enum StopCommand {
    /// Stop the member at this position.
    Stop(usize),
    /// The work is over.
    Finish(stack::StackOutcome),
}

impl StackStop {
    /// The members, as listed.
    pub closed spec fn members(&self) -> Seq<stack::Member> {
        self.members@
    }

    /// How many members have been dealt with.
    pub closed spec fn done(&self) -> int {
        self.members.len() - self.left
    }

    /// How many failed to stop.
    pub closed spec fn failed(&self) -> int {
        self.failed as int
    }

    /// The order in which members are stopped: dependency order reversed.
    pub open spec fn sequence(&self) -> Seq<usize> {
        stack::topo(self.members()).reverse()
    }

    /// The order is that of the stack, and counts stay within it.
    pub closed spec fn wf(&self) -> bool {
        &&& self.order@ == stack::topo(self.members@)
        &&& self.order.len() == self.members.len()
        &&& forall|k: int| 0 <= k < self.order.len() ==> (#[trigger] self.order[k])
            < self.members.len()
        &&& self.left <= self.members.len()
        &&& self.failed <= self.members.len() - self.left
    }

    /// The machine before its first stop.
    pub fn new(members: Vec<stack::Member>) -> (r: Self)
        ensures
            r.wf(),
            r.members() == members@,
            r.done() == 0,
            r.failed() == 0,
    {
        let order = stack::topo_positions(members.as_slice());
        let left: usize = members.len();
        StackStop { members, order, left, failed: 0 }
    }

    /// The id of a member.
    pub fn id(&self, position: usize) -> (r: &str)
        requires
            position < self.members().len(),
        ensures
            r@ == self.members()[position as int].id@,
    {
        self.members[position].id.as_str()
    }

    /// The members, given back.
    fn into_members(self) -> (r: Vec<stack::Member>)
        ensures
            r@ == self.members(),
    {
        self.members
    }

    /// What to do next.
    pub fn command(&self) -> (r: StopCommand)
        requires
            self.wf(),
        ensures
            r == (if self.done() < self.members().len() {
                StopCommand::Stop(self.sequence()[self.done()])
            } else {
                StopCommand::Finish(
                    stack::StackOutcome {
                        total: self.members().len() as usize,
                        failed: self.failed() as usize,
                    },
                )
            }),
            r matches StopCommand::Stop(i) ==> i < self.members().len(),
    {
        if self.left > 0 {
            proof {
                assert(self.sequence()[self.done()] == self.order@[self.left - 1]);
            }
            StopCommand::Stop(self.order[self.left - 1])
        } else {
            StopCommand::Finish(
                stack::StackOutcome { total: self.members.len(), failed: self.failed },
            )
        }
    }

    /// Take in whether the stop succeeded. A failure is counted, and the work
    /// goes on.
    pub fn advance(&mut self, stopped: bool)
        requires
            old(self).wf(),
            old(self).done() < old(self).members().len(),
        ensures
            final(self).wf(),
            final(self).members() == old(self).members(),
            final(self).done() == old(self).done() + 1,
            final(self).failed() == old(self).failed() + (if stopped {
                0int
            } else {
                1int
            }),
    {
        self.left = self.left - 1;
        if !stopped {
            self.failed = self.failed + 1;
        }
    }
}

// ---------------------------------------------------------------------------
// Restarting a stack
// ---------------------------------------------------------------------------

/// The outcome of a restart: it ends with the stack started, so the failures to
/// start count.
pub fn restart_outcome(stop: stack::StackOutcome, start: stack::StackOutcome) -> (r:
    stack::StackOutcome)
    ensures
        r == (stack::StackOutcome { total: stop.total, failed: start.failed }),
{
    stack::StackOutcome { total: stop.total, failed: start.failed }
}

/// What to do next to restart a stack.
#[derive(Debug, Clone, Copy, PartialEq, Eq, Structural)]
pub enum RestartCommand {
    /// Stop the member at this position.
    Stop(usize),
    /// What the machine that starts the stack asks for.
    Start(StartCommand),
    /// The work is over.
    Finish(stack::StackOutcome),
}

/// What the caller reports.
#[derive(Debug, Clone, Copy, PartialEq, Eq, Structural)]
pub enum RestartEvent {
    /// Whether the stop succeeded.
    Stopped(bool),
    /// What the machine that starts the stack is told.
    Start(StartEvent),
}

/// The moving part of a restart.
pub struct RestartRun {
    /// How many members have been dealt with by stopping.
    pub stopped: int,
    /// How many of those failed to stop.
    pub unstopped: int,
    /// The moving part of the start, which waits until all are stopped.
    pub run: Run,
}

/// A restart before its first stop.
pub open spec fn restart_begin(members: Seq<stack::Member>) -> RestartRun {
    RestartRun { stopped: 0, unstopped: 0, run: pass_start(members.len() as int) }
}

/// What a restart asks for: what the stop asks for until it is finished, and what
/// the start asks for from then on.
pub open spec fn restart_command(s: RestartRun, members: Seq<stack::Member>) -> RestartCommand {
    if s.stopped < members.len() {
        RestartCommand::Stop(stack::topo(members).reverse()[s.stopped])
    } else {
        match command_of(s.run, members, stack::topo(members)) {
            StartCommand::Finish(o) => RestartCommand::Finish(
                stack::StackOutcome { total: members.len() as usize, failed: o.failed },
            ),
            c => RestartCommand::Start(c),
        }
    }
}

/// A restart after an event. An event that does not answer the current command
/// changes nothing.
pub open spec fn restart_after(
    s: RestartRun,
    members: Seq<stack::Member>,
    event: RestartEvent,
) -> RestartRun {
    match event {
        RestartEvent::Stopped(ok) => if s.stopped < members.len() {
            RestartRun {
                stopped: s.stopped + 1,
                unstopped: s.unstopped + (if ok {
                    0int
                } else {
                    1int
                }),
                run: s.run,
            }
        } else {
            s
        },
        RestartEvent::Start(e) => if s.stopped < members.len() {
            s
        } else {
            RestartRun { run: after(s.run, members, stack::topo(members), e), ..s }
        },
    }
}

enum Phase {
    Stopping(StackStop),
    Starting(StackStart, stack::StackOutcome),
}

/// The machine that restarts a stack: it stops all of it, and then starts it.
pub struct StackRestart {
    phase: Phase,
}

impl StackRestart {
    /// The members, as listed.
    pub closed spec fn members(&self) -> Seq<stack::Member> {
        match self.phase {
            Phase::Stopping(stop) => stop.members(),
            Phase::Starting(start, _) => start.members(),
        }
    }

    /// The moving part.
    pub closed spec fn state(&self) -> RestartRun {
        match self.phase {
            Phase::Stopping(stop) => RestartRun {
                stopped: stop.done(),
                unstopped: stop.failed(),
                run: pass_start(stop.members().len() as int),
            },
            Phase::Starting(start, stopped) => RestartRun {
                stopped: start.members().len() as int,
                unstopped: stopped.failed as int,
                run: start.run(),
            },
        }
    }

    /// Either machine is well-formed; the first has members left to stop.
    pub closed spec fn wf(&self) -> bool {
        match self.phase {
            Phase::Stopping(stop) => stop.wf() && 0 <= stop.done() < stop.members().len(),
            Phase::Starting(start, stopped) => start.wf() && stopped.total
                == start.members().len(),
        }
    }

    /// The machine before its first stop.
    pub fn new(members: Vec<stack::Member>) -> (r: Self)
        ensures
            r.wf(),
            r.members() == members@,
            r.state() == restart_begin(members@),
    {
        Self::stopping(StackStop::new(members))
    }

    fn stopping(stop: StackStop) -> (r: Self)
        requires
            stop.wf(),
            0 <= stop.done() <= stop.members().len(),
        ensures
            r.wf(),
            r.members() == stop.members(),
            r.state() == (RestartRun {
                stopped: stop.done(),
                unstopped: stop.failed(),
                run: pass_start(stop.members().len() as int),
            }),
    {
        match stop.command() {
            StopCommand::Stop(_) => StackRestart { phase: Phase::Stopping(stop) },
            StopCommand::Finish(outcome) => StackRestart {
                phase: Phase::Starting(StackStart::new(stop.into_members()), outcome),
            },
        }
    }

    /// The id of a member.
    pub fn id(&self, position: usize) -> (r: &str)
        requires
            position < self.members().len(),
        ensures
            r@ == self.members()[position as int].id@,
    {
        match &self.phase {
            Phase::Stopping(stop) => stop.id(position),
            Phase::Starting(start, _) => start.id(position),
        }
    }

    /// What to do next.
    pub fn command(&self) -> (r: RestartCommand)
        requires
            self.wf(),
        ensures
            r == restart_command(self.state(), self.members()),
            match r {
                RestartCommand::Stop(i) => i < self.members().len(),
                RestartCommand::Start(StartCommand::Inspect(i)) => i < self.members().len(),
                RestartCommand::Start(StartCommand::AwaitHealthy(i)) => i < self.members().len(),
                RestartCommand::Start(StartCommand::AwaitCompleted(i)) => i < self.members().len(),
                RestartCommand::Start(StartCommand::Start(i)) => i < self.members().len(),
                _ => true,
            },
    {
        match &self.phase {
            Phase::Stopping(stop) => match stop.command() {
                StopCommand::Stop(i) => RestartCommand::Stop(i),
                StopCommand::Finish(outcome) => RestartCommand::Finish(outcome),
            },
            Phase::Starting(start, stopped) => match start.command() {
                StartCommand::Finish(started) => RestartCommand::Finish(
                    restart_outcome(*stopped, started),
                ),
                c => RestartCommand::Start(c),
            },
        }
    }

    /// The machine after what happened.
    pub fn advance(self, event: RestartEvent) -> (r: Self)
        requires
            self.wf(),
        ensures
            r.wf(),
            r.members() == self.members(),
            r.state() == restart_after(self.state(), self.members(), event),
    {
        match self.phase {
            Phase::Stopping(stop) => {
                let mut stop = stop;
                match event {
                    RestartEvent::Stopped(ok) => {
                        stop.advance(ok);
                        Self::stopping(stop)
                    },
                    RestartEvent::Start(_) => StackRestart { phase: Phase::Stopping(stop) },
                }
            },
            Phase::Starting(start, stopped) => {
                let mut start = start;
                if let RestartEvent::Start(e) = event {
                    start.advance(e);
                }
                StackRestart { phase: Phase::Starting(start, stopped) }
            },
        }
    }
}

// ---------------------------------------------------------------------------
// Laws
// ---------------------------------------------------------------------------

/// The dependencies from `d` on that member `i` waits on, in order.
pub open spec fn waits(members: Seq<stack::Member>, i: int, d: int) -> Seq<int>
    decreases members[i].deps@.len() - d,
{
    let w = next_wait(members, i, d);
    if d <= w < members[i].deps@.len() {
        seq![w] + waits(members, i, w + 1)
    } else {
        Seq::empty()
    }
}

/// The machine after `k` waits, from where it looks for dependencies at `d`.
pub open spec fn after_waits(
    run: Run,
    members: Seq<stack::Member>,
    order: Seq<usize>,
    d: int,
    k: nat,
) -> Run
    decreases k,
{
    if k == 0 {
        at_dependency(run, members, order, d)
    } else {
        after(after_waits(run, members, order, d, (k - 1) as nat), members, order, StartEvent::Waited)
    }
}

proof fn lemma_next_wait(members: Seq<stack::Member>, i: int, d: int)
    requires
        0 <= d <= members[i].deps@.len(),
    ensures
        d <= next_wait(members, i, d) <= members[i].deps@.len(),
    decreases members[i].deps@.len() - d,
{
    if d < members[i].deps@.len() && !waits_on(members, i, d) {
        lemma_next_wait(members, i, d + 1);
    }
}

proof fn lemma_waits_in_turn(
    run: Run,
    members: Seq<stack::Member>,
    order: Seq<usize>,
    d: int,
    k: nat,
)
    requires
        0 <= d <= members[order[run.next] as int].deps@.len(),
        k <= waits(members, order[run.next] as int, d).len(),
    ensures
        ({
            let i = order[run.next] as int;
            let w = waits(members, i, d);
            let now = after_waits(run, members, order, d, k);
            &&& now.next == run.next
            &&& now.failed == run.failed
            &&& now.progressed == run.progressed
            &&& if k < w.len() {
                now.stage == Stage::Awaiting && now.dep == w[k as int]
            } else {
                now.stage == Stage::Starting
            }
        }),
    decreases k,
{
    let i = order[run.next] as int;
    let w = waits(members, i, d);
    lemma_next_wait(members, i, d);
    if k > 0 {
        lemma_waits_in_turn(run, members, order, d, (k - 1) as nat);
        let now = after_waits(run, members, order, d, (k - 1) as nat);
        lemma_waits_step(members, i, d, k - 1);
        lemma_next_wait(members, i, now.dep + 1);
    }
}

/// Each wait is the first one after the wait before it.
proof fn lemma_waits_step(members: Seq<stack::Member>, i: int, d: int, k: int)
    requires
        0 <= d <= members[i].deps@.len(),
        0 <= k < waits(members, i, d).len(),
    ensures
        0 <= waits(members, i, d)[k] < members[i].deps@.len(),
        ({
            let w = waits(members, i, d);
            let n = next_wait(members, i, w[k] + 1);
            if k + 1 < w.len() {
                n == w[k + 1] && n < members[i].deps@.len()
            } else {
                n >= members[i].deps@.len()
            }
        }),
    decreases members[i].deps@.len() - d,
{
    lemma_next_wait(members, i, d);
    let first = next_wait(members, i, d);
    if first < members[i].deps@.len() {
        let rest = waits(members, i, first + 1);
        let w = waits(members, i, d);
        assert(w == seq![first] + rest);
        lemma_next_wait(members, i, first + 1);
        if k > 0 {
            lemma_waits_step(members, i, first + 1, k - 1);
            assert(w[k] == rest[k - 1]);
            if k + 1 < w.len() {
                assert(w[k + 1] == rest[k]);
            }
        } else if w.len() > 1 {
            assert(w[1] == rest[0]);
        }
    }
}

/// A member that does not run is started only after every dependency on which
/// more than a start is asked has been waited for, one by one, in order.
pub proof fn law_starts_follow_their_waits(
    run: Run,
    members: Seq<stack::Member>,
    order: Seq<usize>,
    k: nat,
)
    requires
        run.stage == Stage::Inspecting,
        0 <= run.next < order.len(),
        k <= waits(members, order[run.next] as int, 0).len(),
    ensures
        ({
            let w = waits(members, order[run.next] as int, 0);
            let now = after_waits(run, members, order, 0, k);
            &&& after_waits(run, members, order, 0, 0) == after(
                run,
                members,
                order,
                StartEvent::Running(false),
            )
            &&& if k < w.len() {
                now.stage == Stage::Awaiting && now.dep == w[k as int]
            } else {
                command_of(now, members, order) == StartCommand::Start(order[run.next])
            }
        }),
{
    lemma_waits_in_turn(run, members, order, 0, k);
}

/// What came of one member in a pass.
#[derive(PartialEq, Eq, Structural)]
pub enum Visit {
    /// It was running already.
    Running,
    /// It was started.
    Started,
    /// It failed to start.
    Failed,
}

/// The machine after the member at `next` has been dealt with.
pub open spec fn visited(
    run: Run,
    members: Seq<stack::Member>,
    order: Seq<usize>,
    visit: Visit,
) -> Run {
    match visit {
        Visit::Running => after(run, members, order, StartEvent::Running(true)),
        _ => after(
            after_waits(
                run,
                members,
                order,
                0,
                waits(members, order[run.next] as int, 0).len(),
            ),
            members,
            order,
            StartEvent::Started(visit is Started),
        ),
    }
}

/// The machine after the first members of a pass have been dealt with.
pub open spec fn pass_after(
    members: Seq<stack::Member>,
    order: Seq<usize>,
    visits: Seq<Visit>,
) -> Run
    decreases visits.len(),
{
    if visits.len() == 0 {
        pass_start(order.len() as int)
    } else {
        visited(
            pass_after(members, order, visits.drop_last()),
            members,
            order,
            visits.last(),
        )
    }
}

/// How many members failed to start.
pub open spec fn failures(visits: Seq<Visit>) -> int
    decreases visits.len(),
{
    if visits.len() == 0 {
        0
    } else {
        failures(visits.drop_last()) + (if visits.last() is Failed {
            1int
        } else {
            0int
        })
    }
}

/// A pass visits each member once, in dependency order, and counts those that
/// failed to start. With no failure the work is over and none is reported; with
/// one, the deadline decides.
pub proof fn law_pass_counts_failures(
    members: Seq<stack::Member>,
    order: Seq<usize>,
    visits: Seq<Visit>,
)
    requires
        visits.len() <= order.len(),
    ensures
        ({
            let run = pass_after(members, order, visits);
            &&& run.next == visits.len()
            &&& run.failed == failures(visits)
            &&& run.progressed == visits.contains(Visit::Started)
            &&& if visits.len() < order.len() {
                command_of(run, members, order) == StartCommand::Inspect(order[visits.len() as int])
            } else if failures(visits) == 0 {
                command_of(run, members, order) == StartCommand::Finish(
                    stack::StackOutcome { total: members.len() as usize, failed: 0 },
                )
            } else {
                command_of(run, members, order) == StartCommand::AskDeadline
            }
        }),
    decreases visits.len(),
{
    if visits.len() > 0 {
        let head = visits.drop_last();
        law_pass_counts_failures(members, order, head);
        let before = pass_after(members, order, head);
        let n = waits(members, order[before.next] as int, 0).len();
        lemma_waits_in_turn(before, members, order, 0, n);
        assert(visits =~= head.push(visits.last()));
        assert(visits.contains(Visit::Started) == (head.contains(Visit::Started) || visits.last()
            == Visit::Started)) by {
            if head.contains(Visit::Started) {
                let k = choose|k: int| 0 <= k < head.len() && head[k] == Visit::Started;
                assert(visits[k] == Visit::Started);
            }
            if visits.last() == Visit::Started {
                assert(visits[visits.len() - 1] == Visit::Started);
            }
            if visits.contains(Visit::Started) {
                let k = choose|k: int| 0 <= k < visits.len() && visits[k] == Visit::Started;
                if k < head.len() {
                    assert(head[k] == Visit::Started);
                }
            }
        }
        lemma_failures_nonneg(head);
    } else {
        assert(!visits.contains(Visit::Started));
    }
}

proof fn lemma_failures_nonneg(visits: Seq<Visit>)
    ensures
        0 <= failures(visits) <= visits.len(),
    decreases visits.len(),
{
    if visits.len() > 0 {
        lemma_failures_nonneg(visits.drop_last());
    }
}

/// Once the deadline has passed at the end of a pass, the work is over, and the
/// members that did not start in that pass are reported as failed.
pub proof fn law_deadline_ends_the_work(
    run: Run,
    members: Seq<stack::Member>,
    order: Seq<usize>,
)
    requires
        run.stage == Stage::Judging,
    ensures
        command_of(
            after(run, members, order, StartEvent::Deadline(true)),
            members,
            order,
        ) == StartCommand::Finish(
            stack::StackOutcome { total: members.len() as usize, failed: run.failed as usize },
        ),
{
}

/// A stack is stopped with dependents first: the order of stops is the order of
/// starts reversed.
pub proof fn law_stops_reverse_starts(members: Seq<stack::Member>, k: int)
    requires
        0 <= k < stack::topo(members).len(),
    ensures
        stack::topo(members).reverse()[k] == stack::topo(members)[stack::topo(members).len() - 1
            - k],
{
}

/// A restart after several events.
pub open spec fn restart_after_all(
    members: Seq<stack::Member>,
    events: Seq<RestartEvent>,
) -> RestartRun
    decreases events.len(),
{
    if events.len() == 0 {
        restart_begin(members)
    } else {
        restart_after(restart_after_all(members, events.drop_last()), members, events.last())
    }
}

proof fn lemma_stops_only_grow(
    members: Seq<stack::Member>,
    events: Seq<RestartEvent>,
    i: int,
    j: int,
)
    requires
        0 <= i <= j <= events.len(),
    ensures
        restart_after_all(members, events.take(i)).stopped <= restart_after_all(
            members,
            events.take(j),
        ).stopped <= members.len(),
    decreases j,
{
    assert(events.take(0) =~= Seq::empty());
    if j > 0 {
        assert(events.take(j).drop_last() =~= events.take(j - 1));
        if i < j {
            lemma_stops_only_grow(members, events, i, j - 1);
        } else {
            lemma_stops_only_grow(members, events, i - 1, j - 1);
        }
    }
}

/// In a restart every stop comes before every start: whatever is reported, once
/// anything but a stop was asked for, no stop is asked for again.
pub proof fn law_restart_stops_before_it_starts(
    members: Seq<stack::Member>,
    events: Seq<RestartEvent>,
    i: int,
    j: int,
)
    requires
        0 <= i <= j <= events.len(),
        restart_command(restart_after_all(members, events.take(j)), members) is Stop,
    ensures
        restart_command(restart_after_all(members, events.take(i)), members) is Stop,
{
    lemma_stops_only_grow(members, events, i, j);
}

/// How many of the reported stops failed.
pub open spec fn failed_stops(oks: Seq<bool>) -> int
    decreases oks.len(),
{
    if oks.len() == 0 {
        0
    } else {
        failed_stops(oks.drop_last()) + (if oks.last() {
            0int
        } else {
            1int
        })
    }
}

/// A restart stops each member once, dependents first, going on after failures;
/// then it starts the stack like any other, and a failed stop is not reported.
pub proof fn law_restart_stops_each_member_once(members: Seq<stack::Member>, oks: Seq<bool>)
    requires
        oks.len() <= members.len(),
    ensures
        ({
            let s = restart_after_all(
                members,
                oks.map_values(|ok: bool| RestartEvent::Stopped(ok)),
            );
            &&& s.stopped == oks.len()
            &&& s.unstopped == failed_stops(oks)
            &&& s.run == pass_start(members.len() as int)
            &&& oks.len() < members.len() ==> restart_command(s, members) == RestartCommand::Stop(
                stack::topo(members).reverse()[oks.len() as int],
            )
            &&& oks.len() == members.len() ==> !(restart_command(s, members) is Stop)
        }),
    decreases oks.len(),
{
    let told = |ok: bool| RestartEvent::Stopped(ok);
    let events = oks.map_values(told);
    if oks.len() > 0 {
        law_restart_stops_each_member_once(members, oks.drop_last());
        assert(events.drop_last() =~= oks.drop_last().map_values(told));
        assert(events.last() == RestartEvent::Stopped(oks.last()));
    }
}

/// The outcome of a restart counts the failures of its last pass of starts alone.
pub proof fn law_restart_reports_failed_starts(s: RestartRun, members: Seq<stack::Member>)
    requires
        s.stopped == members.len(),
        s.run.stage == Stage::Done,
    ensures
        restart_command(s, members) == RestartCommand::Finish(
            stack::StackOutcome {
                total: members.len() as usize,
                failed: s.run.failed as usize,
            },
        ),
{
}

/// The machine after several events, from its first pass on.
pub open spec fn start_run(
    members: Seq<stack::Member>,
    order: Seq<usize>,
    events: Seq<StartEvent>,
) -> Run
    decreases events.len(),
{
    if events.len() == 0 {
        pass_start(order.len() as int)
    } else {
        after(start_run(members, order, events.drop_last()), members, order, events.last())
    }
}

/// What the machine asks for after the first `k` of several events.
pub open spec fn asked(
    members: Seq<stack::Member>,
    order: Seq<usize>,
    events: Seq<StartEvent>,
    k: int,
) -> StartCommand {
    command_of(start_run(members, order, events.take(k)), members, order)
}

/// Whether an order names members of the stack.
pub open spec fn names_members(members: Seq<stack::Member>, order: Seq<usize>) -> bool {
    &&& members.len() <= usize::MAX
    &&& order.len() == members.len()
    &&& forall|k: int| 0 <= k < order.len() ==> (#[trigger] order[k]) < members.len()
}

/// Whether `t` is the member that stands for a service: the last one of it.
pub open spec fn stands_for_service(
    members: Seq<stack::Member>,
    service: Seq<char>,
    t: int,
) -> bool {
    &&& 0 <= t < members.len()
    &&& members[t].service@ == service
    &&& forall|j: int| t < j < members.len() ==> (#[trigger] members[j]).service@ != service
}

/// Whether a service has a member in the stack.
pub open spec fn has_service(members: Seq<stack::Member>, service: Seq<char>) -> bool {
    exists|j: int| 0 <= j < members.len() && (#[trigger] members[j]).service@ == service
}

/// Whether between the events `p` and `k` a wait for a dependency was asked for
/// by its condition, and was reported to be over.
pub open spec fn waited_for(
    members: Seq<stack::Member>,
    order: Seq<usize>,
    events: Seq<StartEvent>,
    dep: stack::Dep,
    p: int,
    k: int,
) -> bool {
    exists|q: int, t: int|
        p < q < k && stands_for_service(members, dep.service@, t) && #[trigger] asked(
            members,
            order,
            events,
            q,
        ) == (#[trigger] wait_command(dep.condition, t)) && events[q] == StartEvent::Waited
}

/// The wait that a condition calls for.
pub open spec fn wait_command(condition: stack::DepCondition, t: int) -> StartCommand {
    match condition {
        stack::DepCondition::Healthy => StartCommand::AwaitHealthy(t as usize),
        _ => StartCommand::AwaitCompleted(t as usize),
    }
}

/// Whether the machine, after all of the events, is dealing with the member that
/// it asked about at event `p` and that was found not running.
pub open spec fn dealing_since(
    members: Seq<stack::Member>,
    order: Seq<usize>,
    events: Seq<StartEvent>,
    i: usize,
    p: int,
) -> bool {
    &&& 0 <= p < events.len()
    &&& asked(members, order, events, p) == StartCommand::Inspect(i)
    &&& events[p] == StartEvent::Running(false)
    &&& forall|q: int|
        p < q <= events.len() ==> !(#[trigger] asked(members, order, events, q) is Inspect)
}

proof fn lemma_target(members: Seq<stack::Member>, service: Seq<char>, n: int)
    requires
        0 <= n <= members.len(),
    ensures
        ({
            let t = last_of(members, service, n);
            &&& -1 <= t < n || n == 0 && t == -1
            &&& t >= 0 ==> members[t].service@ == service
            &&& forall|j: int| t < j < n ==> (#[trigger] members[j]).service@ != service
        }),
    decreases n,
{
    if n > 0 {
        lemma_target(members, service, n - 1);
    }
}

/// What a search for a wait passes over is not waited on, and what it finds is.
proof fn lemma_passed_over(members: Seq<stack::Member>, i: int, d: int)
    requires
        0 <= d <= members[i].deps@.len(),
    ensures
        ({
            let w = next_wait(members, i, d);
            &&& d <= w <= members[i].deps@.len()
            &&& w < members[i].deps@.len() ==> waits_on(members, i, w)
            &&& forall|x: int| d <= x < w ==> !#[trigger] waits_on(members, i, x)
        }),
    decreases members[i].deps@.len() - d,
{
    if d < members[i].deps@.len() && !waits_on(members, i, d) {
        lemma_passed_over(members, i, d + 1);
    }
}

/// A dependency that is not waited on asks for no more than a start, or has no
/// member in the stack.
proof fn lemma_needs_no_wait(members: Seq<stack::Member>, i: int, d: int)
    requires
        0 <= d < members[i].deps@.len(),
    ensures
        waits_on(members, i, d) == (members[i].deps@[d].condition != stack::DepCondition::Started
            && has_service(members, members[i].deps@[d].service@)),
        waits_on(members, i, d) ==> stands_for_service(
            members,
            members[i].deps@[d].service@,
            target(members, members[i].deps@[d].service@),
        ),
{
    lemma_target(members, members[i].deps@[d].service@, members.len() as int);
}

/// Where the machine is after several events: the member that it deals with was
/// found not running, and the dependencies before the current one were waited
/// for as far as they ask for it.
proof fn lemma_dealing(
    members: Seq<stack::Member>,
    order: Seq<usize>,
    events: Seq<StartEvent>,
) -> (p: int)
    requires
        names_members(members, order),
    ensures
        ({
            let run = start_run(members, order, events);
            let i = order[run.next];
            let deps = members[i as int].deps@;
            &&& in_place(run, members, order)
            &&& run.stage == Stage::Starting ==> run.dep == deps.len()
            &&& (run.stage == Stage::Awaiting || run.stage == Stage::Starting) ==> {
                &&& dealing_since(members, order, events, i, p)
                &&& forall|d: int|
                    0 <= d < run.dep && (#[trigger] deps[d]).condition
                        != stack::DepCondition::Started && has_service(members, deps[d].service@)
                        ==> waited_for(members, order, events, deps[d], p, events.len() as int)
            }
        }),
    decreases events.len(),
{
    let n = events.len() as int;
    assert(events.take(n) =~= events);
    if n == 0 {
        0
    } else {
        let head = events.drop_last();
        let e = events.last();
        let p0 = lemma_dealing(members, order, head);
        let run0 = start_run(members, order, head);
        let run = start_run(members, order, events);
        assert(head.take(n - 1) =~= head);
        assert forall|q: int| 0 <= q < n implies #[trigger] asked(members, order, events, q)
            == asked(members, order, head, q) by {
            assert(events.take(q) =~= head.take(q));
        }
        let i = order[run0.next];
        let deps = members[i as int].deps@;
        if run0.stage == Stage::Inspecting && e == StartEvent::Running(false) {
            lemma_passed_over(members, i as int, 0);
            let p = n - 1;
            assert forall|d: int|
                0 <= d < run.dep && (#[trigger] deps[d]).condition != stack::DepCondition::Started
                    && has_service(members, deps[d].service@) implies waited_for(
                members,
                order,
                events,
                deps[d],
                p,
                n,
            ) by {
                lemma_needs_no_wait(members, i as int, d);
            }
            p
        } else if run0.stage == Stage::Awaiting || run0.stage == Stage::Starting {
            let p = p0;
            if run0.stage == Stage::Awaiting && e == StartEvent::Waited {
                lemma_passed_over(members, i as int, run0.dep + 1);
            }
            if run.stage == Stage::Awaiting || run.stage == Stage::Starting {
                assert(run.next == run0.next);
                assert forall|q: int| p < q <= n implies !(#[trigger] asked(
                    members,
                    order,
                    events,
                    q,
                ) is Inspect) by {
                    if q < n {
                        assert(!(asked(members, order, head, q) is Inspect));
                    }
                }
                assert forall|d: int|
                    0 <= d < run.dep && (#[trigger] deps[d]).condition
                        != stack::DepCondition::Started && has_service(
                        members,
                        deps[d].service@,
                    ) implies waited_for(members, order, events, deps[d], p, n) by {
                    lemma_needs_no_wait(members, i as int, d);
                    if d < run0.dep {
                        assert(waited_for(members, order, head, deps[d], p, n - 1));
                        let (q, t) = choose|q: int, t: int|
                            p < q < n - 1 && stands_for_service(members, deps[d].service@, t)
                                && #[trigger] asked(members, order, head, q) == (
                            #[trigger] wait_command(deps[d].condition, t)) && head[q]
                                == StartEvent::Waited;
                        assert(asked(members, order, events, q) == wait_command(
                            deps[d].condition,
                            t,
                        ));
                        assert(events[q] == head[q]);
                    } else if d == run0.dep {
                        let t = target(members, deps[d].service@);
                        assert(asked(members, order, events, n - 1) == wait_command(
                            deps[d].condition,
                            t,
                        ));
                        assert(events[n - 1] == StartEvent::Waited);
                    }
                }
            }
            p
        } else {
            0
        }
    }
}

/// Whatever is reported, before the machine asks for the start of a member it has
/// asked about that member, has been told that it does not run, and has since
/// then asked for a wait for every dependency of the member that has a member in
/// the stack and asks for health or for completion, wherever it stands in the
/// list; and each of these waits has been reported to be over.
pub proof fn law_starts_wait_for_every_dependency(
    members: Seq<stack::Member>,
    order: Seq<usize>,
    events: Seq<StartEvent>,
    i: usize,
)
    requires
        names_members(members, order),
        asked(members, order, events, events.len() as int) == StartCommand::Start(i),
    ensures
        i < members.len(),
        exists|p: int|
            #[trigger] dealing_since(members, order, events, i, p) && forall|d: int|
                0 <= d < members[i as int].deps@.len() && (
                #[trigger] members[i as int].deps@[d]).condition != stack::DepCondition::Started
                    && has_service(members, members[i as int].deps@[d].service@) ==> waited_for(
                    members,
                    order,
                    events,
                    members[i as int].deps@[d],
                    p,
                    events.len() as int,
                ),
{
    assert(events.take(events.len() as int) =~= events);
    let p = lemma_dealing(members, order, events);
    assert(dealing_since(members, order, events, i, p));
}

/// Whatever is reported, a wait is asked for only on behalf of a member that was
/// found not running, for a dependency that it lists under the condition that is
/// waited for.
pub proof fn law_waits_are_called_for(
    members: Seq<stack::Member>,
    order: Seq<usize>,
    events: Seq<StartEvent>,
    t: usize,
    condition: stack::DepCondition,
)
    requires
        names_members(members, order),
        condition != stack::DepCondition::Started,
        asked(members, order, events, events.len() as int) == wait_command(condition, t as int),
    ensures
        exists|i: usize, p: int, d: int|
            #[trigger] dealing_since(members, order, events, i, p) && i < members.len() && 0 <= d
                < members[i as int].deps@.len() && (
            #[trigger] members[i as int].deps@[d]).condition == condition && stands_for_service(
                members,
                members[i as int].deps@[d].service@,
                t as int,
            ),
{
    assert(events.take(events.len() as int) =~= events);
    let p = lemma_dealing(members, order, events);
    let run = start_run(members, order, events);
    let i = order[run.next];
    let d = run.dep;
    lemma_needs_no_wait(members, i as int, d);
    assert(dealing_since(members, order, events, i, p));
    assert(members[i as int].deps@[d].condition == condition);
}

/// A pass over all members that left some of them unstarted is judged by the
/// deadline. Once it has passed, the work ends and reports how many failed; until
/// then the machine goes over the stack from its first member again, at once if
/// it got any member started and after a pause otherwise.
pub proof fn law_unfinished_pass_is_repeated(
    members: Seq<stack::Member>,
    order: Seq<usize>,
    visits: Seq<Visit>,
)
    requires
        names_members(members, order),
        visits.len() == order.len(),
        visits.contains(Visit::Failed),
    ensures
        ({
            let run = pass_after(members, order, visits);
            let next = after(run, members, order, StartEvent::Deadline(false));
            let rested = after(next, members, order, StartEvent::Rested);
            &&& command_of(run, members, order) == StartCommand::AskDeadline
            &&& command_of(
                after(run, members, order, StartEvent::Deadline(true)),
                members,
                order,
            ) == StartCommand::Finish(
                stack::StackOutcome {
                    total: members.len() as usize,
                    failed: visits.filter(|v: Visit| v == Visit::Failed).len() as usize,
                },
            )
            &&& if visits.contains(Visit::Started) {
                command_of(next, members, order) == StartCommand::Inspect(order[0]) && next
                    == pass_start(order.len() as int)
            } else {
                command_of(next, members, order) == StartCommand::Pause && command_of(
                    rested,
                    members,
                    order,
                ) == StartCommand::Inspect(order[0]) && rested == pass_start(order.len() as int)
            }
        }),
{
    law_pass_counts_failures(members, order, visits);
    lemma_failures_are_counted(visits);
}

/// A pass over all members in which none failed ends the work with no failure.
pub proof fn law_finished_pass_ends_the_work(
    members: Seq<stack::Member>,
    order: Seq<usize>,
    visits: Seq<Visit>,
)
    requires
        names_members(members, order),
        visits.len() == order.len(),
        !visits.contains(Visit::Failed),
    ensures
        command_of(pass_after(members, order, visits), members, order) == StartCommand::Finish(
            stack::StackOutcome { total: members.len() as usize, failed: 0 },
        ),
{
    law_pass_counts_failures(members, order, visits);
    lemma_failures_are_counted(visits);
}

proof fn lemma_failures_are_counted(visits: Seq<Visit>)
    ensures
        failures(visits) == visits.filter(|v: Visit| v == Visit::Failed).len(),
        visits.contains(Visit::Failed) == (failures(visits) > 0),
    decreases visits.len(),
{
    reveal(Seq::filter);
    if visits.len() > 0 {
        let head = visits.drop_last();
        lemma_failures_are_counted(head);
        lemma_failures_nonneg(head);
        if head.contains(Visit::Failed) {
            let k = choose|k: int| 0 <= k < head.len() && head[k] == Visit::Failed;
            assert(visits[k] == Visit::Failed);
        }
        if visits.last() == Visit::Failed {
            assert(visits[visits.len() - 1] == Visit::Failed);
        }
        if visits.contains(Visit::Failed) {
            let k = choose|k: int| 0 <= k < visits.len() && visits[k] == Visit::Failed;
            if k < head.len() {
                assert(head[k] == Visit::Failed);
            }
        }
    }
}

/// A stack without a cycle is stopped with dependents first: when a member that
/// depends on a service of the stack is stopped, a member of that service is
/// still to be stopped. Every member is stopped.
pub proof fn law_dependents_stop_first(
    stop: StackStop,
    rank: spec_fn(Seq<char>) -> nat,
    k: int,
    d: int,
    j: int,
)
    requires
        stop.members().len() <= usize::MAX,
        stack::no_cycle(stop.members(), rank),
        0 <= k < stop.sequence().len(),
        0 <= d < stop.members()[stop.sequence()[k] as int].deps@.len(),
        0 <= j < stop.members().len(),
        stop.members()[j].service@ == stop.members()[stop.sequence()[k] as int].deps@[d].service@,
    ensures
        stop.sequence().len() == stop.members().len(),
        exists|m: int|
            k < m < stop.sequence().len() && stop.members()[(
            #[trigger] stop.sequence()[m]) as int].service@ == stop.members()[j].service@,
        exists|m: int|
            0 <= m < stop.sequence().len() && #[trigger] stop.sequence()[m] == j,
{
    let members = stop.members();
    let t = stack::topo(members);
    let n = t.len() as int;
    stack::law_order_is_a_permutation(members);
    stack::law_acyclic_order_puts_dependencies_first(members, rank, n - 1 - k, d, j);
    let m = choose|m: int|
        0 <= m < n - 1 - k && members[(#[trigger] t[m]) as int].service@ == members[j].service@;
    assert(stop.sequence()[n - 1 - m] == t[m]);
    assert(t.contains(j as usize));
    let o = choose|o: int| 0 <= o < n && t[o] == j as usize;
    assert(stop.sequence()[n - 1 - o] == t[o]);
}

} // verus!
