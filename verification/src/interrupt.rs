//! Ctrl-C: stopping a run in a way the user can predict.
//!
//! The first interrupt stops dispatching new Hosts, then asks the ssh children
//! in flight to exit with `SIGTERM`, and gives them a grace period before
//! `SIGKILL`. A second interrupt skips the grace period. Killing the local ssh
//! does not stop the remote command, so a Host cut short is `cancelled`, never
//! `failed`.

use vstd::hash_set::StringHashSet;
use vstd::prelude::*;

use crate::privilege::{ask_back, ask_out, elapsed, span, spent_waiting, wait_of, Waiting};
use crate::text::{first_place, lemma_first_place, lemma_first_place_is, same};

verus! {

/// How long a child has to exit after `SIGTERM` before rshx sends `SIGKILL`, in
/// nanoseconds.
pub const GRACE: u128 = 2_000_000_000;

// ---------------------------------------------------------------------------
// The run's interrupt state
// ---------------------------------------------------------------------------

/// An ssh child in flight, with the pid that leads its process group.
pub struct Child {
    pub host: String,
    pub pid: i32,
}

/// The run's interrupt state.
///
/// Stopping and the in-flight set change together, which is what makes "stop
/// dispatching" and "kill what is in flight" one indivisible step: a Host
/// cannot slip in between them and be missed.
pub struct Interrupt {
    /// Set by the first interrupt.
    stopped: bool,
    /// In-flight ssh children, each Host once.
    running: Vec<Child>,
    /// Hosts whose ssh rshx killed, so their result is `cancelled` whatever
    /// exit status their death produced.
    killed: StringHashSet,
}

/// What an interrupt state is.
pub ghost struct InterruptModel {
    pub stopped: bool,
    pub running: Seq<(Seq<char>, i32)>,
    pub killed: Set<Seq<char>>,
}

/// The Hosts in flight.
pub open spec fn in_flight(m: InterruptModel) -> Seq<Seq<char>> {
    m.running.map_values(|c: (Seq<char>, i32)| c.0)
}

/// The process groups in flight.
pub open spec fn groups_in_flight(m: InterruptModel) -> Seq<i32> {
    m.running.map_values(|c: (Seq<char>, i32)| c.1)
}

impl View for Interrupt {
    type V = InterruptModel;

    closed spec fn view(&self) -> InterruptModel {
        InterruptModel {
            stopped: self.stopped,
            running: self.running@.map_values(|c: Child| (c.host@, c.pid)),
            killed: self.killed@,
        }
    }
}

/// Each Host is in flight at most once.
pub open spec fn once_each(m: InterruptModel) -> bool {
    forall|i: int, j: int|
        0 <= i < j < m.running.len() ==> #[trigger] m.running[i].0 != #[trigger] m.running[j].0
}

/// The state once a Host's ssh runs. One that starts after the run began to
/// stop counts as killed from the start.
pub open spec fn registered(m: InterruptModel, host: Seq<char>, pid: i32) -> InterruptModel {
    let k = first_place(in_flight(m), host);
    InterruptModel {
        stopped: m.stopped,
        running: if k < m.running.len() {
            m.running.update(k, (host, pid))
        } else {
            m.running.push((host, pid))
        },
        killed: if m.stopped {
            m.killed.insert(host)
        } else {
            m.killed
        },
    }
}

/// The state once a Host's ssh is gone.
pub open spec fn deregistered(m: InterruptModel, host: Seq<char>) -> InterruptModel {
    let k = first_place(in_flight(m), host);
    InterruptModel {
        running: if k < m.running.len() {
            m.running.remove(k)
        } else {
            m.running
        },
        ..m
    }
}

/// The state once the run stops: everything in flight counts as killed.
pub open spec fn begun(m: InterruptModel) -> InterruptModel {
    InterruptModel {
        stopped: true,
        running: m.running,
        killed: m.killed.union(in_flight(m).to_set()),
    }
}

/// What ends the time between asking the children to exit and killing them.
#[derive(Debug, Clone, Copy, PartialEq, Eq, Structural)]
pub enum Escalation {
    /// The grace period passed.
    GraceOver,
    /// A second interrupt, which skips the grace period.
    SecondInterrupt,
    /// Every child exited on its own.
    AllGone,
}

impl Default for Interrupt {
    fn default() -> (r: Interrupt)
        ensures
            !r@.stopped,
            r@.running == Seq::<(Seq<char>, i32)>::empty(),
            r@.killed == Set::<Seq<char>>::empty(),
            r.wf(),
    {
        let r = Interrupt { stopped: false, running: Vec::new(), killed: StringHashSet::new() };
        assert(r@.running =~= Seq::<(Seq<char>, i32)>::empty());
        r
    }
}

impl Interrupt {
    /// Each Host is in flight at most once.
    pub open spec fn wf(&self) -> bool {
        once_each(self@)
    }

    fn position(&self, host: &str) -> (r: usize)
        ensures
            r == first_place(in_flight(self@), host@),
            r <= self.running@.len(),
    {
        let mut i: usize = 0;
        while i < self.running.len()
            invariant
                i <= self.running@.len(),
                forall|j: int| 0 <= j < i ==> #[trigger] in_flight(self@)[j] != host@,
            decreases self.running@.len() - i,
        {
            assert(in_flight(self@)[i as int] == self.running@[i as int].host@);
            if same(self.running[i].host.as_str(), host) {
                proof {
                    lemma_first_place_is(in_flight(self@), host@, i as int);
                }
                return i;
            }
            i += 1;
        }
        proof {
            lemma_first_place_is(in_flight(self@), host@, i as int);
        }
        i
    }

    /// Whether the run has been interrupted. Only an optimisation: the
    /// authoritative gate is `register`, which cannot race the interrupt.
    pub fn is_stopped(&self) -> (r: bool)
        ensures
            r == self@.stopped,
    {
        self.stopped
    }

    /// Whether rshx killed this Host's ssh, which makes it `cancelled`.
    pub fn was_killed(&self, host: &str) -> (r: bool)
        ensures
            r == self@.killed.contains(host@),
    {
        self.killed.contains(host)
    }

    /// Whether no ssh child is in flight.
    pub fn is_idle(&self) -> (r: bool)
        ensures
            r == (self@.running.len() == 0),
    {
        self.running.len() == 0
    }

    /// Records that a Host's ssh is running, and answers whether it should be
    /// left alone. `false` means the run is already stopping, so the caller
    /// must kill it: it will never be dispatched.
    pub fn register(&mut self, host: &str, pid: i32) -> (r: bool)
        requires
            old(self).wf(),
        ensures
            final(self)@ == registered(old(self)@, host@, pid),
            r == !old(self)@.stopped,
            final(self).wf(),
    {
        let ghost before = self@;
        let k = self.position(host);
        let child = Child { host: host.to_string(), pid };
        proof {
            lemma_first_place(in_flight(before), host@);
            lemma_registered_once_each(before, host@, pid);
        }
        if k < self.running.len() {
            self.running.set(k, child);
            assert(self@.running =~= before.running.update(k as int, (host@, pid)));
        } else {
            self.running.push(child);
            assert(self@.running =~= before.running.push((host@, pid)));
        }
        if self.stopped {
            self.killed.insert(host.to_string());
            false
        } else {
            true
        }
    }

    /// Records that a Host's ssh is gone.
    pub fn deregister(&mut self, host: &str)
        requires
            old(self).wf(),
        ensures
            final(self)@ == deregistered(old(self)@, host@),
            final(self).wf(),
    {
        let ghost before = self@;
        let k = self.position(host);
        proof {
            lemma_first_place(in_flight(before), host@);
        }
        if k < self.running.len() {
            self.running.remove(k);
            assert(self@.running =~= before.running.remove(k as int));
        }
        assert(once_each(self@)) by {
            assert forall|i: int, j: int| 0 <= i < j < self@.running.len() implies
                #[trigger] self@.running[i].0 != #[trigger] self@.running[j].0 by {
                if k < before.running.len() {
                    let a = if i < k {
                        i
                    } else {
                        i + 1
                    };
                    let b = if j < k {
                        j
                    } else {
                        j + 1
                    };
                    assert(before.running[a].0 != before.running[b].0);
                }
            }
        }
    }

    /// Records that a Host's ssh was spawned, and answers the process group to
    /// terminate at once, where the run was interrupted while this ssh was
    /// starting. It is then already marked killed, so its result is
    /// `cancelled`. A child without a pid cannot be tracked, so it is left to
    /// run rather than killed blind.
    pub fn spawned(&mut self, host: &str, pid: i32) -> (r: Option<i32>)
        requires
            old(self).wf(),
        ensures
            final(self)@ == (if pid != 0 {
                registered(old(self)@, host@, pid)
            } else {
                old(self)@
            }),
            r == (if pid != 0 && old(self)@.stopped {
                Some(pid)
            } else {
                None
            }),
            final(self).wf(),
    {
        if pid != 0 && !self.register(host, pid) {
            Some(pid)
        } else {
            None
        }
    }

    /// Records that a Host's ssh, spawned with this pid, has ended.
    pub fn ended(&mut self, host: &str, pid: i32)
        requires
            old(self).wf(),
        ensures
            final(self)@ == (if pid != 0 {
                deregistered(old(self)@, host@)
            } else {
                old(self)@
            }),
            final(self).wf(),
    {
        if pid != 0 {
            self.deregister(host);
        }
    }

    /// Stops the run, and answers the process groups to terminate.
    ///
    /// `None` when the run was already stopping: the first interrupt owns the
    /// escalation, and a second one only skips the grace period. The Hosts in
    /// flight are marked before any signal is sent: a child that dies from the
    /// signal is gone by the time anyone looks again.
    pub fn begin(&mut self) -> (r: Option<Vec<i32>>)
        requires
            old(self).wf(),
        ensures
            old(self)@.stopped ==> r is None && final(self)@ == old(self)@,
            !old(self)@.stopped ==> {
                &&& r is Some
                &&& r->Some_0@ == groups_in_flight(old(self)@)
                &&& final(self)@ == begun(old(self)@)
            },
            final(self).wf(),
    {
        if self.stopped {
            return None;
        }
        let ghost before = self@;
        let pids = self.survivors();
        self.stopped = true;
        let ghost hosts = in_flight(before);
        let mut i: usize = 0;
        assert(before.killed.union(hosts.take(0).to_set()) =~= before.killed);
        while i < self.running.len()
            invariant
                i <= self.running@.len(),
                hosts == in_flight(before),
                self.stopped,
                self@.running == before.running,
                self.killed@ == before.killed.union(hosts.take(i as int).to_set()),
            decreases self.running@.len() - i,
        {
            self.killed.insert(self.running[i].host.clone());
            proof {
                assert(hosts[i as int] == before.running[i as int].0);
                assert(before.running[i as int] == self@.running[i as int]);
                assert(hosts.take(i + 1) == hosts.take(i as int).push(hosts[i as int]));
                hosts.take(i as int).lemma_push_to_set_commute(hosts[i as int]);
                assert(self.killed@ =~= before.killed.union(hosts.take(i + 1).to_set()));
            }
            i += 1;
        }
        assert(hosts.take(hosts.len() as int) == hosts);
        Some(pids)
    }

    /// The process groups still in flight.
    pub fn survivors(&self) -> (r: Vec<i32>)
        ensures
            r@ == groups_in_flight(self@),
    {
        let mut pids: Vec<i32> = Vec::new();
        let mut i: usize = 0;
        while i < self.running.len()
            invariant
                i <= self.running@.len(),
                pids@ == groups_in_flight(self@).take(i as int),
            decreases self.running@.len() - i,
        {
            pids.push(self.running[i].pid);
            i += 1;
            assert(groups_in_flight(self@).take(i as int) == groups_in_flight(self@).take(
                i - 1,
            ).push(self.running@[i - 1].pid));
        }
        assert(groups_in_flight(self@).take(self.running@.len() as int) == groups_in_flight(self@));
        pids
    }

    /// The process groups to kill, once the children were asked to exit: those
    /// still in flight, unless every child exited on its own.
    pub fn escalate(&self, why: Escalation) -> (r: Vec<i32>)
        ensures
            r@ == (if why is AllGone {
                Seq::empty()
            } else {
                groups_in_flight(self@)
            }),
    {
        match why {
            Escalation::AllGone => Vec::new(),
            Escalation::GraceOver => self.survivors(),
            Escalation::SecondInterrupt => self.survivors(),
        }
    }
}

proof fn lemma_registered_once_each(m: InterruptModel, host: Seq<char>, pid: i32)
    requires
        once_each(m),
    ensures
        once_each(registered(m, host, pid)),
{
    lemma_first_place(in_flight(m), host);
    let after = registered(m, host, pid);
    let k = first_place(in_flight(m), host);
    assert forall|i: int, j: int| 0 <= i < j < after.running.len() implies
        #[trigger] after.running[i].0 != #[trigger] after.running[j].0 by {
        assert(in_flight(m)[i] == m.running[i].0);
        if k < m.running.len() {
            assert(m.running[i].0 != m.running[j].0);
            assert(in_flight(m)[k] == m.running[k].0);
        } else if j < m.running.len() {
            assert(m.running[i].0 != m.running[j].0);
        } else {
            assert(in_flight(m)[i] != host);
        }
    }
}

/// The first interrupt reaches every Host in flight: each one counts as killed,
/// and the group of each one is terminated.
pub proof fn law_an_interrupt_reaches_everything_in_flight(m: InterruptModel, i: int)
    requires
        0 <= i < m.running.len(),
    ensures
        begun(m).stopped,
        begun(m).killed.contains(m.running[i].0),
        groups_in_flight(m).contains(m.running[i].1),
{
    assert(in_flight(m)[i] == m.running[i].0);
    assert(in_flight(m).contains(m.running[i].0));
    assert(groups_in_flight(m)[i] == m.running[i].1);
}

/// A Host cannot slip in after an interrupt: one that starts then counts as
/// killed.
pub proof fn law_no_host_slips_in_after_an_interrupt(m: InterruptModel, host: Seq<char>, pid: i32)
    requires
        m.stopped,
    ensures
        registered(m, host, pid).killed.contains(host),
{
}

/// A Host that was killed stays killed, whatever starts or ends after it, and
/// a run that stops stays stopped.
pub proof fn law_a_kill_is_final(m: InterruptModel, host: Seq<char>, other: Seq<char>, pid: i32)
    ensures
        m.killed.contains(host) ==> registered(m, other, pid).killed.contains(host),
        m.killed.contains(host) ==> deregistered(m, other).killed.contains(host),
        m.killed.contains(host) ==> begun(m).killed.contains(host),
        m.stopped ==> registered(m, other, pid).stopped && deregistered(m, other).stopped
            && begun(m).stopped,
{
}

/// A Host whose ssh is gone is no longer in flight, and no other Host is
/// touched by its going.
pub proof fn law_a_host_that_ended_is_not_in_flight(
    m: InterruptModel,
    host: Seq<char>,
    other: Seq<char>,
)
    requires
        once_each(m),
        host != other,
    ensures
        !in_flight(deregistered(m, host)).contains(host),
        in_flight(deregistered(m, host)).contains(other) == in_flight(m).contains(other),
{
    lemma_first_place(in_flight(m), host);
    let k = first_place(in_flight(m), host);
    let before = in_flight(m);
    let after = in_flight(deregistered(m, host));
    if k < m.running.len() {
        assert forall|i: int| 0 <= i < after.len() implies after[i] == before[if i < k {
            i
        } else {
            i + 1
        }] by {}
        if after.contains(host) {
            let i = choose|i: int| 0 <= i < after.len() && after[i] == host;
            let j = if i < k {
                i
            } else {
                i + 1
            };
            assert(before[j] == host);
            assert(m.running[j].0 == m.running[k].0);
        }
        if before.contains(other) {
            let j = choose|j: int| 0 <= j < before.len() && before[j] == other;
            let i = if j < k {
                j
            } else {
                j - 1
            };
            assert(after[i] == other);
        }
        if after.contains(other) {
            let i = choose|i: int| 0 <= i < after.len() && after[i] == other;
            assert(before[if i < k {
                i
            } else {
                i + 1
            }] == other);
        }
    } else {
        assert(deregistered(m, host).running == m.running);
    }
}

// ---------------------------------------------------------------------------
// A Host's limit
// ---------------------------------------------------------------------------

/// How much of a Host's limit it has used: everything since it started, less
/// the time that Host spent waiting for a password of its own. Waiting that
/// happened before this Host started is not its time, but it is not a credit to
/// it either: only the increase counts.
pub open spec fn own_time_of(started: u128, now: u128, spent: u128, before: u128) -> u128 {
    span(span(before, spent), span(started, now))
}

/// How much of a Host's limit it has used.
pub fn own_time(started: u128, now: u128, spent: u128, before: u128) -> (r: u128)
    ensures
        r == own_time_of(started, now, spent, before),
{
    elapsed(elapsed(before, spent), elapsed(started, now))
}

/// How far the wait for one child has come.
#[derive(Debug, Clone, Copy, PartialEq, Eq, Structural)]
pub enum Phase {
    /// The child runs on its own time.
    Waiting,
    /// The limit passed and the child was asked to exit.
    Grace,
    /// The grace period passed too and the child was killed.
    Killed,
}

/// What to do next for a child. Each wait is over when the child ends, but for
/// that for an answer, which is over when the answer has come back.
#[derive(Debug, Clone, Copy, PartialEq, Eq, Structural)]
pub enum Action {
    /// Wait for the child.
    AwaitChild,
    /// Wait until this Host's ask has come back: it is blocked on rshx, not on
    /// the network.
    AwaitAnswer,
    /// Wait for the child, but no longer than this, and no longer than until an
    /// ask goes out or comes back.
    AwaitChildFor(u128),
    /// Send `SIGTERM` to this process group, where there is one, and wait for
    /// the child, but no longer than the grace period.
    Terminate(Option<i32>),
    /// Send `SIGKILL` to this process group and wait for the child.
    KillGroup(i32),
    /// Kill the child itself and wait for it.
    KillChild,
}

/// The wait for one child, which terminates its process group if the limit
/// passes first.
///
/// The same escalation an interrupt uses: `SIGTERM`, a grace period, then
/// `SIGKILL`. A Host that timed out is rshx's kill, not ssh's own exit, so its
/// exit status says nothing and the caller reports no exit code.
///
/// A Host's own password ask is kept out of its limit. The Host is blocked on
/// rshx for as long as its ask is out, and that is not its time: without this a
/// slow typist would turn a healthy Host into a `timeout`. Only this Host's ask
/// counts — another Host's prompt is no reason to let this one run long.
pub struct Bounded {
    pub limit: Option<u128>,
    /// The pid that leads the child's process group; 0 when the child had no
    /// pid to record. Signalling group 0 would reach rshx's own process group,
    /// so that case kills the child directly instead of by group.
    pub pid: i32,
    /// When the wait began.
    pub started: u128,
    /// What this Host had already spent at prompts then.
    pub before: u128,
    pub phase: Phase,
}

/// The next thing to do, and the phase after it. `asking` and `spent` are this
/// Host's prompts as they stand.
pub open spec fn next_action(w: Bounded, now: u128, asking: bool, spent: u128) -> (Action, Phase) {
    match w.phase {
        Phase::Waiting => match w.limit {
            None => (Action::AwaitChild, Phase::Waiting),
            Some(limit) => {
                let remaining = span(own_time_of(w.started, now, spent, w.before), limit);
                if asking {
                    (Action::AwaitAnswer, Phase::Waiting)
                } else if remaining > 0 {
                    (Action::AwaitChildFor(remaining), Phase::Waiting)
                } else {
                    (
                        Action::Terminate(
                            if w.pid != 0 {
                                Some(w.pid)
                            } else {
                                None
                            },
                        ),
                        Phase::Grace,
                    )
                }
            },
        },
        Phase::Grace => (
            if w.pid != 0 {
                Action::KillGroup(w.pid)
            } else {
                Action::KillChild
            },
            Phase::Killed,
        ),
        Phase::Killed => (Action::AwaitChild, Phase::Killed),
    }
}

impl Bounded {
    /// The wait begins.
    pub fn new(limit: Option<u128>, pid: i32, started: u128, before: u128) -> (r: Bounded)
        ensures
            r == (Bounded { limit, pid, started, before, phase: Phase::Waiting }),
    {
        Bounded { limit, pid, started, before, phase: Phase::Waiting }
    }

    /// What to do next, asked again after each thing that did not end the
    /// child. A limit that ran out is decided here, at the time it is now, so a
    /// Host is only given up on for time that was its own.
    pub fn next(&mut self, now: u128, asking: bool, spent: u128) -> (r: Action)
        ensures
            r == next_action(*old(self), now, asking, spent).0,
            *final(self) == (Bounded {
                phase: next_action(*old(self), now, asking, spent).1,
                ..*old(self)
            }),
    {
        match self.phase {
            Phase::Waiting => match self.limit {
                None => Action::AwaitChild,
                Some(limit) => {
                    if asking {
                        return Action::AwaitAnswer;
                    }
                    let used = own_time(self.started, now, spent, self.before);
                    let remaining = elapsed(used, limit);
                    if remaining > 0 {
                        return Action::AwaitChildFor(remaining);
                    }
                    self.phase = Phase::Grace;
                    if self.pid != 0 {
                        Action::Terminate(Some(self.pid))
                    } else {
                        Action::Terminate(None)
                    }
                },
            },
            Phase::Grace => {
                self.phase = Phase::Killed;
                if self.pid != 0 {
                    Action::KillGroup(self.pid)
                } else {
                    Action::KillChild
                }
            },
            Phase::Killed => Action::AwaitChild,
        }
    }

    /// Whether the limit fired.
    pub fn timed_out(&self) -> (r: bool)
        ensures
            r == (self.phase != Phase::Waiting),
    {
        match self.phase {
            Phase::Waiting => false,
            Phase::Grace => true,
            Phase::Killed => true,
        }
    }
}

/// A Host is given up on only when it has a limit, is not waiting for a
/// password, and its own time has reached the limit; so never before the limit
/// has passed since it started.
pub proof fn law_a_host_is_given_up_on_only_for_its_own_time(
    w: Bounded,
    now: u128,
    asking: bool,
    spent: u128,
)
    requires
        w.phase == Phase::Waiting,
    ensures
        next_action(w, now, asking, spent).1 != Phase::Waiting <==> w.limit is Some && !asking
            && own_time_of(w.started, now, spent, w.before) >= w.limit->Some_0,
        next_action(w, now, asking, spent).1 != Phase::Waiting ==> span(w.started, now)
            >= w.limit->Some_0,
{
}

/// A Host that does not ask is given up on as soon as its limit has passed: the
/// wait is as long as the rest of the limit, and after it nothing is left.
pub proof fn law_the_wait_ends_with_the_limit(w: Bounded, now: u128, later: u128, spent: u128)
    requires
        w.phase == Phase::Waiting,
        next_action(w, now, false, spent).0 is AwaitChildFor,
        w.started <= now,
        span(w.before, spent) <= span(w.started, now),
        now + next_action(w, now, false, spent).0->AwaitChildFor_0 <= later,
    ensures
        next_action(w, later, false, spent).0 is Terminate,
{
}

/// Time a Host spends at a prompt of its own moves its deadline by as much.
pub proof fn law_a_prompt_moves_the_deadline(
    w: Bounded,
    now: u128,
    spent: u128,
    more: u128,
)
    requires
        w.phase == Phase::Waiting,
        w.started <= now,
        w.before <= spent,
        spent - w.before <= now - w.started,
        now + more <= u128::MAX,
        spent + more <= u128::MAX,
    ensures
        next_action(w, (now + more) as u128, false, (spent + more) as u128) == next_action(
            w,
            now,
            false,
            spent,
        ),
{
}

/// The time between a Host's own ask going out and coming back is not its time;
/// all the rest since it started is. Another Host's ask changes nothing of it.
pub proof fn law_only_a_hosts_own_prompt_is_not_its_time(
    clock: Map<Seq<char>, Waiting>,
    host: Seq<char>,
    other: Seq<char>,
    started: u128,
    out: u128,
    back: u128,
    now: u128,
)
    requires
        host != other,
        wait_of(clock, host).since is None,
        started <= out <= back <= now,
        wait_of(clock, host).spent + (back - out) <= u128::MAX,
    ensures
        own_time_of(
            started,
            now,
            spent_waiting(ask_back(ask_out(clock, host, out), host, back), host, now),
            spent_waiting(clock, host, started),
        ) == (now - started) - (back - out),
        own_time_of(
            started,
            now,
            spent_waiting(ask_back(ask_out(clock, other, out), other, back), host, now),
            spent_waiting(clock, host, started),
        ) == now - started,
{
}

/// A child that was asked to exit is killed next if it does not, and a wait
/// that timed out stays timed out.
pub proof fn law_term_is_followed_by_kill(w: Bounded, now: u128, asking: bool, spent: u128)
    requires
        w.phase != Phase::Waiting,
    ensures
        w.phase == Phase::Grace ==> next_action(w, now, asking, spent).0 == (if w.pid != 0 {
            Action::KillGroup(w.pid)
        } else {
            Action::KillChild
        }),
        next_action(w, now, asking, spent).1 == Phase::Killed,
{
}

/// No signal ever goes to group 0, which would be rshx's own.
pub proof fn law_rshx_never_signals_itself(w: Bounded, now: u128, asking: bool, spent: u128)
    ensures
        next_action(w, now, asking, spent).0 != Action::KillGroup(0),
        next_action(w, now, asking, spent).0 != Action::Terminate(Some(0)),
{
}

/// A Host that starts is in flight under its own process group; no other Host's
/// changes, and it is cancelled only where the run was stopped already.
pub proof fn law_a_host_that_started_is_in_flight(
    m: InterruptModel,
    host: Seq<char>,
    pid: i32,
    other: Seq<char>,
    other_pid: i32,
)
    requires
        once_each(m),
    ensures
        registered(m, host, pid).running.contains((host, pid)),
        registered(m, host, pid).running.contains((host, other_pid)) ==> other_pid == pid,
        host != other ==> registered(m, host, pid).running.contains((other, other_pid))
            == m.running.contains((other, other_pid)),
        registered(m, host, pid).stopped == m.stopped,
        registered(m, host, pid).killed.contains(other) <==> m.killed.contains(other) || (m.stopped
            && other == host),
{
    let names = in_flight(m);
    let k = first_place(names, host);
    lemma_first_place(names, host);
    let after = registered(m, host, pid).running;
    if k < m.running.len() {
        assert(after[k] == (host, pid));
        assert(names[k] == m.running[k].0);
    } else {
        assert(after[m.running.len() as int] == (host, pid));
    }
    if after.contains((host, other_pid)) {
        let i = choose|i: int| 0 <= i < after.len() && after[i] == (host, other_pid);
        if i < m.running.len() && i != k {
            assert(m.running[i].0 == host);
            assert(names[i] == host);
            if k < m.running.len() {
                if i < k {
                    assert(m.running[i].0 != m.running[k].0);
                } else {
                    assert(m.running[k].0 != m.running[i].0);
                }
            } else {
                assert(names.contains(host));
            }
        }
    }
    if host != other {
        if m.running.contains((other, other_pid)) {
            let i = choose|i: int| 0 <= i < m.running.len() && m.running[i] == (other, other_pid);
            assert(names[i] == other);
            assert(after[i] == (other, other_pid));
        }
        if after.contains((other, other_pid)) {
            let i = choose|i: int| 0 <= i < after.len() && after[i] == (other, other_pid);
            assert(m.running[i] == (other, other_pid));
        }
    }
}

/// An interrupt cancels the Hosts in flight and no others, and leaves them in
/// flight until they end; it signals their process groups, each once.
pub proof fn law_an_interrupt_reaches_only_what_is_in_flight(m: InterruptModel, host: Seq<char>, i: int)
    ensures
        begun(m).killed.contains(host) <==> m.killed.contains(host) || in_flight(m).contains(host),
        begun(m).running == m.running,
        begun(m).stopped,
        groups_in_flight(m).len() == m.running.len(),
        0 <= i < m.running.len() ==> groups_in_flight(m)[i] == m.running[i].1,
        0 <= i < m.running.len() ==> in_flight(m)[i] == m.running[i].0,
{
    assert(in_flight(m).to_set().contains(host) == in_flight(m).contains(host));
}

/// A Host that ended is the only one that leaves; the others keep their process
/// groups, and nobody's cancelling is taken back or added.
pub proof fn law_a_host_that_ended_leaves_alone(
    m: InterruptModel,
    host: Seq<char>,
    other: Seq<char>,
    pid: i32,
)
    requires
        once_each(m),
        host != other,
    ensures
        deregistered(m, host).running.contains((other, pid)) == m.running.contains((other, pid)),
        !deregistered(m, host).running.contains((host, pid)),
        deregistered(m, host).killed == m.killed,
        deregistered(m, host).stopped == m.stopped,
{
    let names = in_flight(m);
    let k = first_place(names, host);
    lemma_first_place(names, host);
    let after = deregistered(m, host).running;
    if m.running.contains((other, pid)) {
        let i = choose|i: int| 0 <= i < m.running.len() && m.running[i] == (other, pid);
        assert(names[i] == other);
        if k < m.running.len() && i > k {
            assert(after[i - 1] == (other, pid));
        } else {
            if k < m.running.len() {
                assert(names[k] == host);
            }
            assert(after[i] == (other, pid));
        }
    }
    if after.contains((other, pid)) {
        let i = choose|i: int| 0 <= i < after.len() && after[i] == (other, pid);
        if k < m.running.len() && i >= k {
            assert(m.running[i + 1] == (other, pid));
        } else {
            assert(m.running[i] == (other, pid));
        }
    }
    if after.contains((host, pid)) {
        let i = choose|i: int| 0 <= i < after.len() && after[i] == (host, pid);
        if k < m.running.len() {
            assert(names[k] == m.running[k].0);
            if i >= k {
                assert(m.running[k].0 != m.running[i + 1].0);
            } else {
                assert(m.running[i].0 != m.running[k].0);
            }
        } else {
            assert(names[i] == host);
            assert(names.contains(host));
        }
    }
}

/// A Host's own time is the time since it started, less what it spent waiting at
/// prompts meanwhile.
pub proof fn law_a_hosts_own_time_leaves_its_prompts_out(
    started: u128,
    now: u128,
    before: u128,
    spent: u128,
)
    requires
        started <= now,
        before <= spent,
        spent - before <= now - started,
    ensures
        own_time_of(started, now, spent, before) == (now - started) - (spent - before),
{
}

/// What is done for a child that runs on its own time: without a limit it is
/// waited for; while its Host is asked for a password, nothing is counted
/// against it; it is waited for as long as its limit leaves it; and once that is
/// used up its process group is asked to exit, and it counts as timed out.
pub proof fn law_a_child_is_waited_for_as_long_as_it_has(
    limit: u128,
    pid: i32,
    started: u128,
    before: u128,
    now: u128,
    asking: bool,
    spent: u128,
)
    requires
        started <= now,
        before <= spent,
        spent - before <= now - started,
    ensures
        ({
            let w = Bounded { limit: Some(limit), pid, started, before, phase: Phase::Waiting };
            let used = (now - started) - (spent - before);
            let next = next_action(w, now, asking, spent);
            &&& next_action(Bounded { limit: None, ..w }, now, asking, spent) == (
                Action::AwaitChild,
                Phase::Waiting,
            )
            &&& asking ==> next == (Action::AwaitAnswer, Phase::Waiting)
            &&& !asking && used < limit ==> next == (
                Action::AwaitChildFor((limit - used) as u128),
                Phase::Waiting,
            )
            &&& !asking && used >= limit && pid != 0 ==> next == (
                Action::Terminate(Some(pid)),
                Phase::Grace,
            )
            &&& !asking && used >= limit && pid == 0 ==> next == (
                Action::Terminate(None),
                Phase::Grace,
            )
        }),
{
}

/// A child that was killed is only waited for.
pub proof fn law_a_killed_child_is_only_waited_for(w: Bounded, now: u128, asking: bool, spent: u128)
    requires
        w.phase == Phase::Killed,
    ensures
        next_action(w, now, asking, spent) == (Action::AwaitChild, Phase::Killed),
{
}

/// A child that was asked to exit has two seconds to do so.
pub proof fn law_a_child_has_two_seconds_of_grace()
    ensures
        GRACE == 2 * 1_000_000_000,
{
}

} // verus!
