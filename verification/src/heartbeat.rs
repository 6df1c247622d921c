//! The line that says a long run is still alive.
//!
//! It is stderr chrome, never part of the report: a run's results are complete
//! without it. It is drawn only when stderr is an interactive terminal, so a
//! redirected file gets no heartbeat and no escape sequences, and it is off
//! under `--json`.

use vstd::prelude::*;

use crate::privilege::{elapsed, span};
use crate::run::outcome::Outcome;
use crate::text::{
    decimal, first_place, is_before, lemma_first_place, lemma_first_place_is, lemma_precedes_chain,
    lemma_precedes_total, precedes, same, write_decimal,
};

verus! {

/// How often the heartbeat is redrawn while Hosts are in flight, in
/// nanoseconds. Only the elapsed time changes between Hosts settling, so this
/// is a readability choice, not a scheduling one.
pub const TICK: u128 = 200_000_000;

/// A Host in flight, and when it started, in nanoseconds.
pub struct Started {
    pub host: String,
    pub at: u128,
}

/// A one-line summary of a run in progress.
pub struct Heartbeat {
    /// When each in-flight Host started, so the longest-running one can be
    /// named. Each Host is here at most once.
    running: Vec<Started>,
    done: u64,
}

/// What a heartbeat knows.
pub ghost struct HeartbeatModel {
    pub running: Seq<(Seq<char>, u128)>,
    pub done: u64,
}

impl View for Heartbeat {
    type V = HeartbeatModel;

    closed spec fn view(&self) -> HeartbeatModel {
        HeartbeatModel {
            running: self.running@.map_values(|s: Started| (s.host@, s.at)),
            done: self.done,
        }
    }
}

/// The Hosts in flight.
pub open spec fn beating(m: HeartbeatModel) -> Seq<Seq<char>> {
    m.running.map_values(|s: (Seq<char>, u128)| s.0)
}

/// The heartbeat once a Host has started.
pub open spec fn after_start(m: HeartbeatModel, host: Seq<char>, now: u128) -> HeartbeatModel {
    let k = first_place(beating(m), host);
    HeartbeatModel {
        running: if k < m.running.len() {
            m.running.update(k, (host, now))
        } else {
            m.running.push((host, now))
        },
        ..m
    }
}

/// The heartbeat once a Host has settled.
pub open spec fn after_finish(m: HeartbeatModel, host: Seq<char>) -> HeartbeatModel {
    let k = first_place(beating(m), host);
    HeartbeatModel {
        running: if k < m.running.len() {
            m.running.remove(k)
        } else {
            m.running
        },
        done: if m.done < u64::MAX {
            (m.done + 1) as u64
        } else {
            m.done
        },
    }
}

/// Whether the first Host is ahead of the second: it has run longer, or as long
/// with a later name.
pub open spec fn ahead(a: (Seq<char>, u128), b: (Seq<char>, u128), now: u128) -> bool {
    span(a.1, now) > span(b.1, now) || (span(a.1, now) == span(b.1, now) && !precedes(a.0, b.0))
}

/// Whether this Host has been running longest.
pub open spec fn is_longest(running: Seq<(Seq<char>, u128)>, i: int, now: u128) -> bool {
    &&& 0 <= i < running.len()
    &&& forall|j: int| 0 <= j < running.len() ==> ahead(running[i], #[trigger] running[j], now)
}

proof fn lemma_ahead_chain(
    a: (Seq<char>, u128),
    b: (Seq<char>, u128),
    c: (Seq<char>, u128),
    now: u128,
)
    requires
        ahead(a, b, now),
        ahead(b, c, now),
    ensures
        ahead(a, c, now),
{
    if precedes(a.0, c.0) {
        lemma_precedes_total(a.0, b.0);
        lemma_precedes_total(b.0, c.0);
        lemma_precedes_total(a.0, c.0);
        if precedes(b.0, a.0) {
            lemma_precedes_chain(b.0, a.0, c.0);
        }
    }
}

impl Heartbeat {
    /// Nothing in flight yet.
    pub fn new() -> (r: Heartbeat)
        ensures
            r@.running == Seq::<(Seq<char>, u128)>::empty(),
            r@.done == 0,
    {
        let r = Heartbeat { running: Vec::new(), done: 0 };
        assert(r@.running =~= Seq::<(Seq<char>, u128)>::empty());
        r
    }

    fn position(&self, host: &str) -> (r: usize)
        ensures
            r == first_place(beating(self@), host@),
            r <= self.running@.len(),
    {
        let mut i: usize = 0;
        while i < self.running.len()
            invariant
                i <= self.running@.len(),
                forall|j: int| 0 <= j < i ==> #[trigger] beating(self@)[j] != host@,
            decreases self.running@.len() - i,
        {
            assert(beating(self@)[i as int] == self.running@[i as int].host@);
            if same(self.running[i].host.as_str(), host) {
                proof {
                    lemma_first_place_is(beating(self@), host@, i as int);
                }
                return i;
            }
            i += 1;
        }
        proof {
            lemma_first_place_is(beating(self@), host@, i as int);
        }
        i
    }

    /// How many Hosts have settled.
    pub fn done(&self) -> (r: u64)
        ensures
            r == self@.done,
    {
        self.done
    }

    /// Records that a Host's remote command is starting.
    pub fn start(&mut self, host: &str, now: u128)
        ensures
            final(self)@ == after_start(old(self)@, host@, now),
    {
        let ghost before = self@;
        let k = self.position(host);
        let started = Started { host: host.to_string(), at: now };
        if k < self.running.len() {
            self.running.set(k, started);
            assert(self@.running =~= before.running.update(k as int, (host@, now)));
        } else {
            self.running.push(started);
            assert(self@.running =~= before.running.push((host@, now)));
        }
    }

    /// Records that a Host settled.
    pub fn finish(&mut self, outcome: &Outcome)
        ensures
            final(self)@ == after_finish(old(self)@, outcome.host@),
    {
        let ghost before = self@;
        let k = self.position(outcome.host.as_str());
        if k < self.running.len() {
            self.running.remove(k);
            assert(self@.running =~= before.running.remove(k as int));
        }
        if self.done < u64::MAX {
            self.done += 1;
        }
    }

    /// The Host that has been running longest, with its elapsed time.
    pub fn longest_running(&self, now: u128) -> (r: Option<(String, u128)>)
        ensures
            match r {
                Some(longest) => exists|i: int|
                    #[trigger] is_longest(self@.running, i, now) && self@.running[i].0
                        == longest.0@ && longest.1 == span(self@.running[i].1, now),
                None => self@.running.len() == 0,
            },
    {
        if self.running.len() == 0 {
            return None;
        }
        let ghost all = self@.running;
        let mut best: usize = 0;
        let mut i: usize = 1;
        proof {
            lemma_precedes_total(all[0].0, all[0].0);
        }
        while i < self.running.len()
            invariant
                1 <= i <= self.running@.len(),
                best < i,
                all == self@.running,
                forall|j: int| 0 <= j < i ==> ahead(all[best as int], #[trigger] all[j], now),
            decreases self.running@.len() - i,
        {
            let a = elapsed(self.running[i].at, now);
            let b = elapsed(self.running[best].at, now);
            let ghost old_best = best as int;
            proof {
                assert(all[i as int] == (self.running@[i as int].host@, self.running@[i as int].at));
                assert(all[old_best] == (
                    self.running@[old_best].host@,
                    self.running@[old_best].at,
                ));
                lemma_precedes_total(all[i as int].0, all[old_best].0);
                lemma_precedes_total(all[i as int].0, all[i as int].0);
            }
            if a > b || (a == b && is_before(
                self.running[best].host.as_str(),
                self.running[i].host.as_str(),
            )) {
                best = i;
                proof {
                    assert(ahead(all[i as int], all[old_best], now));
                    assert forall|j: int| 0 <= j < i + 1 implies ahead(
                        all[best as int],
                        #[trigger] all[j],
                        now,
                    ) by {
                        if j < i {
                            lemma_ahead_chain(all[i as int], all[old_best], all[j], now);
                        }
                    }
                }
            }
            i += 1;
        }
        assert(is_longest(all, best as int, now));
        assert(all[best as int] == (self.running@[best as int].host@, self.running@[best as int].at));
        Some((self.running[best].host.clone(), elapsed(self.running[best].at, now)))
    }

    /// The line's text, as it would be drawn, with the elapsed seconds of the
    /// longest-running Host as they are shown.
    ///
    /// How far the run has got is shown beside it, so the message carries only
    /// what a count cannot: what is in flight, and what is taking longest.
    /// Naming the slowest Host is what tells a reader the run is waiting on one
    /// machine rather than on the network.
    pub fn message(&self, longest: Option<(String, u128)>, seconds: &str) -> (r: String)
        ensures
            r@ == (match longest {
                None => Seq::empty(),
                Some(host) => decimal(self@.running.len() as int) + " running, "@ + host.0@ + " "@
                    + seconds@ + "s"@,
            }),
    {
        match longest {
            None => String::new(),
            Some(host) => {
                let mut s = write_decimal(self.running.len() as u64);
                s.append(" running, ");
                s.append(host.0.as_str());
                s.append(" ");
                s.append(seconds);
                s.append("s");
                s
            },
        }
    }
}

/// Only one Host is named as the longest-running, where each Host is in flight
/// once.
pub proof fn law_one_host_is_the_longest_running(
    running: Seq<(Seq<char>, u128)>,
    i: int,
    j: int,
    now: u128,
)
    requires
        is_longest(running, i, now),
        is_longest(running, j, now),
    ensures
        running[i].0 == running[j].0,
        span(running[i].1, now) == span(running[j].1, now),
{
    assert(ahead(running[i], running[j], now));
    assert(ahead(running[j], running[i], now));
    lemma_precedes_total(running[i].0, running[j].0);
}

/// The longest-running Host is one that started first.
pub proof fn law_the_longest_running_started_first(
    running: Seq<(Seq<char>, u128)>,
    i: int,
    j: int,
    now: u128,
)
    requires
        is_longest(running, i, now),
        0 <= j < running.len(),
        running[i].1 <= now,
        running[j].1 <= now,
    ensures
        running[i].1 <= running[j].1,
{
    assert(ahead(running[i], running[j], now));
}

/// A Host that starts is running since then, and a Host that finishes is no
/// longer running and counts as done; neither changes what any other Host does.
pub proof fn law_the_heartbeat_follows_starts_and_finishes(
    m: HeartbeatModel,
    host: Seq<char>,
    now: u128,
    other: Seq<char>,
    at: u128,
)
    requires
        host != other,
    ensures
        after_start(m, host, now).running.contains((host, now)),
        after_start(m, host, now).running.contains((other, at)) == m.running.contains((other, at)),
        after_start(m, host, now).done == m.done,
        after_finish(m, host).running.contains((other, at)) == m.running.contains((other, at)),
        after_finish(m, host).running.len() == m.running.len() - (if beating(m).contains(host) {
            1int
        } else {
            0
        }),
        m.done < u64::MAX ==> after_finish(m, host).done == m.done + 1,
{
    let names = beating(m);
    let k = first_place(names, host);
    lemma_first_place(names, host);
    let begun = after_start(m, host, now).running;
    let over = after_finish(m, host).running;
    if k < m.running.len() {
        assert(begun[k] == (host, now));
        assert(names[k] == m.running[k].0);
    } else {
        assert(begun[m.running.len() as int] == (host, now));
    }
    if m.running.contains((other, at)) {
        let i = choose|i: int| 0 <= i < m.running.len() && m.running[i] == (other, at);
        assert(names[i] == other);
        assert(begun[i] == (other, at));
        if k < m.running.len() && i > k {
            assert(over[i - 1] == (other, at));
        } else {
            assert(over[i] == (other, at));
        }
    }
    if begun.contains((other, at)) {
        let i = choose|i: int| 0 <= i < begun.len() && begun[i] == (other, at);
        assert(m.running[i] == (other, at));
    }
    if over.contains((other, at)) {
        let i = choose|i: int| 0 <= i < over.len() && over[i] == (other, at);
        if k < m.running.len() && i >= k {
            assert(m.running[i + 1] == (other, at));
        } else {
            assert(m.running[i] == (other, at));
        }
    }
}

/// Of Hosts that have run equally long, the one whose name comes last is named.
pub proof fn law_a_tie_goes_to_the_last_name(
    running: Seq<(Seq<char>, u128)>,
    i: int,
    j: int,
    now: u128,
)
    requires
        is_longest(running, i, now),
        0 <= j < running.len(),
    ensures
        span(running[i].1, now) >= span(running[j].1, now),
        span(running[i].1, now) == span(running[j].1, now) ==> running[i].0 == running[j].0
            || precedes(running[j].0, running[i].0),
{
    assert(ahead(running[i], running[j], now));
    lemma_precedes_total(running[i].0, running[j].0);
}

} // verus!
