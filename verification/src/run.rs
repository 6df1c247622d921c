//! Running the command on Hosts, listing the Hosts a run would select, and
//! deciding what a run's outcome means.
//!
//! This module is the run itself: what the command line asks for, and what
//! becomes of the Hosts as they settle. Around it, one module per concern —
//! `outcome` is what a Host's command did, `ssh` turns one Host's ssh into that
//! outcome, `stream` reads its two streams, `prompt` answers the password a
//! remote sudo asks for, and `detach` is what a detached launch does
//! differently.

use vstd::prelude::*;

use crate::cli::{CliCommand, CliOptions};
use crate::privilege::{names_sudo, runs_sudo, sudo_words};
use crate::report::{Detail, Format, Reporter};
use crate::run::outcome::{run_exit, statuses};
use crate::run::prompt::Asking;
use crate::text::{opt_text, texts};
use crate::EXIT_LOCAL;

pub mod command;
pub mod detach;
pub mod list;
pub mod outcome;
pub mod prompt;
pub mod script;
pub mod ssh;
pub mod stream;

pub use crate::run::outcome::{exit_code, Outcome, Status};

verus! {

/// What a command line comes to.
pub enum Plan {
    /// Answered from the host file alone: nothing runs, so no Host has an
    /// outcome, and a listing is not a report.
    List,
    /// A script is copied to each Host and run there.
    Script { path: Vec<u8>, detach: bool },
    /// A command is handed to each Host's own ssh to run. `warning` is what
    /// rshx has to say about it first.
    Command { words: Vec<String>, detach: bool, warning: Option<&'static str> },
}

/// Said of a command that runs sudo itself under `--privilege`.
pub const NESTED_SUDO: &'static str =
    "the command runs sudo itself; --privilege puts its own sudo in front of it";

/// Decides what a subcommand does.
///
/// `--privilege` wraps the command once, before anything runs, so every Host
/// gets that same command: a remote sudo reads its password from stdin. The
/// warning is decided by the command as it was typed: the command itself is
/// already wrapped, and its own leading `sudo` is rshx's. A ping is a run like
/// any other: it names its command on the Host too, so a Host cut short is
/// stopped the same way.
pub fn plan(sub_command: &CliCommand, privilege: bool) -> (r: Plan)
    ensures
        match *sub_command {
            CliCommand::List => r is List,
            CliCommand::Ping => {
                &&& r is Command
                &&& texts(r->words@) == seq!["echo"@, "pong"@]
                &&& !r->Command_detach
                &&& r->warning is None
            },
            CliCommand::Run(args) => match args.script {
                Some(script) => r is Script && r->path@ == script@ && r->Script_detach
                    == args.detach,
                None => {
                    let nested = privilege && args.command@.len() > 0 && names_sudo(
                        args.command@[0]@,
                    );
                    &&& r is Command
                    &&& texts(r->words@) == (if privilege && !args.detach {
                        sudo_words() + texts(args.command@)
                    } else {
                        texts(args.command@)
                    })
                    &&& r->Command_detach == args.detach
                    &&& nested ==> r->warning is Some && r->warning->Some_0@ == NESTED_SUDO@
                    &&& !nested ==> r->warning is None
                },
            },
        },
{
    match sub_command {
        CliCommand::List => Plan::List,
        CliCommand::Run(args) => match &args.script {
            Some(script) => Plan::Script {
                path: vstd::slice::slice_to_vec(script.as_slice()),
                detach: args.detach,
            },
            None => {
                let words = detach::command(args.command.as_slice(), privilege, args.detach);
                let warning = if privilege && runs_sudo(args.command.as_slice()) {
                    Some(NESTED_SUDO)
                } else {
                    None
                };
                Plan::Command { words, detach: args.detach, warning }
            },
        },
        CliCommand::Ping => {
            let mut words: Vec<String> = Vec::new();
            words.push("echo".to_string());
            words.push("pong".to_string());
            assert(texts(words@) =~= seq!["echo"@, "pong"@]);
            Plan::Command { words, detach: false, warning: None }
        },
    }
}

/// The reporter a run writes through. Chrome goes on stderr, and only when a
/// terminal is watching it: a redirected stderr must stay free of it, and
/// `--json` must be parseable.
pub fn reporter(options: &CliOptions, stderr_is_terminal: bool) -> (r: Reporter)
    ensures
        r == (Reporter {
            when: options.color,
            detail: Detail { stdout: !options.quiet, stderr: options.stderr },
            format: if options.json {
                Format::Json
            } else {
                Format::Plain
            },
            chrome: !options.json && stderr_is_terminal,
        }),
{
    Reporter::new(
        options.color,
        Detail { stdout: !options.quiet, stderr: options.stderr },
        if options.json {
            Format::Json
        } else {
            Format::Plain
        },
        !options.json && stderr_is_terminal,
    )
}

/// What the run's window does with the next Host.
#[derive(Debug, Clone, Copy, PartialEq, Eq, Structural)]
pub enum Turn {
    /// The Host with this index starts.
    Start(usize),
    /// The Host whose turn it is never starts, because the run was stopped
    /// first.
    Skip,
    /// Every slot is taken, or no Host is pending.
    Wait,
}

/// A run in progress: at most `fanout` remote commands in flight, each one that
/// finishes replaced by a pending Host, in host-file order.
pub struct Run {
    /// How many Hosts were selected.
    pub total: usize,
    /// How many run at once.
    pub fanout: u32,
    /// The first Host whose turn has not come.
    pub next: usize,
    /// How many Hosts are running.
    pub in_flight: usize,
    /// What the Hosts that settled came to, in the order they settled.
    pub outcomes: Vec<Outcome>,
    /// Hosts that never started, because the run was stopped first.
    pub not_started: usize,
    /// Whether a Host that asks for a password is still answered.
    pub asking: bool,
    /// Why the run could not carry on: nowhere to ask, or nothing typed.
    pub fatal: Option<String>,
}

impl Run {
    /// No more Hosts are in flight than the fanout allows, and every Host whose
    /// turn has come is in flight, has settled, or never started.
    pub open spec fn wf(&self) -> bool {
        &&& 1 <= self.fanout
        &&& self.next <= self.total
        &&& self.in_flight <= self.fanout
        &&& self.outcomes@.len() + self.not_started + self.in_flight == self.next
    }

    /// Whether the window has room for a pending Host.
    pub open spec fn has_turn(&self) -> bool {
        self.next < self.total && self.in_flight < self.fanout
    }

    /// The run's window, given the Hosts it has started.
    pub open spec fn window(&self, started: Seq<int>) -> Window {
        Window { next: self.next as int, in_flight: self.in_flight as int, started }
    }

    /// Nothing has started yet.
    pub fn new(total: usize, fanout: u32, privilege: bool) -> (r: Run)
        requires
            1 <= fanout,
        ensures
            r.total == total,
            r.fanout == fanout,
            r.next == 0,
            r.in_flight == 0,
            r.outcomes@ == Seq::<Outcome>::empty(),
            r.not_started == 0,
            r.asking == privilege,
            r.fatal is None,
            r.wf(),
    {
        Run {
            total,
            fanout,
            next: 0,
            in_flight: 0,
            outcomes: Vec::new(),
            not_started: 0,
            asking: privilege,
            fatal: None,
        }
    }

    /// The next Host's turn, if there is a slot for it. Whether the run is
    /// stopped is asked here, when the Host has a slot, and not before: one
    /// waiting for a slot does not start after an interrupt — and is not
    /// reported.
    pub fn turn(&mut self, stopped: bool) -> (r: Turn)
        requires
            old(self).wf(),
        ensures
            !old(self).has_turn() ==> r == Turn::Wait && *final(self) == *old(self),
            old(self).has_turn() && stopped ==> r == Turn::Skip && *final(self) == (Run {
                next: (old(self).next + 1) as usize,
                not_started: (old(self).not_started + 1) as usize,
                ..*old(self)
            }),
            old(self).has_turn() && !stopped ==> r == Turn::Start(old(self).next) && *final(self)
                == (Run {
                next: (old(self).next + 1) as usize,
                in_flight: (old(self).in_flight + 1) as usize,
                ..*old(self)
            }),
            forall|started: Seq<int>| #[trigger]
                window_step(
                    old(self).window(started),
                    old(self).total as int,
                    old(self).fanout as int,
                    WindowEvent::Turn(stopped),
                ) == final(self).window(
                    if r is Start {
                        started.push(r->Start_0 as int)
                    } else {
                        started
                    },
                ),
            final(self).wf(),
    {
        if self.next >= self.total || self.in_flight as u64 >= self.fanout as u64 {
            return Turn::Wait;
        }
        let index = self.next;
        self.next += 1;
        if stopped {
            self.not_started += 1;
            Turn::Skip
        } else {
            self.in_flight += 1;
            Turn::Start(index)
        }
    }

    /// A Host in flight has settled.
    pub fn settled(&mut self, outcome: Outcome)
        requires
            old(self).wf(),
            old(self).in_flight > 0,
        ensures
            final(self).outcomes@ == old(self).outcomes@.push(outcome),
            final(self).in_flight == old(self).in_flight - 1,
            final(self).total == old(self).total,
            final(self).fanout == old(self).fanout,
            final(self).next == old(self).next,
            final(self).not_started == old(self).not_started,
            final(self).asking == old(self).asking,
            final(self).fatal == old(self).fatal,
            forall|started: Seq<int>| #[trigger]
                window_step(
                    old(self).window(started),
                    old(self).total as int,
                    old(self).fanout as int,
                    WindowEvent::Settled,
                ) == final(self).window(started),
            final(self).wf(),
    {
        self.in_flight -= 1;
        self.outcomes.push(outcome);
    }

    /// Whether every Host has had its turn and none is in flight.
    pub fn is_over(&self) -> (r: bool)
        requires
            self.wf(),
        ensures
            r == (self.next == self.total && self.in_flight == 0),
            r ==> self.outcomes@.len() + self.not_started == self.total,
    {
        self.next >= self.total && self.in_flight == 0
    }

    /// A Host asks for a password: whether it is served. A stopping run has
    /// nobody to type for it, and no Host is answered from then on, which
    /// releases the ones still waiting.
    pub fn request(&mut self, stopped: bool) -> (serve: bool)
        requires
            old(self).asking,
        ensures
            serve == !stopped,
            *final(self) == (Run { asking: !stopped, ..*old(self) }),
    {
        self.asking = !stopped;
        !stopped
    }

    /// A Host has been served.
    pub fn served(&mut self, asking: Asking)
        requires
            old(self).asking,
        ensures
            match asking {
                Asking::On => *final(self) == *old(self),
                Asking::Done { reason } => *final(self) == (Run {
                    asking: false,
                    fatal: reason,
                    ..*old(self)
                }),
            },
    {
        match asking {
            Asking::On => {},
            Asking::Done { reason } => {
                self.asking = false;
                self.fatal = reason;
            },
        }
    }

    /// Every Host that could ask is gone.
    pub fn nobody_left_to_ask(&mut self)
        ensures
            *final(self) == (Run { asking: false, ..*old(self) }),
    {
        self.asking = false;
    }

    /// What is said of a run that could not carry on, before its summary.
    pub fn fatal_line(&self) -> (r: Option<String>)
        ensures
            opt_text(r) == (match self.fatal {
                Some(reason) => Some("rshx: "@ + reason@ + "\n"@),
                None => None,
            }),
    {
        match &self.fatal {
            Some(reason) => Some(local_error(reason.as_str())),
            None => None,
        }
    }

    /// The run's exit code. A run rshx could not ask for a password is a local
    /// failure, not a Host's: the Hosts it cancelled never got to fail.
    pub fn exit(&self) -> (r: u8)
        ensures
            r == (if self.fatal is Some {
                EXIT_LOCAL
            } else {
                run_exit(statuses(self.outcomes@))
            }),
    {
        if self.fatal.is_some() {
            EXIT_LOCAL
        } else {
            exit_code(self.outcomes.as_slice())
        }
    }
}

/// What happens to a run's window.
pub ghost enum WindowEvent {
    /// The next Host's turn is taken, in a run that is stopped or not.
    Turn(bool),
    /// A Host in flight settles.
    Settled,
}

/// A run's window: whose turn comes next, how many Hosts are in flight, and
/// which Hosts were started, in the order they started.
pub ghost struct Window {
    pub next: int,
    pub in_flight: int,
    pub started: Seq<int>,
}

/// The window after one event, as `turn` and `settled` move it.
pub open spec fn window_step(w: Window, total: int, fanout: int, event: WindowEvent) -> Window {
    match event {
        WindowEvent::Turn(stopped) => if w.next < total && w.in_flight < fanout {
            if stopped {
                Window { next: w.next + 1, ..w }
            } else {
                Window {
                    next: w.next + 1,
                    in_flight: w.in_flight + 1,
                    started: w.started.push(w.next),
                }
            }
        } else {
            w
        },
        WindowEvent::Settled => if w.in_flight > 0 {
            Window { in_flight: w.in_flight - 1, ..w }
        } else {
            w
        },
    }
}

/// The window after these events, from a run in which nothing has started.
pub open spec fn window_after(total: int, fanout: int, events: Seq<WindowEvent>) -> Window
    decreases events.len(),
{
    if events.len() == 0 {
        Window { next: 0, in_flight: 0, started: Seq::empty() }
    } else {
        window_step(
            window_after(total, fanout, events.drop_last()),
            total,
            fanout,
            events.last(),
        )
    }
}

/// Whatever happens, no more than `fanout` Hosts are ever in flight, and each
/// Host starts at most once, in host-file order.
pub proof fn law_the_fanout_is_never_exceeded(total: int, fanout: int, events: Seq<WindowEvent>)
    requires
        0 <= total,
        1 <= fanout,
    ensures
        0 <= window_after(total, fanout, events).in_flight <= fanout,
        0 <= window_after(total, fanout, events).next <= total,
        forall|i: int|
            0 <= i < window_after(total, fanout, events).started.len() ==> 0
                <= #[trigger] window_after(total, fanout, events).started[i] < window_after(
                total,
                fanout,
                events,
            ).next,
        forall|i: int, j: int|
            0 <= i < j < window_after(total, fanout, events).started.len() ==>
                #[trigger] window_after(total, fanout, events).started[i]
                < #[trigger] window_after(total, fanout, events).started[j],
    decreases events.len(),
{
    if events.len() > 0 {
        law_the_fanout_is_never_exceeded(total, fanout, events.drop_last());
    }
}

/// A run that is never stopped starts every Host: once every turn has come,
/// the Hosts started are all the Hosts, in order.
pub proof fn law_an_uninterrupted_run_starts_every_host(
    total: int,
    fanout: int,
    events: Seq<WindowEvent>,
)
    requires
        0 <= total,
        1 <= fanout,
        forall|i: int| 0 <= i < events.len() ==> #[trigger] events[i] != WindowEvent::Turn(true),
    ensures
        window_after(total, fanout, events).started == Seq::new(
            window_after(total, fanout, events).next as nat,
            |i: int| i,
        ),
    decreases events.len(),
{
    law_the_fanout_is_never_exceeded(total, fanout, events);
    if events.len() > 0 {
        let before = events.drop_last();
        assert forall|i: int| 0 <= i < before.len() implies #[trigger] before[i]
            != WindowEvent::Turn(true) by {
            assert(before[i] == events[i]);
        }
        law_an_uninterrupted_run_starts_every_host(total, fanout, before);
        law_the_fanout_is_never_exceeded(total, fanout, before);
        assert(events.last() == events[events.len() - 1]);
    } else {
        assert(window_after(total, fanout, events).started =~= Seq::new(0, |i: int| i));
    }
}

/// A Host that finishes is replaced at once where one is pending: right after
/// it has settled there is room for the next turn.
pub proof fn law_a_finished_host_is_replaced(w: Window, total: int, fanout: int)
    requires
        0 < w.in_flight <= fanout,
        w.next < total,
    ensures
        window_step(
            window_step(w, total, fanout, WindowEvent::Settled),
            total,
            fanout,
            WindowEvent::Turn(false),
        ) == (Window { next: w.next + 1, in_flight: w.in_flight, started: w.started.push(w.next) }),
{
}

/// What is said where rshx itself gives up: nothing ran, or nothing could be
/// reported.
pub fn local_error(err: &str) -> (r: String)
    ensures
        r@ == "rshx: "@ + err@ + "\n"@,
{
    let mut s = "rshx: ".to_string();
    s.append(err);
    s.append("\n");
    s
}

/// A slot that is free is used: while fewer Hosts than the fanout are in flight,
/// the next pending Host starts on its turn, and none but it; a full window
/// starts nobody, and a run that was stopped passes its Hosts over.
pub proof fn law_a_free_slot_is_used(w: Window, total: int, fanout: int)
    ensures
        w.next < total && w.in_flight < fanout ==> window_step(
            w,
            total,
            fanout,
            WindowEvent::Turn(false),
        ).started == w.started.push(w.next),
        w.in_flight >= fanout || w.next >= total ==> window_step(
            w,
            total,
            fanout,
            WindowEvent::Turn(false),
        ) == w,
        window_step(w, total, fanout, WindowEvent::Turn(true)).started == w.started,
        window_step(w, total, fanout, WindowEvent::Turn(true)).in_flight == w.in_flight,
        w.next < total && w.in_flight < fanout ==> window_step(
            w,
            total,
            fanout,
            WindowEvent::Turn(true),
        ).next == w.next + 1,
        window_step(w, total, fanout, WindowEvent::Settled).started == w.started,
        window_step(w, total, fanout, WindowEvent::Settled).next == w.next,
{
}

} // verus!
