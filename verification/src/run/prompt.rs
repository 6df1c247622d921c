//! Asking the user for a password.
//!
//! `--privilege` runs the command under a remote sudo, which reads its password
//! from stdin and prints a marker on stderr when it wants one. Whichever Host is
//! asking, the prompt goes to the one terminal the run has — and that terminal
//! belongs to the main task, which also owns the heartbeat — so every ask
//! travels there, and the answer travels back.

use vstd::prelude::*;

use crate::bytes::{occurs, room, with_capped};
use crate::privilege::{
    held_back, marker_bytes, secret, shown, Answer, MarkerFilter,
};
use crate::text::opt_text;

verus! {

/// Whether the run can still answer a Host.
pub enum Asking {
    /// The Host has its answer; the run goes on, and another Host may ask.
    On,
    /// The run cannot ask any more: nothing was typed, or the prompt was
    /// interrupted. `reason` is rshx's own failure, when there is one to report.
    Done { reason: Option<String> },
}

/// What an answer means: the password the Host is given, if there is one, and
/// whether the run can keep asking. A run that cannot stops, and the Hosts
/// still waiting are released. `fatal` is why the run cannot go on, as far as
/// the passwords know.
pub fn serve(answer: Answer, fatal: Option<String>) -> (r: (Option<Vec<u8>>, Asking))
    ensures
        match answer {
            Answer::Password(password) => secret(r.0) == Some(password@) && r.1 is On,
            Answer::Refused => r.0 is None && r.1 is Done && opt_text(r.1->Done_reason) == opt_text(
                fatal,
            ),
            Answer::Interrupted => r.0 is None && r.1 is Done && r.1->Done_reason is None,
        },
{
    match answer {
        Answer::Password(password) => (Some(password), Asking::On),
        // Nothing to write: the Host's sudo fails on its own, and the run stops
        // rather than repeating the failure.
        Answer::Refused => (None, Asking::Done { reason: fatal }),
        // Ctrl-C on the prompt. Not a failure: the run stops the way any
        // interrupt stops it, and the Hosts in flight are cancelled.
        Answer::Interrupted => (None, Asking::Done { reason: None }),
    }
}

/// The password as it is written to the Host's ssh, which forwards it to the
/// remote sudo reading its stdin. A newline ends it: sudo reads a line.
pub fn password_line(password: &[u8]) -> (r: Vec<u8>)
    ensures
        r@ == password@.push(10),
{
    let mut line = vstd::slice::slice_to_vec(password);
    line.push(10);
    line
}

/// A Host's stderr being read, with its password prompts noticed as they
/// appear. The markers are stripped on the way into the report: they are rshx's
/// own plumbing, not something the remote command printed.
pub struct StderrReader {
    pub filter: MarkerFilter,
    pub kept: Vec<u8>,
    pub truncated: bool,
    /// Whether the run can still answer this Host; asking again never returns.
    pub answerable: bool,
}

impl Default for StderrReader {
    fn default() -> (r: StderrReader)
        ensures
            r.filter.held() == Seq::<u8>::empty(),
            r.kept@ == Seq::<u8>::empty(),
            !r.truncated,
            r.answerable,
    {
        StderrReader {
            filter: MarkerFilter::default(),
            kept: Vec::new(),
            truncated: false,
            answerable: true,
        }
    }
}

impl StderrReader {
    /// Takes one read, and answers whether to ask for a password now.
    pub fn read(&mut self, chunk: &[u8], cap: usize) -> (ask: bool)
        ensures
            ask == (old(self).answerable && occurs(
                old(self).filter.held() + chunk@,
                marker_bytes(),
            )),
            final(self).filter.held() == held_back(old(self).filter.held() + chunk@),
            final(self).kept@ == with_capped(
                old(self).kept@,
                shown(old(self).filter.held() + chunk@),
                cap as int,
            ),
            final(self).truncated == (old(self).truncated || shown(
                old(self).filter.held() + chunk@,
            ).len() > room(old(self).kept@, cap as int)),
            final(self).answerable == old(self).answerable,
    {
        let filtered = self.filter.push(chunk, &mut self.kept, cap);
        self.truncated = self.truncated || filtered.dropped;
        filtered.asked && self.answerable
    }

    /// Records whether the ask was answered and the password written.
    pub fn answered(&mut self, written: bool)
        ensures
            *final(self) == (StderrReader { answerable: written, ..*old(self) }),
    {
        self.answerable = written;
    }

    /// The stream has ended: what was kept, and whether bytes were dropped.
    pub fn end(self, cap: usize) -> (r: (Vec<u8>, bool))
        ensures
            r.0@ == with_capped(self.kept@, self.filter.held(), cap as int),
            r.1 == (self.truncated || self.filter.held().len() > room(self.kept@, cap as int)),
    {
        let mut filter = self.filter;
        let mut kept = self.kept;
        let dropped = filter.finish(&mut kept, cap);
        (kept, self.truncated || dropped)
    }
}

} // verus!
