//! One Host's ssh: what it left behind, turned into an Outcome.

use vstd::prelude::*;
use vstd::utf8::encode_utf8;

use crate::cause::{inferred, Cause};
use crate::remote::Waited;
use crate::run::outcome::{local_failure_of, status_of, Outcome, OutcomeModel, Status};
use crate::text::bytes_of;

verus! {

/// What one Host's ssh left behind: everything rshx read from it, before
/// anything is made of it.
pub struct Settled {
    /// The child's own end.
    pub waited: Waited,
    /// Whether rshx's own limit ended the child.
    pub timed_out: bool,
    /// Whether an interrupt killed it.
    pub killed: bool,
    pub stdout: Vec<u8>,
    pub stderr: Vec<u8>,
    pub stdout_truncated: bool,
    pub stderr_truncated: bool,
    /// How long the Host took, as rshx measured it.
    pub duration: u128,
}

/// The child's exit status, when it exited rather than being killed.
pub open spec fn code_of(waited: Waited) -> Option<i32> {
    match waited {
        Waited::Ended(code) => code,
        Waited::Lost(_) => None,
    }
}

/// The Host's status. An interrupt outranks a timeout: ssh exits 255 on
/// `SIGTERM`, which would otherwise read as `unreachable`.
pub open spec fn settled_status(killed: bool, timed_out: bool, waited: Waited) -> Status {
    if killed {
        Status::Cancelled
    } else if timed_out {
        Status::Timeout
    } else {
        match waited {
            Waited::Ended(Some(code)) => status_of(code),
            // No exit status: the child died from a signal.
            Waited::Ended(None) => Status::Cancelled,
            // The child is gone but its status is unreadable.
            Waited::Lost(_) => Status::Unreachable,
        }
    }
}

/// The outcome before anything is stopped on the Host.
pub open spec fn judged(host: Seq<char>, s: Settled) -> OutcomeModel {
    let status = settled_status(s.killed, s.timed_out, s.waited);
    OutcomeModel {
        host,
        status,
        exit_code: if s.killed || s.timed_out {
            None
        } else {
            code_of(s.waited)
        },
        cause: if status == Status::Failed || status == Status::Unreachable {
            inferred(s.stderr@)
        } else {
            None
        },
        stdout: s.stdout@,
        stderr: match s.waited {
            Waited::Ended(_) => s.stderr@,
            Waited::Lost(err) => encode_utf8(
                "rshx: could not read ssh's exit status: "@ + err@ + "\n"@,
            ),
        },
        stdout_truncated: s.stdout_truncated,
        stderr_truncated: s.stderr_truncated,
        remote_stopped: false,
        duration: s.duration,
        pid: None,
    }
}

impl Settled {
    /// The child's exit status, when it exited rather than being killed.
    pub fn exit_code(&self) -> (r: Option<i32>)
        ensures
            r == code_of(self.waited),
    {
        match &self.waited {
            Waited::Ended(code) => *code,
            Waited::Lost(_) => None,
        }
    }

    /// Whether rshx cut this Host short. Killing a Host's ssh does not stop
    /// what it started, so such a Host is asked to stop its own command, by the
    /// marker the run left on it.
    pub fn cut_short(&self) -> (r: bool)
        ensures
            r == (self.killed || self.timed_out),
    {
        self.killed || self.timed_out
    }
}

/// Makes an Outcome of what one Host's ssh left behind.
pub fn judge(host: &str, settled: Settled) -> (r: Outcome)
    ensures
        r@ == judged(host@, settled),
{
    let exit_code = settled.exit_code();
    let status = if settled.killed {
        Status::Cancelled
    } else if settled.timed_out {
        Status::Timeout
    } else {
        match &settled.waited {
            Waited::Ended(code) => match code {
                Some(code) => Status::from_exit_code(*code),
                None => Status::Cancelled,
            },
            Waited::Lost(_) => Status::Unreachable,
        }
    };
    // Computed after the status, and never allowed to change it.
    let cause = match status {
        Status::Failed => Cause::infer(settled.stderr.as_slice()),
        Status::Unreachable => Cause::infer(settled.stderr.as_slice()),
        _ => None,
    };
    let cut_short = settled.killed || settled.timed_out;
    let stderr = match settled.waited {
        Waited::Ended(_) => settled.stderr,
        Waited::Lost(err) => {
            let mut text = "rshx: could not read ssh's exit status: ".to_string();
            text.append(err.as_str());
            text.append("\n");
            bytes_of(text.as_str())
        },
    };
    Outcome {
        host: host.to_string(),
        status,
        // Absent when rshx ended the child: its exit status says nothing about
        // the command, which rshx stops on its own.
        exit_code: if cut_short {
            None
        } else {
            exit_code
        },
        cause,
        stdout: settled.stdout,
        stderr,
        stdout_truncated: settled.stdout_truncated,
        stderr_truncated: settled.stderr_truncated,
        remote_stopped: false,
        duration: settled.duration,
        // rshx waited for this command rather than leaving it to run, so no
        // Host ever told it a pid.
        pid: None,
    }
}

/// What asking the Host to stop its own command adds to an outcome.
pub open spec fn after_stop(o: OutcomeModel, stop: Result<(), Seq<char>>) -> OutcomeModel {
    match stop {
        Ok(_) => OutcomeModel { remote_stopped: true, ..o },
        Err(reason) => OutcomeModel {
            stderr: o.stderr + encode_utf8(
                "rshx: could not stop the remote command: "@ + reason + "\n"@,
            ),
            ..o
        },
    }
}

/// Records whether the Host stopped its own command. The Host's status is
/// settled; a stop that failed says what rshx could not finish, which the
/// Host's own output cannot.
pub fn with_stop(outcome: Outcome, stop: Result<(), String>) -> (r: Outcome)
    ensures
        r@ == after_stop(
            outcome@,
            match stop {
                Ok(_) => Ok::<(), Seq<char>>(()),
                Err(reason) => Err::<(), Seq<char>>(reason@),
            },
        ),
{
    let mut outcome = outcome;
    match stop {
        Ok(_) => {
            outcome.remote_stopped = true;
        },
        Err(reason) => {
            let mut text = "rshx: could not stop the remote command: ".to_string();
            text.append(reason.as_str());
            text.append("\n");
            let ghost before = outcome.stderr@;
            let note = bytes_of(text.as_str());
            outcome.stderr.extend_from_slice(note.as_slice());
            assert(outcome.stderr@ =~= before + note@);
        },
    }
    outcome
}

/// A Host whose ssh could not be started: rshx's own failure, not a diagnosis
/// of the remote.
pub fn not_spawned(host: &str, duration: u128, err: &str) -> (r: Outcome)
    ensures
        r@ == local_failure_of(host@, duration, "could not run ssh: "@ + err@),
{
    let mut message = "could not run ssh: ".to_string();
    message.append(err);
    Outcome::local_failure(host, duration, message)
}

/// A Host that was not cut short has the status of ssh's own end: `ok` for
/// zero, `unreachable` for ssh's own 255 or a status that could not be read,
/// `failed` for any other code; a child that died from a signal is `cancelled`
/// and reports no exit code.
pub proof fn law_a_status_is_sshs_own_end(host: Seq<char>, s: Settled)
    requires
        !s.killed,
        !s.timed_out,
    ensures
        judged(host, s).status == Status::Okay <==> s.waited == Waited::Ended(Some(0i32)),
        judged(host, s).status == Status::Unreachable <==> s.waited == Waited::Ended(Some(255i32))
            || s.waited is Lost,
        judged(host, s).status == Status::Cancelled <==> s.waited == Waited::Ended(None::<i32>),
        judged(host, s).status == Status::Cancelled ==> judged(host, s).exit_code is None,
        judged(host, s).status == Status::Failed <==> (s.waited matches Waited::Ended(Some(code))
            && code != 0 && code != 255),
        s.waited is Ended ==> judged(host, s).exit_code == s.waited->Ended_0,
{
}

/// What a Host prints never decides its status: two Hosts whose ssh ended alike
/// have the same status and exit code, whatever their streams hold.
pub proof fn law_output_never_decides_a_status(host: Seq<char>, a: Settled, b: Settled)
    requires
        a.killed == b.killed,
        a.timed_out == b.timed_out,
        a.waited == b.waited,
    ensures
        judged(host, a).status == judged(host, b).status,
        judged(host, a).exit_code == judged(host, b).exit_code,
{
}

/// A Host rshx cut short reports no exit code and no cause, and is `cancelled`
/// or `timeout`, never `failed`.
pub proof fn law_a_host_cut_short_is_not_a_failure(host: Seq<char>, s: Settled)
    requires
        s.killed || s.timed_out,
    ensures
        judged(host, s).exit_code is None,
        judged(host, s).cause is None,
        s.killed ==> judged(host, s).status == Status::Cancelled,
        !s.killed ==> judged(host, s).status == Status::Timeout,
{
}

/// How a stop went never changes what the Host's command came to.
pub proof fn law_a_stop_changes_no_verdict(o: OutcomeModel, stop: Result<(), Seq<char>>)
    ensures
        after_stop(o, stop).status == o.status,
        after_stop(o, stop).exit_code == o.exit_code,
        after_stop(o, stop).cause == o.cause,
        after_stop(o, stop).stdout == o.stdout,
        stop is Ok ==> after_stop(o, stop).remote_stopped,
        stop is Err ==> after_stop(o, stop).remote_stopped == o.remote_stopped,
{
}

/// However a Host's ssh ended, cut short or not, its outcome carries what was
/// read from it: all of its stdout and stderr, whether either lost bytes, and
/// how long it took. Only where ssh's status could not be read does rshx say so
/// in place of the stderr.
pub proof fn law_an_outcome_carries_what_was_read(host: Seq<char>, s: Settled)
    ensures
        judged(host, s).host == host,
        judged(host, s).stdout == s.stdout@,
        judged(host, s).stdout_truncated == s.stdout_truncated,
        judged(host, s).stderr_truncated == s.stderr_truncated,
        judged(host, s).duration == s.duration,
        s.waited is Ended ==> judged(host, s).stderr == s.stderr@,
        s.waited is Lost ==> judged(host, s).stderr == encode_utf8(
            "rshx: could not read ssh's exit status: "@ + s.waited->Lost_0@ + "\n"@,
        ),
        judged(host, s).pid is None,
        !judged(host, s).remote_stopped,
{
}

/// A cause is read from ssh's stderr where the Host failed or could not be
/// reached, and nowhere else.
pub proof fn law_a_cause_is_read_from_a_failed_hosts_stderr(host: Seq<char>, s: Settled)
    ensures
        judged(host, s).status == Status::Failed || judged(host, s).status == Status::Unreachable
            ==> judged(host, s).cause == inferred(s.stderr@),
        judged(host, s).status != Status::Failed && judged(host, s).status != Status::Unreachable
            ==> judged(host, s).cause is None,
{
}

/// A stop that worked adds the fact and nothing else; one that failed adds a
/// line after what the Host itself had to say, and nothing else.
pub proof fn law_a_stop_adds_one_line_at_most(o: OutcomeModel, reason: Seq<char>)
    ensures
        after_stop(o, Ok(())) == (OutcomeModel { remote_stopped: true, ..o }),
        after_stop(o, Err(reason)) == (OutcomeModel {
            stderr: after_stop(o, Err(reason)).stderr,
            ..o
        }),
        o.stderr.is_prefix_of(after_stop(o, Err(reason)).stderr),
        after_stop(o, Err(reason)).stderr.skip(o.stderr.len() as int) == encode_utf8(
            "rshx: could not stop the remote command: "@ + reason + "\n"@,
        ),
{
    let line = encode_utf8("rshx: could not stop the remote command: "@ + reason + "\n"@);
    assert((o.stderr + line).skip(o.stderr.len() as int) =~= line);
    assert((o.stderr + line).take(o.stderr.len() as int) =~= o.stderr);
}

} // verus!
