//! What a Host's command did: the vocabulary a run reports in.

use vstd::prelude::*;
use vstd::utf8::encode_utf8;

use crate::cause::Cause;
use crate::text::bytes_of;
use crate::{EXIT_FAILED, EXIT_INTERRUPTED, EXIT_OK, EXIT_UNREACHABLE};

verus! {

/// The terminal outcome of one Host's command.
#[derive(Debug, Clone, Copy, PartialEq, Eq, Structural)]
pub enum Status {
    Okay,
    Failed,
    /// The command was started and left running on the Host. Only a detached
    /// run reports it: every other run waits for its command, and a Host rshx
    /// cut short is `cancelled`.
    Running,
    Unreachable,
    Timeout,
    Cancelled,
}

/// The word a report uses.
pub open spec fn status_word(status: Status) -> Seq<char> {
    match status {
        Status::Okay => "ok"@,
        Status::Failed => "failed"@,
        Status::Running => "running"@,
        Status::Unreachable => "unreachable"@,
        Status::Timeout => "timeout"@,
        Status::Cancelled => "cancelled"@,
    }
}

/// The status ssh's exit status implies.
pub open spec fn status_of(code: i32) -> Status {
    if code == 0 {
        Status::Okay
    } else if code == 255 {
        Status::Unreachable
    } else {
        Status::Failed
    }
}

impl Status {
    /// Every status, in the order the summary lists them.
    pub const ALL: [Status; 6] = [
        Status::Okay,
        Status::Failed,
        Status::Running,
        Status::Unreachable,
        Status::Timeout,
        Status::Cancelled,
    ];

    /// The word a report uses.
    pub fn as_str(self) -> (r: &'static str)
        ensures
            r@ == status_word(self),
    {
        match self {
            Status::Okay => "ok",
            Status::Failed => "failed",
            Status::Running => "running",
            Status::Unreachable => "unreachable",
            Status::Timeout => "timeout",
            Status::Cancelled => "cancelled",
        }
    }

    /// Whether rshx stopped waiting for this Host, not how its command ended.
    /// A `running` Host is not one rshx gave up on: rshx left it to run.
    pub fn is_unfinished(self) -> (r: bool)
        ensures
            r == (self == Status::Timeout || self == Status::Cancelled),
    {
        matches!(self, Status::Timeout | Status::Cancelled)
    }

    /// The status ssh's exit status implies: rshx never parses output text.
    pub fn from_exit_code(code: i32) -> (r: Status)
        ensures
            r == status_of(code),
    {
        if code == 0 {
            Status::Okay
        } else if code == 255 {
            // ssh's own "I could not connect" status.
            Status::Unreachable
        } else {
            Status::Failed
        }
    }
}

/// What one Host's command did.
#[derive(Debug)]
pub struct Outcome {
    pub host: String,
    pub status: Status,
    /// Absent when rshx killed the child, since then there is no exit status.
    pub exit_code: Option<i32>,
    /// Inferred from ssh's stderr; it never affects `status` or the exit code.
    pub cause: Option<Cause>,
    pub stdout: Vec<u8>,
    pub stderr: Vec<u8>,
    /// Whether rshx dropped bytes past its cap.
    pub stdout_truncated: bool,
    pub stderr_truncated: bool,
    /// Whether rshx stopped the Host's remote command. `false` on a Host rshx
    /// cut short means the command may still be running there: the report says
    /// so rather than claiming work that was not done.
    pub remote_stopped: bool,
    /// How long the Host took, in nanoseconds.
    pub duration: u128,
    /// The pid of the shell running the Host's command, when rshx knows it:
    /// a detached launch is told it, and nothing else is.
    pub pid: Option<u32>,
}

/// What an outcome is.
#[verifier::ext_equal]
pub ghost struct OutcomeModel {
    pub host: Seq<char>,
    pub status: Status,
    pub exit_code: Option<i32>,
    pub cause: Option<Cause>,
    pub stdout: Seq<u8>,
    pub stderr: Seq<u8>,
    pub stdout_truncated: bool,
    pub stderr_truncated: bool,
    pub remote_stopped: bool,
    pub duration: u128,
    pub pid: Option<u32>,
}

impl View for Outcome {
    type V = OutcomeModel;

    open spec fn view(&self) -> OutcomeModel {
        OutcomeModel {
            host: self.host@,
            status: self.status,
            exit_code: self.exit_code,
            cause: self.cause,
            stdout: self.stdout@,
            stderr: self.stderr@,
            stdout_truncated: self.stdout_truncated,
            stderr_truncated: self.stderr_truncated,
            remote_stopped: self.remote_stopped,
            duration: self.duration,
            pid: self.pid,
        }
    }
}

/// A Host that rshx could not get as far as running anything on.
pub open spec fn local_failure_of(
    host: Seq<char>,
    duration: u128,
    message: Seq<char>,
) -> OutcomeModel {
    OutcomeModel {
        host,
        status: Status::Unreachable,
        exit_code: None,
        cause: None,
        stdout: Seq::empty(),
        stderr: encode_utf8("rshx: "@ + message + "\n"@),
        stdout_truncated: false,
        stderr_truncated: false,
        remote_stopped: false,
        duration,
        pid: None,
    }
}

impl Outcome {
    /// A Host rshx itself could not get as far as running anything on, with no
    /// exit status to report: its own ssh never said anything about a command.
    /// The message is rshx's, so it is prefixed as such.
    pub fn local_failure(host: &str, duration: u128, message: String) -> (r: Outcome)
        ensures
            r@ == local_failure_of(host@, duration, message@),
    {
        let mut text = "rshx: ".to_string();
        text.append(message.as_str());
        text.append("\n");
        Outcome {
            host: host.to_string(),
            status: Status::Unreachable,
            exit_code: None,
            cause: None,
            stdout: Vec::new(),
            stderr: bytes_of(text.as_str()),
            stdout_truncated: false,
            stderr_truncated: false,
            // Nothing ran remotely, so there is nothing to have stopped.
            remote_stopped: false,
            duration,
            pid: None,
        }
    }
}

/// The statuses of the outcomes.
pub open spec fn statuses(outcomes: Seq<Outcome>) -> Seq<Status> {
    outcomes.map_values(|o: Outcome| o.status)
}

/// The exit code that statuses come to: `failed` and `unreachable` are separate
/// bits, a `timeout` counts as `unreachable`, and a `cancelled` Host makes the
/// run an interrupted one and nothing else.
pub open spec fn run_exit(statuses: Seq<Status>) -> u8 {
    let failed = statuses.contains(Status::Failed);
    let unreachable = statuses.contains(Status::Unreachable) || statuses.contains(Status::Timeout);
    if statuses.contains(Status::Cancelled) {
        EXIT_INTERRUPTED
    } else if failed && unreachable {
        (EXIT_FAILED + EXIT_UNREACHABLE) as u8
    } else if failed {
        EXIT_FAILED
    } else if unreachable {
        EXIT_UNREACHABLE
    } else {
        EXIT_OK
    }
}

/// Whether some outcome has the status.
pub fn any_status(outcomes: &[Outcome], status: Status) -> (r: bool)
    ensures
        r == statuses(outcomes@).contains(status),
{
    let mut i: usize = 0;
    while i < outcomes.len()
        invariant
            i <= outcomes@.len(),
            forall|j: int| 0 <= j < i ==> #[trigger] statuses(outcomes@)[j] != status,
        decreases outcomes@.len() - i,
    {
        assert(statuses(outcomes@)[i as int] == outcomes@[i as int].status);
        if outcomes[i].status == status {
            return true;
        }
        i += 1;
    }
    false
}

/// The run's exit code: `failed` and `unreachable` are separate bits, and a
/// `timeout` counts as `unreachable`. A `cancelled` Host is not a failure —
/// rshx stopped waiting — so an interrupted run exits 99 and nothing else.
pub fn exit_code(outcomes: &[Outcome]) -> (r: u8)
    ensures
        r == run_exit(statuses(outcomes@)),
{
    if any_status(outcomes, Status::Cancelled) {
        return EXIT_INTERRUPTED;
    }
    let failed = any_status(outcomes, Status::Failed);
    let unreachable = any_status(outcomes, Status::Unreachable) || any_status(
        outcomes,
        Status::Timeout,
    );
    // A detached run's Hosts are `running` when rshx hands them over, which is
    // exactly what was asked for.
    if failed && unreachable {
        EXIT_FAILED + EXIT_UNREACHABLE
    } else if failed {
        EXIT_FAILED
    } else if unreachable {
        EXIT_UNREACHABLE
    } else {
        EXIT_OK
    }
}

/// A run exits 0 exactly when every Host is `ok`, or was left `running` as
/// asked.
pub proof fn law_zero_means_every_host_did_what_was_asked(statuses: Seq<Status>)
    ensures
        run_exit(statuses) == EXIT_OK <==> (forall|i: int|
            0 <= i < statuses.len() ==> #[trigger] statuses[i] == Status::Okay || statuses[i]
                == Status::Running),
{
    if run_exit(statuses) == EXIT_OK {
        assert forall|i: int| 0 <= i < statuses.len() implies #[trigger] statuses[i] == Status::Okay
            || statuses[i] == Status::Running by {
            assert(statuses.contains(statuses[i]));
        }
    }
}

/// The two bits of a run that was not interrupted say apart whether some Host
/// failed and whether some Host could not be reached or timed out.
pub proof fn law_failed_and_unreachable_are_separate_bits(statuses: Seq<Status>)
    requires
        !statuses.contains(Status::Cancelled),
    ensures
        run_exit(statuses) & EXIT_FAILED != 0 <==> statuses.contains(Status::Failed),
        run_exit(statuses) & EXIT_UNREACHABLE != 0 <==> statuses.contains(Status::Unreachable)
            || statuses.contains(Status::Timeout),
{
    assert(0u8 & 2u8 == 0 && 0u8 & 4u8 == 0 && 2u8 & 2u8 == 2 && 2u8 & 4u8 == 0 && 4u8 & 2u8 == 0
        && 4u8 & 4u8 == 4 && 6u8 & 2u8 == 2 && 6u8 & 4u8 == 4) by (bit_vector);
}

/// The order in which Hosts settle, and how many share a status, change nothing
/// of the exit code.
pub proof fn law_settling_order_changes_no_exit_code(a: Seq<Status>, b: Seq<Status>)
    requires
        forall|s: Status| a.contains(s) <==> b.contains(s),
    ensures
        run_exit(a) == run_exit(b),
{
    assert(a.contains(Status::Cancelled) == b.contains(Status::Cancelled));
    assert(a.contains(Status::Failed) == b.contains(Status::Failed));
    assert(a.contains(Status::Unreachable) == b.contains(Status::Unreachable));
    assert(a.contains(Status::Timeout) == b.contains(Status::Timeout));
}

/// The exit code says what happened: 99 where a Host was cancelled; otherwise 2
/// where one failed, and 4 more where one was unreachable or timed out.
pub proof fn law_the_exit_code_says_what_happened(statuses: Seq<Status>)
    ensures
        statuses.contains(Status::Cancelled) ==> run_exit(statuses) == 99,
        !statuses.contains(Status::Cancelled) ==> run_exit(statuses) == (if statuses.contains(
            Status::Failed,
        ) {
            2int
        } else {
            0
        }) + (if statuses.contains(Status::Unreachable) || statuses.contains(Status::Timeout) {
            4int
        } else {
            0
        }),
{
}

/// Every status has its own word, the one the documentation uses.
pub proof fn law_statuses_are_called_what_they_are(status: Status)
    ensures
        status_word(status) == (match status {
            Status::Okay => "ok"@,
            Status::Failed => "failed"@,
            Status::Running => "running"@,
            Status::Unreachable => "unreachable"@,
            Status::Timeout => "timeout"@,
            Status::Cancelled => "cancelled"@,
        }),
        status_word(status).len() > 0,
{
    reveal_strlit("ok");
    reveal_strlit("failed");
    reveal_strlit("running");
    reveal_strlit("unreachable");
    reveal_strlit("timeout");
    reveal_strlit("cancelled");
}

/// A Host that rshx itself could not run is `unreachable`, with rshx's reason
/// for its only output and no diagnosis of the Host.
pub proof fn law_a_local_failure_says_only_why(
    host: Seq<char>,
    duration: u128,
    message: Seq<char>,
)
    ensures
        ({
            let o = local_failure_of(host, duration, message);
            &&& o.host == host
            &&& o.status == Status::Unreachable
            &&& o.exit_code is None
            &&& o.cause is None
            &&& o.pid is None
            &&& o.duration == duration
            &&& o.stdout.len() == 0
            &&& o.stderr == encode_utf8("rshx: "@ + message + "\n"@)
            &&& !o.stdout_truncated && !o.stderr_truncated && !o.remote_stopped
        }),
{
}

/// A run's statuses are those of its Hosts, one for each.
pub proof fn law_each_outcome_counts_by_its_status(outcomes: Seq<Outcome>, i: int)
    ensures
        statuses(outcomes).len() == outcomes.len(),
        0 <= i < outcomes.len() ==> statuses(outcomes)[i] == outcomes[i].status,
{
}

} // verus!
