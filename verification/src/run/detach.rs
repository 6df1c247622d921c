//! What a detached run does differently on rshx's side.
//!
//! The remote half of a detached run — the launcher, the marker, the token that
//! names the file rshx leaves on a Host — is `crate::remote`'s, because it is
//! shell text the Host runs. This module is the local half: which command goes
//! inside the launcher, and what the launcher's output means once it returns.

use vstd::prelude::*;
use vstd::utf8::encode_utf8;

use crate::privilege::{sudo_words, under_sudo};
use crate::run::outcome::{Outcome, OutcomeModel, Status};
use crate::text::{
    bytes_of, chars_of, copied, decimal, is_white, last_full, last_line,
    law_a_number_is_read_as_it_is_written, law_a_number_is_written_in_decimal,
    law_lines_end_where_the_text_says, law_lines_of_whole_lines,
    law_the_last_full_line_is_the_last_that_holds_anything,
    law_trimming_takes_the_white_space_around, lines_of, lossy, parse_u32, parsed_u32, read_lossy,
    texts, trim, trimmed,
};

verus! {

/// The command each Host is handed.
///
/// `--privilege` puts rshx's sudo in front of it, so the remote sudo reads its
/// password from stdin. A detached run is the exception: its launcher carries
/// the elevation itself, and what it runs is the command as it was typed —
/// wrapping it here as well would elevate twice.
///
/// The command as it was typed is what decides this, because rshx reads none of
/// the command's own options: that would mean knowing sudo's grammar.
pub fn command(typed: &[String], elevated: bool, detach: bool) -> (r: Vec<String>)
    ensures
        texts(r@) == (if elevated && !detach {
            sudo_words() + texts(typed@)
        } else {
            texts(typed@)
        }),
{
    if elevated && !detach {
        under_sudo(typed)
    } else {
        copied(typed)
    }
}

/// The pid a launcher printed, if it printed one: the last line that holds
/// anything.
pub open spec fn launched_pid(stdout: Seq<char>) -> Option<u32> {
    match last_full(lines_of(stdout)) {
        Some(line) => parsed_u32(trimmed(line)),
        None => None,
    }
}

/// What rshx says of a launch that printed no pid.
pub open spec fn no_pid_note() -> Seq<u8> {
    encode_utf8("rshx: the Host printed no pid, so the command was not started\n"@)
}

/// What a launch whose stdout reads as this text came to.
pub open spec fn launched_of(o: OutcomeModel, stdout: Seq<char>) -> OutcomeModel {
    if o.status != Status::Okay {
        o
    } else {
        match launched_pid(stdout) {
            Some(pid) => OutcomeModel {
                status: Status::Running,
                pid: Some(pid),
                stdout: Seq::empty(),
                exit_code: None,
                ..o
            },
            None => OutcomeModel {
                status: Status::Unreachable,
                stderr: no_pid_note() + o.stderr,
                ..o
            },
        }
    }
}

/// Reads the pid a launcher printed.
pub fn read_pid(stdout: &str) -> (r: Option<u32>)
    ensures
        r == launched_pid(stdout@),
{
    match last_line(stdout) {
        Some(line) => {
            let cs = chars_of(line.as_str());
            let bare = trim(cs.as_slice());
            parse_u32(bare.as_slice())
        },
        None => None,
    }
}

/// Bytes put before others.
fn before(first: Vec<u8>, rest: &[u8]) -> (r: Vec<u8>)
    ensures
        r@ == first@ + rest@,
{
    let mut all = first;
    all.extend_from_slice(rest);
    assert(all@ =~= first@ + rest@);
    all
}

/// The outcome of a detached launch whose stdout reads as `text`.
pub fn launched_as(outcome: Outcome, text: &str) -> (r: Outcome)
    ensures
        r@ == launched_of(outcome@, text@),
{
    let mut outcome = outcome;
    if outcome.status != Status::Okay {
        return outcome;
    }
    match read_pid(text) {
        Some(pid) => {
            outcome.status = Status::Running;
            outcome.pid = Some(pid);
            outcome.stdout = Vec::new();
            // The status ssh ended with is the launcher's, not the command's:
            // the command has not ended, so it has none to report.
            outcome.exit_code = None;
        },
        None => {
            let note = bytes_of(
                "rshx: the Host printed no pid, so the command was not started\n",
            );
            outcome.status = Status::Unreachable;
            outcome.stderr = before(note, outcome.stderr.as_slice());
        },
    }
    outcome
}

/// The outcome of a detached launch: ssh's status stands, and what the launcher
/// printed is the pid of the shell running the command — the same shell the
/// marker names, so a stop of a Host cut short reaches what was started here.
///
/// The pid is plumbing, not the Host's output: it is taken out of the stdout
/// the report would otherwise show. A launch that printed no pid started
/// nothing rshx can name, which is what `unreachable` says — the Host never got
/// as far as rshx asked.
pub fn launched(outcome: Outcome) -> (r: Outcome)
    ensures
        r@ == launched_of(outcome@, lossy(outcome.stdout@)),
{
    let text = read_lossy(outcome.stdout.as_slice());
    launched_as(outcome, text.as_str())
}

/// A launch is reported `running` exactly when ssh said it went well and it
/// printed a pid, and then it carries that pid and no exit code.
pub proof fn law_running_means_a_pid_was_printed(o: OutcomeModel, stdout: Seq<char>)
    requires
        o.status != Status::Running,
    ensures
        launched_of(o, stdout).status == Status::Running <==> o.status == Status::Okay
            && launched_pid(stdout) is Some,
        launched_of(o, stdout).status == Status::Running ==> launched_of(o, stdout).pid
            == launched_pid(stdout) && launched_of(o, stdout).exit_code is None,
{
}

/// A launch that did not go well is reported as ssh left it.
pub proof fn law_a_failed_launch_is_left_alone(o: OutcomeModel, stdout: Seq<char>)
    requires
        o.status != Status::Okay,
    ensures
        launched_of(o, stdout) == o,
{
}

/// The pid of a launch is the number on the last line the Host printed, whatever
/// it printed before.
pub proof fn law_the_pid_is_on_the_last_line(before: Seq<char>, n: u32)
    requires
        before.len() == 0 || before.last() == '\n',
    ensures
        launched_pid(before + decimal(n as int) + "\n"@) == Some(n),
        launched_pid(before + decimal(n as int)) == Some(n),
{
    let number = decimal(n as int);
    law_a_number_is_written_in_decimal(n as int);
    law_a_number_is_read_as_it_is_written(number);
    reveal_strlit("\n");
    assert forall|i: int| 0 <= i < number.len() implies !is_white(#[trigger] number[i]) by {
        assert('0' <= number[i] <= '9');
    }
    let none = Seq::<char>::empty();
    law_trimming_takes_the_white_space_around(none, number, none);
    assert(none + number + none =~= number);
    assert(!number.contains('\n')) by {
        if number.contains('\n') {
            let i = choose|i: int| 0 <= i < number.len() && number[i] == '\n';
            assert('0' <= number[i] <= '9');
        }
    }
    assert(number[number.len() - 1] != '\r');
    law_lines_end_where_the_text_says(number, none);
    assert(number.push('\n') + none =~= number + "\n"@);
    law_lines_of_whole_lines(before, number + "\n"@);
    law_lines_of_whole_lines(before, number);
    assert(before + (number + "\n"@) =~= before + number + "\n"@);
    let lines = lines_of(before);
    let nothing = Seq::<Seq<char>>::empty();
    law_the_last_full_line_is_the_last_that_holds_anything(lines, number, nothing);
    assert(lines + (seq![number] + nothing) =~= lines.push(number) + nothing);
    assert(lines + seq![number] =~= lines.push(number) + nothing);
}

/// A launch that printed its pid is `running`, with that pid, no exit code and
/// nothing to show; one that printed none did not start, and keeps all it has,
/// with rshx's own line before its stderr.
pub proof fn law_a_launch_is_told_by_what_it_printed(o: OutcomeModel, stdout: Seq<char>)
    requires
        o.status == Status::Okay,
    ensures
        launched_pid(stdout) is Some ==> launched_of(o, stdout) == (OutcomeModel {
            status: Status::Running,
            pid: launched_pid(stdout),
            stdout: Seq::empty(),
            exit_code: None,
            ..o
        }),
        launched_pid(stdout) is None ==> launched_of(o, stdout) == (OutcomeModel {
            status: Status::Unreachable,
            stderr: encode_utf8(
                "rshx: the Host printed no pid, so the command was not started\n"@,
            ) + o.stderr,
            ..o
        }),
{
}

} // verus!
