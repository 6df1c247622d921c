//! Running the command on one Host.

use vstd::prelude::*;

use crate::host::Host;
use crate::remote::{
    detached, detached_word, law_a_detached_command_runs_as_typed,
    law_a_marked_command_runs_as_typed, marked, marked_script, shell_reads, ssh, ssh_words,
    word_of,
};
use crate::run::detach::{launched, launched_of};
use crate::run::outcome::Outcome;
use crate::text::{join, joined, lossy, texts};

verus! {

/// The one word a Host is handed: the launcher for a detached run, else the
/// command under its marker.
pub open spec fn command_word(
    marker: Seq<char>,
    command: Seq<Seq<char>>,
    detach: bool,
    privilege: bool,
) -> Seq<char> {
    if detach {
        detached_word(marker, joined(command, " "@), privilege)
    } else {
        word_of(marked_script(marker, joined(command, " "@)))
    }
}

/// Everything ssh is given to run the command on one Host.
///
/// The command is run under a marker, so that a Host cut short can be asked to
/// stop it: killing its ssh leaves the command running on the Host. For a
/// detached run the launcher starts the command and returns: the elevation,
/// when there is one, is the launcher's, and what the command prints goes
/// nowhere.
pub fn command_ssh(
    host: &Host,
    marker: &str,
    command: &[String],
    detach: bool,
    privilege: bool,
) -> (r: Vec<String>)
    ensures
        texts(r@) == ssh_words(host@, Seq::empty()).push(
            command_word(marker@, texts(command@), detach, privilege),
        ),
{
    let none: Vec<(&str, &str)> = Vec::new();
    assert(none@ =~= Seq::<(&str, &str)>::empty());
    let mut words = ssh(host, none.as_slice());
    let word = if detach {
        let text = join(command, " ");
        detached(marker, text.as_str(), privilege)
    } else {
        marked(marker, command)
    };
    let ghost before = words@;
    let ghost made = word@;
    words.push(word);
    assert(texts(words@) =~= texts(before).push(made));
    words
}

/// What the Host's ssh came to: for a detached run, what the launcher printed
/// is the pid of the shell running the command, which is what the report says
/// is running there.
pub fn command_outcome(outcome: Outcome, detach: bool) -> (r: Outcome)
    ensures
        r@ == (if detach {
            launched_of(outcome@, lossy(outcome.stdout@))
        } else {
            outcome@
        }),
{
    if detach {
        launched(outcome)
    } else {
        outcome
    }
}

/// A Host is handed its command in a word that the shell reads back whole: the
/// words as they were typed with single spaces between them, run beside the
/// marker, whether or not the run is privileged.
pub proof fn law_a_host_is_handed_its_command(
    marker: Seq<char>,
    command: Seq<Seq<char>>,
    privilege: bool,
)
    ensures
        ({
            let word = command_word(marker, command, false, privilege);
            &&& word.take(6) == "sh -c "@
            &&& shell_reads(word.skip(6), false) == Some(
                "m="@ + marker + "; echo $$ > \"$m\" 2>/dev/null; "@ + "( "@ + joined(
                    command,
                    " "@,
                ) + " )"@ + "; rc=$?; rm -f -- \"$m\"; exit $rc"@,
            )
        }),
{
    law_a_marked_command_runs_as_typed(marker, joined(command, " "@));
}

/// A detached command is handed over to be started and left: in a word whose
/// script prints the pid of what it started, under one sudo where the run is
/// privileged.
pub proof fn law_a_detached_host_is_handed_its_command(
    marker: Seq<char>,
    command: Seq<Seq<char>>,
) -> (words: (Seq<char>, Seq<char>))
    ensures
        command_word(marker, command, true, false).take(6) == "sh -c "@,
        command_word(marker, command, true, true).take(6) == "sh -c "@,
        shell_reads(command_word(marker, command, true, false).skip(6), false) == Some(
            "nohup sh -c "@ + words.0 + " >/dev/null 2>&1 </dev/null & echo $!"@,
        ),
        shell_reads(words.0, false) == Some(
            "echo $$ > \""@ + marker + "\" 2>/dev/null; "@ + "( "@ + joined(command, " "@) + " )"@
                + "; rc=$?; rm -f -- \""@ + marker + "\"; exit $rc"@,
        ),
        shell_reads(command_word(marker, command, true, true).skip(6), false) == Some(
            "sudo -S -p rshx-password: sh -c "@ + words.1,
        ),
        shell_reads(words.1, false) == Some(
            "nohup sh -c "@ + words.0 + " >/dev/null 2>&1 </dev/null & echo $!"@,
        ),
{
    law_a_detached_command_runs_as_typed(marker, joined(command, " "@))
}

} // verus!
