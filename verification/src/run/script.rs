//! Running a local script on Hosts: the file is copied to a temporary file on
//! the Host, made executable, run there, and removed again.

use vstd::prelude::*;
use vstd::utf8::{decode_utf8, encode_utf8, valid_utf8};

use crate::host::{is_plain, Host};
use crate::privilege::{elapsed, law_a_sudo_is_one_line, span, sudo_words, under_sudo};
use crate::remote::{marked_script, ssh_words, word_of};
use crate::run::command::{command_ssh, command_word};
use crate::run::outcome::{local_failure_of, Outcome, OutcomeModel, Status};
use crate::text::{
    bytes_of, chars_of, joined, last_full, last_line, law_joining_puts_the_separator_between,
    law_lines_end_where_the_text_says, law_lines_of_whole_lines,
    law_the_last_full_line_is_the_last_that_holds_anything, lines_of, read_utf8, texts,
};

verus! {

/// The remote side of the copy: a temporary file, the script written into it,
/// and the path of that file printed. `mktemp` failing leaves nothing behind,
/// and a `cat` that fails removes what it wrote. The path is printed without a
/// newline, so a Host's stdout is the path and nothing else.
pub const COPY: &'static str = r#"tmp=$(mktemp) || exit 1; cat > "$tmp" || { rm -f -- "$tmp"; exit 1; }; printf '%s' "$tmp""#;

/// The script could not be read, or is not a file: the same failure on every
/// Host, so it is reported once, before anything runs, as a local error rather
/// than as one failure per Host. `metadata` says whether it is a file.
pub fn check_script(shown: &str, metadata: Result<bool, String>) -> (r: Result<(), String>)
    ensures
        match metadata {
            Err(err) => r is Err && r->Err_0@ == "could not read "@ + shown@ + ": "@ + err@,
            Ok(false) => r is Err && r->Err_0@ == shown@ + " is not a file"@,
            Ok(true) => r is Ok,
        },
{
    match metadata {
        Err(err) => {
            let mut s = "could not read ".to_string();
            s.append(shown);
            s.append(": ");
            s.append(err.as_str());
            Err(s)
        },
        Ok(is_file) => {
            if is_file {
                Ok(())
            } else {
                let mut s = shown.to_string();
                s.append(" is not a file");
                Err(s)
            }
        },
    }
}

/// What the heading names: the script, which is what the run is about; the copy
/// is plumbing, and the same for every Host.
pub fn script_heading(shown: &str) -> (r: Vec<String>)
    ensures
        texts(r@) == seq![shown@ + " (script)"@],
{
    let mut s = shown.to_string();
    s.append(" (script)");
    let ghost made = s@;
    let mut words: Vec<String> = Vec::new();
    words.push(s);
    assert(texts(words@) =~= seq![made]);
    words
}

/// The script could not be opened for this Host, though it was read before the
/// run began: something changed the file under rshx.
pub fn script_gone(host: &str, duration: u128, shown: &str, err: &str) -> (r: Outcome)
    ensures
        r@ == local_failure_of(
            host@,
            duration,
            "could not read "@ + shown@ + ": "@ + err@,
        ),
{
    let mut s = "could not read ".to_string();
    s.append(shown);
    s.append(": ");
    s.append(err);
    Outcome::local_failure(host, duration, s)
}

/// Everything ssh is given to copy the script to one Host. The script is ssh's
/// stdin, which carries it to the Host's `cat`. Nothing on this side elevates,
/// so no password is asked for here.
pub fn copy_ssh(host: &Host, marker: &str) -> (r: Vec<String>)
    ensures
        texts(r@) == ssh_words(host@, Seq::empty()).push(word_of(marked_script(marker@, COPY@))),
{
    let mut copy: Vec<String> = Vec::new();
    copy.push(COPY.to_string());
    assert(texts(copy@) =~= seq![COPY@]);
    assert(joined(texts(copy@), " "@) == COPY@);
    command_ssh(host, marker, copy.as_slice(), false, false)
}

/// The command a Host runs on its copy of the script.
pub open spec fn script_words(path: Seq<char>, privilege: bool) -> Seq<Seq<char>> {
    let chain = "'chmod +x -- \""@ + path + "\" && \""@ + path + "\"';"@;
    let words = seq!["sh"@, "-c"@, chain];
    let removal = "rc=$?; rm -f -- \""@ + path + "\"; exit $rc"@;
    if privilege {
        (sudo_words() + words).push(removal)
    } else {
        words.push(removal)
    }
}

/// The command a Host runs: the copied script made executable, run, and
/// removed whatever it exits with, with its own status kept. The removal sits
/// outside the elevated part, so a sudo that refuses a password still leaves
/// nothing behind — and it needs no privilege, since the file belongs to the
/// Host's user, who wrote it.
///
/// Returned as separate words, which ssh joins into the one string the remote
/// shell parses; the separator rides at the end of the word before it.
pub fn run_argv(path: &str, privilege: bool) -> (r: Vec<String>)
    ensures
        texts(r@) == script_words(path@, privilege),
{
    // One shell word, so `--privilege` puts a single sudo in front of all of
    // it. Left to the remote shell's own parsing, sudo would elevate the chmod
    // alone and the script would run as the Host's user.
    let mut chain = "'chmod +x -- \"".to_string();
    chain.append(path);
    chain.append("\" && \"");
    chain.append(path);
    chain.append("\"';");
    let ghost link = chain@;
    let mut words: Vec<String> = Vec::new();
    words.push("sh".to_string());
    words.push("-c".to_string());
    words.push(chain);
    assert(texts(words@) =~= seq!["sh"@, "-c"@, link]);
    let mut command = if privilege {
        under_sudo(words.as_slice())
    } else {
        words
    };
    let mut removal = "rc=$?; rm -f -- \"".to_string();
    removal.append(path);
    removal.append("\"; exit $rc");
    let ghost before = command@;
    let ghost last = removal@;
    command.push(removal);
    assert(texts(command@) =~= texts(before).push(last));
    command
}

/// Everything ssh is given to run the copied script on one Host.
///
/// The script runs under a marker, so that a Host cut short can be asked to
/// stop it: killing its ssh leaves the script running on the Host. The cleanup
/// that removes the file is part of the marked command, so a stop that kills
/// the script leaves nothing behind either. For a detached run the launcher
/// carries the elevation, so the script inside it is not elevated again.
pub fn script_ssh(
    host: &Host,
    marker: &str,
    path: &str,
    detach: bool,
    privilege: bool,
) -> (r: Vec<String>)
    ensures
        texts(r@) == ssh_words(host@, Seq::empty()).push(
            command_word(marker@, script_words(path@, privilege && !detach), detach, privilege),
        ),
{
    let words = run_argv(path, privilege && !detach);
    command_ssh(host, marker, words.as_slice(), detach, privilege)
}

/// Whether a path is absolute and made of characters that mean nothing to a
/// shell, since rshx builds a command out of it.
pub open spec fn is_inert_path(path: Seq<char>) -> bool {
    &&& path.len() > 0
    &&& path[0] == '/'
    &&& forall|i: int| 0 <= i < path.len() ==> is_plain(#[trigger] path[i]) || path[i] == '/'
}

/// The path in what a Host printed, if that is what it printed: the last line
/// that holds anything.
pub open spec fn printed_path(stdout: Seq<u8>) -> Option<Seq<char>> {
    if !valid_utf8(stdout) {
        None
    } else {
        match last_full(lines_of(decode_utf8(stdout))) {
            Some(line) => if is_inert_path(line) {
                Some(line)
            } else {
                None
            },
            None => None,
        }
    }
}

fn inert_path(path: &str) -> (r: bool)
    ensures
        r == is_inert_path(path@),
{
    let cs = chars_of(path);
    if cs.len() == 0 || cs[0] != '/' {
        return false;
    }
    let mut i: usize = 0;
    while i < cs.len()
        invariant
            i <= cs@.len(),
            cs@ == path@,
            forall|j: int| 0 <= j < i ==> is_plain(#[trigger] cs@[j]) || cs@[j] == '/',
        decreases cs@.len() - i,
    {
        let c = cs[i];
        let plain = ('a' <= c && c <= 'z') || ('A' <= c && c <= 'Z') || ('0' <= c && c <= '9') || c
            == '.' || c == '_' || c == '-' || c == '/';
        if !plain {
            assert(!is_plain(cs@[i as int]) && cs@[i as int] != '/');
            return false;
        }
        i += 1;
    }
    true
}

/// The path a Host printed, if that is what it printed. The last line is the
/// one rshx asked for — a Host's ssh may print a banner of its own before it —
/// and it is an absolute path of characters that mean nothing to a shell,
/// since rshx builds a command out of it.
pub fn temporary_path(stdout: &[u8]) -> (r: Option<String>)
    ensures
        match r {
            Some(path) => printed_path(stdout@) == Some(path@),
            None => printed_path(stdout@) is None,
        },
{
    let text = match read_utf8(stdout) {
        Some(text) => text,
        None => {
            return None;
        },
    };
    match last_line(text.as_str()) {
        Some(line) => if inert_path(line.as_str()) {
            Some(line)
        } else {
            None
        },
        None => None,
    }
}

/// The copy's outcome, when what came back is not a path.
pub open spec fn unreadable_path_of(o: OutcomeModel) -> OutcomeModel {
    OutcomeModel {
        status: Status::Unreachable,
        stderr: encode_utf8(
            "rshx: the Host printed no temporary path, so the script was not run\n"@,
        ) + o.stderr,
        ..o
    }
}

/// The copy's outcome, when what came back is not a path. ssh's exit status
/// stands — rshx does not invent one — but a Host rshx cannot name a file on
/// is one the script never ran on, which is what `unreachable` says. What the
/// Host printed is kept, so the report shows it.
pub fn unreadable_path(copied: Outcome) -> (r: Outcome)
    ensures
        r@ == unreadable_path_of(copied@),
{
    let mut copied = copied;
    let mut stderr = bytes_of(
        "rshx: the Host printed no temporary path, so the script was not run\n",
    );
    let ghost note = stderr@;
    stderr.extend_from_slice(copied.stderr.as_slice());
    assert(stderr@ =~= note + copied.stderr@);
    copied.status = Status::Unreachable;
    copied.stderr = stderr;
    copied
}

/// What is left of a Host's limit after it has used some: `--timeout` bounds
/// the Host, not one of its two steps, so what the copy spent is taken off what
/// the run has left.
pub fn remaining(limit: Option<u128>, used: u128) -> (r: Option<u128>)
    ensures
        match limit {
            Some(limit) => r == Some(span(used, limit)),
            None => r is None,
        },
{
    match limit {
        Some(limit) => Some(elapsed(used, limit)),
        None => None,
    }
}

/// What follows the copy: the path to run the script at, or the Host's outcome
/// where there is nothing to run. Without a path there is nothing to run, and
/// the Host's own output is the only clue as to why.
pub fn after_copy(copied: Outcome) -> (r: Result<String, Outcome>)
    ensures
        match r {
            Ok(path) => copied.status == Status::Okay && printed_path(copied.stdout@) == Some(
                path@,
            ),
            Err(o) => if copied.status != Status::Okay {
                o@ == copied@
            } else {
                printed_path(copied.stdout@) is None && o@ == unreadable_path_of(copied@)
            },
        },
{
    if copied.status != Status::Okay {
        return Err(copied);
    }
    match temporary_path(copied.stdout.as_slice()) {
        Some(path) => Ok(path),
        None => Err(unreadable_path(copied)),
    }
}

/// A path that rshx builds a command out of holds nothing a shell could act on.
pub proof fn law_a_printed_path_is_inert(stdout: Seq<u8>)
    requires
        printed_path(stdout) is Some,
    ensures
        is_inert_path(printed_path(stdout)->Some_0),
{
}

/// The removal is never elevated: it is the last word either way, and the sudo
/// words stand only before the part that runs the script.
pub proof fn law_the_removal_needs_no_privilege(path: Seq<char>)
    ensures
        script_words(path, true).last() == script_words(path, false).last(),
        script_words(path, true) == sudo_words() + script_words(path, false),
{
    assert(script_words(path, true) =~= sudo_words() + script_words(path, false));
}

/// Whether a path is absolute and holds only characters that mean nothing to a
/// shell.
pub open spec fn means_itself(path: Seq<char>) -> bool {
    &&& path.len() > 0
    &&& path[0] == '/'
    &&& forall|i: int|
        0 <= i < path.len() ==> {
            let c = #[trigger] path[i];
            ('a' <= c <= 'z') || ('A' <= c <= 'Z') || ('0' <= c <= '9') || seq![
                '.',
                '_',
                '-',
                '/',
            ].contains(c)
        }
}

/// The path a Host printed is its last line, whatever came before it, where that
/// line is a path that means itself to a shell; anything else is no path.
pub proof fn law_the_path_is_on_the_last_line(before: Seq<char>, line: Seq<char>)
    requires
        before.len() == 0 || before.last() == '\n',
        line.len() > 0,
        !line.contains('\n'),
        line.last() != '\r',
    ensures
        means_itself(line) ==> printed_path(encode_utf8(before + line)) == Some(line)
            && printed_path(encode_utf8(before + line + "\n"@)) == Some(line),
        !means_itself(line) ==> printed_path(encode_utf8(before + line)) is None && printed_path(
            encode_utf8(before + line + "\n"@),
        ) is None,
{
    reveal_strlit("\n");
    let marks = seq!['.', '_', '-', '/'];
    assert(marks[0] == '.' && marks[1] == '_' && marks[2] == '-' && marks[3] == '/');
    assert(means_itself(line) == is_inert_path(line)) by {
        assert forall|i: int| 0 <= i < line.len() implies (is_plain(#[trigger] line[i]) || line[i]
            == '/') == (('a' <= line[i] <= 'z') || ('A' <= line[i] <= 'Z') || ('0' <= line[i]
            <= '9') || marks.contains(line[i])) by {}
    }
    let none = Seq::<char>::empty();
    law_lines_end_where_the_text_says(line, none);
    assert(line.push('\n') + none =~= line + "\n"@);
    law_lines_of_whole_lines(before, line + "\n"@);
    law_lines_of_whole_lines(before, line);
    assert(before + (line + "\n"@) =~= before + line + "\n"@);
    let lines = lines_of(before);
    let nothing = Seq::<Seq<char>>::empty();
    law_the_last_full_line_is_the_last_that_holds_anything(lines, line, nothing);
    assert(lines + (seq![line] + nothing) =~= lines.push(line) + nothing);
    assert(lines + seq![line] =~= lines.push(line) + nothing);
    vstd::utf8::encode_utf8_valid_utf8(before + line);
    vstd::utf8::encode_utf8_decode_utf8(before + line);
    vstd::utf8::encode_utf8_valid_utf8(before + line + "\n"@);
    vstd::utf8::encode_utf8_decode_utf8(before + line + "\n"@);
}

proof fn lemma_four_words(a: Seq<char>, b: Seq<char>, c: Seq<char>, d: Seq<char>)
    ensures
        joined(seq![a, b, c, d], " "@) == a + " "@ + b + " "@ + c + " "@ + d,
{
    reveal_with_fuel(joined, 5);
    assert(seq![a, b, c, d].drop_last() =~= seq![a, b, c]);
    assert(seq![a, b, c].drop_last() =~= seq![a, b]);
    assert(seq![a, b].drop_last() =~= seq![a]);
}

proof fn lemma_script_line(path: Seq<char>, chain: Seq<char>, removal: Seq<char>)
    requires
        chain == "'chmod +x -- \""@ + path + "\" && \""@ + path + "\"';"@,
        removal == "rc=$?; rm -f -- \""@ + path + "\"; exit $rc"@,
    ensures
        "sh"@ + " "@ + "-c"@ + " "@ + chain + " "@ + removal == "sh -c 'chmod +x -- \""@ + path
            + "\" && \""@ + path + "\"'; rc=$?; rm -f -- \""@ + path + "\"; exit $rc"@,
{
    let start = "sh"@ + " "@ + "-c"@ + " "@ + "'chmod +x -- \""@;
    let middle = "\"';"@ + " "@ + "rc=$?; rm -f -- \""@;
    assert(start =~= "sh -c 'chmod +x -- \""@) by {
        reveal_strlit("sh");
        reveal_strlit("-c");
        reveal_strlit(" ");
        reveal_strlit("'chmod +x -- \"");
        reveal_strlit("sh -c 'chmod +x -- \"");
    }
    assert(middle =~= "\"'; rc=$?; rm -f -- \""@) by {
        reveal_strlit(" ");
        reveal_strlit("\"';");
        reveal_strlit("rc=$?; rm -f -- \"");
        reveal_strlit("\"'; rc=$?; rm -f -- \"");
    }
    assert("sh"@ + " "@ + "-c"@ + " "@ + chain + " "@ + removal =~= start + path + "\" && \""@ + path
        + middle + path + "\"; exit $rc"@);
}

/// The line a copied script is run with makes it executable, runs it, removes
/// it, and ends as it ended; under privilege the sudo stands before the running
/// of it.
pub proof fn law_a_copied_script_is_run_and_removed(path: Seq<char>)
    ensures
        joined(script_words(path, false), " "@) == "sh -c 'chmod +x -- \""@ + path + "\" && \""@
            + path + "\"'; rc=$?; rm -f -- \""@ + path + "\"; exit $rc"@,
        joined(script_words(path, true), " "@) == "sudo -S -p rshx-password:"@ + " "@ + joined(
            script_words(path, false),
            " "@,
        ),
{
    let chain = "'chmod +x -- \""@ + path + "\" && \""@ + path + "\"';"@;
    let removal = "rc=$?; rm -f -- \""@ + path + "\"; exit $rc"@;
    let words = script_words(path, false);
    assert(words =~= seq!["sh"@, "-c"@, chain, removal]);
    lemma_four_words("sh"@, "-c"@, chain, removal);
    lemma_script_line(path, chain, removal);
    law_the_removal_needs_no_privilege(path);
    law_joining_puts_the_separator_between(sudo_words(), words, " "@, removal);
    law_a_sudo_is_one_line();
}

/// A Host that printed no path is `unreachable`, with rshx's own line before
/// what it said, and everything else as it was.
pub proof fn law_a_missing_path_is_said_first(o: OutcomeModel)
    ensures
        unreadable_path_of(o) == (OutcomeModel {
            status: Status::Unreachable,
            stderr: encode_utf8(
                "rshx: the Host printed no temporary path, so the script was not run\n"@,
            ) + o.stderr,
            ..o
        }),
{
}

} // verus!
