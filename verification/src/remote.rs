//! The remote side of a run: the ssh arguments for a Host, the marker that names
//! the command rshx starts there, stopping that command again, and the launcher
//! that starts one without waiting for it.
//!
//! Killing a Host's ssh does not stop what it started. The remote command
//! belongs to the sshd session, not to the connection: it outlives the ssh
//! that asked for it, and carries on with nobody watching. So rshx names the
//! command before it runs — the pid of the shell that runs it, in a file of
//! rshx's own on the Host — and a second connection reads that file and stops
//! the tree below it. The second connection is best-effort: a Host rshx cannot
//! reach again is reported as one whose command may still be running.
//!
//! A detached run leaves that same marker and nothing else: rshx starts the
//! command, is told its pid, and returns. What it started is on its own from
//! there, and the marker is gone when the command ends.

use vstd::prelude::*;

use crate::host::{
    is_plain, is_valid, law_valid_name_is_a_plain_argument, name_complaint, Host, HostModel,
};
use crate::privilege::{
    law_a_sudo_is_one_line, sudo_words, under_sudo, under_sudo_unprompted, unprompted_words,
};
use crate::text::{
    chars_of, decimal, hexadecimal, is_white, join, joined,
    law_trimming_takes_the_white_space_around, lemma_digits_shape, lemma_digits_tell_apart, lossy,
    read_lossy, signed, string_of, texts, trim, trimmed, write_decimal, write_hexadecimal,
    write_signed,
};

verus! {

/// How long a stop connection has to connect, authenticate, and stop a Host's
/// command, in nanoseconds. Past it the Host is reported as one rshx could not
/// stop: a run already cut short must not hang on a Host that cannot be reached
/// again.
pub const STOP_LIMIT: u128 = 3_000_000_000;

/// What the stop connection keeps of ssh's stderr, which is where the reason
/// a stop failed comes from.
pub const STOP_STDERR_CAP: usize = 8 * 1024;

// ---------------------------------------------------------------------------
// ssh's arguments
// ---------------------------------------------------------------------------

/// One `-o` option.
pub open spec fn option_words(name: Seq<char>, value: Seq<char>) -> Seq<Seq<char>> {
    seq!["-o"@, name + "="@ + value]
}

/// The options a Host's overrides become.
pub open spec fn override_words(host: HostModel) -> Seq<Seq<char>> {
    let user = match host.user {
        Some(user) => option_words("User"@, user),
        None => Seq::empty(),
    };
    let port = match host.port {
        Some(port) => option_words("Port"@, decimal(port as int)),
        None => Seq::empty(),
    };
    let ip = match host.ip {
        Some(ip) => option_words("HostName"@, ip),
        None => Seq::empty(),
    };
    user + port + ip
}

/// The options one after another.
pub open spec fn extra_words(extra: Seq<(&str, &str)>) -> Seq<Seq<char>>
    decreases extra.len(),
{
    if extra.len() == 0 {
        Seq::empty()
    } else {
        extra_words(extra.drop_last()) + option_words(extra.last().0@, extra.last().1@)
    }
}

/// ssh's arguments up to the destination. `--` ends option parsing, so a
/// destination is never read as an option.
pub open spec fn ssh_words(host: HostModel, extra: Seq<(&str, &str)>) -> Seq<Seq<char>> {
    override_words(host) + extra_words(extra) + seq!["--"@, host.name]
}

fn add_option(words: &mut Vec<String>, name: &str, value: &str)
    ensures
        texts(final(words)@) == texts(old(words)@) + option_words(name@, value@),
{
    let ghost before = words@;
    words.push("-o".to_string());
    let mut s = name.to_string();
    s.append("=");
    s.append(value);
    words.push(s);
    assert(texts(words@) =~= texts(before) + option_words(name@, value@));
}

/// The ssh arguments for one Host, with `extra` `-o` options of rshx's own.
///
/// A Host's overrides become `-o` options rather than a rewritten destination,
/// so `~/.ssh/config` stays the single source and the rest still applies.
pub fn ssh(host: &Host, extra: &[(&str, &str)]) -> (r: Vec<String>)
    ensures
        texts(r@) == ssh_words(host@, extra@),
{
    let mut words: Vec<String> = Vec::new();
    let ghost none = Seq::<Seq<char>>::empty();
    assert(texts(words@) == none);
    if let Some(user) = &host.user {
        add_option(&mut words, "User", user.as_str());
    }
    if let Some(port) = host.port {
        let number = write_decimal(port as u64);
        add_option(&mut words, "Port", number.as_str());
    }
    if let Some(ip) = &host.ip {
        add_option(&mut words, "HostName", ip.as_str());
    }
    assert(texts(words@) == override_words(host@));
    let mut i: usize = 0;
    assert(override_words(host@) + none == override_words(host@));
    while i < extra.len()
        invariant
            i <= extra@.len(),
            texts(words@) == override_words(host@) + extra_words(extra@.take(i as int)),
        decreases extra@.len() - i,
    {
        let pair = extra[i];
        add_option(&mut words, pair.0, pair.1);
        i += 1;
        proof {
            let upto = extra@.take(i as int);
            assert(upto.drop_last() == extra@.take(i - 1));
            assert(upto.last() == extra@[i - 1]);
        }
    }
    assert(extra@.take(extra@.len() as int) == extra@);
    let ghost before = words@;
    words.push("--".to_string());
    words.push(host.name.clone());
    assert(texts(words@) =~= texts(before) + seq!["--"@, host.name@]);
    words
}

// ---------------------------------------------------------------------------
// The marker
// ---------------------------------------------------------------------------

/// This run's token, mixed from the pid and the clock so that two runs on the
/// same machine never share one — a marker an earlier run left behind must
/// never be read as this run's.
pub fn run_token(pid: u32, nanos: u32) -> (r: u64)
    ensures
        r == pid * 0x1_0000_0000 + nanos,
{
    let high: u64 = pid as u64;
    let low: u64 = nanos as u64;
    assert(high < 0x1_0000_0000 && low < 0x1_0000_0000 ==> ((high << 32) | low) == high
        * 0x1_0000_0000 + low) by (bit_vector);
    (high << 32) | low
}

/// Two runs share a token only where they share both the pid and the clock.
pub proof fn law_tokens_tell_runs_apart(pid: u32, nanos: u32, other_pid: u32, other_nanos: u32)
    requires
        pid * 0x1_0000_0000 + nanos == other_pid * 0x1_0000_0000 + other_nanos,
    ensures
        pid == other_pid,
        nanos == other_nanos,
{
}

/// Where a Host's marker goes.
pub open spec fn marker_path(token: int, host: Seq<char>) -> Seq<char> {
    "/tmp/rshx-"@ + hexadecimal(token) + "-"@ + host + ".pid"@
}

/// Where a Host's marker goes: a name no other run can pick, and one a Host's
/// name cannot steer, since it holds only letters, digits, `.`, `_` and `-`.
pub fn marker(token: u64, host: &str) -> (r: String)
    ensures
        r@ == marker_path(token as int, host@),
{
    let mut s = "/tmp/rshx-".to_string();
    let hex = write_hexadecimal(token);
    s.append(hex.as_str());
    s.append("-");
    s.append(host);
    s.append(".pid");
    s
}

// ---------------------------------------------------------------------------
// One word for the login shell
// ---------------------------------------------------------------------------

/// A text with every single quote closed, escaped and reopened.
pub open spec fn escaped(s: Seq<char>) -> Seq<char>
    decreases s.len(),
{
    if s.len() == 0 {
        Seq::empty()
    } else if s.last() == '\'' {
        escaped(s.drop_last()) + seq!['\'', '\\', '\'', '\'']
    } else {
        escaped(s.drop_last()).push(s.last())
    }
}

/// The script as one word after `sh -c`.
pub open spec fn word_of(script: Seq<char>) -> Seq<char> {
    "sh -c '"@ + escaped(script) + "'"@
}

fn escape(s: &str) -> (r: String)
    ensures
        r@ == escaped(s@),
{
    let cs = chars_of(s);
    let mut out: Vec<char> = Vec::new();
    let mut i: usize = 0;
    while i < cs.len()
        invariant
            i <= cs@.len(),
            out@ == escaped(cs@.take(i as int)),
        decreases cs@.len() - i,
    {
        let c = cs[i];
        let ghost before = out@;
        if c == '\'' {
            out.push('\'');
            out.push('\\');
            out.push('\'');
            out.push('\'');
            assert(out@ =~= before + seq!['\'', '\\', '\'', '\'']);
        } else {
            out.push(c);
        }
        i += 1;
        proof {
            assert(cs@.take(i as int).drop_last() == cs@.take(i - 1));
            assert(cs@.take(i as int).last() == c);
        }
    }
    assert(cs@.take(cs@.len() as int) == cs@);
    string_of(out.as_slice())
}

/// A shell script as the one word ssh is handed: the script is quoted so that
/// it arrives whole, whatever the login shell that reads the line makes of
/// quotes. Every quote inside is closed and reopened.
fn one_word(script: &str) -> (r: String)
    ensures
        r@ == word_of(script@),
{
    let mut s = "sh -c '".to_string();
    let body = escape(script);
    s.append(body.as_str());
    s.append("'");
    s
}

/// The script that runs a command beside its marker.
pub open spec fn marked_script(marker: Seq<char>, text: Seq<char>) -> Seq<char> {
    "m="@ + marker + "; echo $$ > \"$m\" 2>/dev/null; ( "@ + text
        + " ); rc=$?; rm -f -- \"$m\"; exit $rc"@
}

/// A Host's command, wrapped in the marker a stop finds it by.
///
/// ssh hands a command to the Host's *login shell*, which is whatever that
/// Host's user runs — a POSIX sh, bash, fish, csh. rshx cannot know which, so
/// the wrapper is not written in the login shell's language: the login shell
/// only has to parse `sh -c` and the one quoted word after it, and the command
/// itself is parsed by that `sh`. A Host whose user has not changed their
/// shell would have had the same `sh` parse it anyway.
///
/// The pid written is that `sh`'s own, and the command runs in a subshell
/// below it: whatever the command does — exec, fork, a background job — it
/// stays in that shell's tree, and the tree is what a stop walks. Its exit
/// status is carried out through the subshell, and the marker is removed last,
/// so a stop that arrives as the command ends finds either a live pid or
/// nothing at all.
///
/// Returned as the one word ssh is handed. The write is silent, since a Host
/// whose `/tmp` cannot take it is not a Host the run has anything to say
/// about — the command still runs, it just cannot be stopped.
pub fn marked(marker: &str, command: &[String]) -> (r: String)
    ensures
        r@ == word_of(marked_script(marker@, joined(texts(command@), " "@))),
{
    // What ssh would have joined the words into, parsed by a shell rshx names
    // rather than by whatever the Host's user happens to run.
    let text = join(command, " ");
    let mut s = "m=".to_string();
    s.append(marker);
    s.append("; echo $$ > \"$m\" 2>/dev/null; ( ");
    s.append(text.as_str());
    s.append(" ); rc=$?; rm -f -- \"$m\"; exit $rc");
    one_word(s.as_str())
}

/// The script that a detached command runs in.
pub open spec fn payload_script(marker: Seq<char>, text: Seq<char>) -> Seq<char> {
    "echo $$ > \""@ + marker + "\" 2>/dev/null; ( "@ + text + " ); rc=$?; rm -f -- \""@ + marker
        + "\"; exit $rc"@
}

/// The script that starts the payload and prints its pid.
pub open spec fn launcher_script(marker: Seq<char>, text: Seq<char>) -> Seq<char> {
    "nohup "@ + word_of(payload_script(marker, text)) + " >/dev/null 2>&1 </dev/null & echo $!"@
}

/// The word that a detached launch is.
pub open spec fn detached_word(marker: Seq<char>, text: Seq<char>, privilege: bool) -> Seq<char> {
    let launcher = launcher_script(marker, text);
    word_of(
        if privilege {
            joined(sudo_words() + seq![word_of(launcher)], " "@)
        } else {
            launcher
        },
    )
}

/// A Host's command, started and left running: ssh returns once the command has
/// started, instead of waiting for it to end.
///
/// A detached command is not rshx's to wait for any more, so nothing of its own
/// comes back over the ssh channel: the channel is what the Host's ssh waits
/// on, and a command still holding it would keep the connection open for as
/// long as it ran. Both its streams therefore go to `/dev/null`, and the run
/// keeps no record of it — the marker beside it is the only thing rshx leaves
/// on the Host, and the command's own end removes that.
///
/// What the launcher prints is the pid of the shell that runs the command — the
/// same shell the marker names, and the root of the tree a stop walks — so a
/// launch cut short is stopped by the same script as an attached run. `nohup`
/// and the redirects are what let the command outlive the connection: the
/// streams are no longer the channel's, and a session teardown that sends
/// `SIGHUP` cannot reach it. `setsid` would buy nothing more, since sshd
/// signals no group of a session it allocated no terminal for.
///
/// Under `privilege` the elevation sits *outside* the launcher, not inside the
/// payload: sudo's prompt has to reach rshx, and the payload's own streams are
/// discarded. The payload only starts once sudo has authenticated, so a Host
/// reported `running` is one whose command really is running as root.
pub fn detached(marker: &str, text: &str, privilege: bool) -> (r: String)
    ensures
        r@ == detached_word(marker@, text@, privilege),
{
    let mut payload = "echo $$ > \"".to_string();
    payload.append(marker);
    payload.append("\" 2>/dev/null; ( ");
    payload.append(text);
    payload.append(" ); rc=$?; rm -f -- \"");
    payload.append(marker);
    payload.append("\"; exit $rc");
    let mut launcher = "nohup ".to_string();
    let word = one_word(payload.as_str());
    launcher.append(word.as_str());
    launcher.append(" >/dev/null 2>&1 </dev/null & echo $!");
    if privilege {
        // The launcher as one word, so the sudo elevates all of it rather than
        // the first command in it — and so the login shell never has to parse
        // the `;`, `&` and quotes the launcher is written in.
        let mut whole: Vec<String> = Vec::new();
        let word = one_word(launcher.as_str());
        whole.push(word);
        assert(texts(whole@) == seq![word_of(launcher@)]);
        let elevated = under_sudo(whole.as_slice());
        let line = join(elevated.as_slice(), " ");
        one_word(line.as_str())
    } else {
        one_word(launcher.as_str())
    }
}

// ---------------------------------------------------------------------------
// Stopping
// ---------------------------------------------------------------------------

/// The remote side of a stop: read the pid rshx recorded for the Host's
/// command, and stop everything below it.
///
/// The tree is walked rather than a process group signalled: a command under
/// `sudo` may sit in a session of its own, and no group of rshx's naming can
/// be assumed on the far side. `ps` and `awk` are what every remote has;
/// without them the recorded pid is all that is left to signal.
///
/// A marker that is gone — the command finished, or never started — is not a
/// failure: there is nothing to stop. It is removed first, so a stop that
/// races the command's own end reads the marker once. Reading a missing marker
/// as nothing to stop is only safe because of an ordering neither side can
/// break: the wrapper writes the marker before the command runs, and this
/// connection has to connect, authenticate and start a shell before it can
/// read — strictly more work than the wrapper's first statement, which began
/// as soon as the Host forked it. A missing marker therefore means the Host
/// never got as far as forking the wrapper, or the wrapper has already removed
/// it, and in both cases nothing rshx started is still running.
///
/// The script is handed to `sh -c` as one word quoted in single quotes, so it
/// holds none of its own: `awk`'s `$1` and `$2` are escaped for the `sh` that
/// parses this text, which is what keeps them out of its hands.
pub const STOP: &'static str = r#"p=$(cat "$0" 2>/dev/null) || exit 0
rm -f -- "$0"
[ -n "$p" ] || exit 0
case $p in *[!0-9]*) exit 0;; esac
list=$(ps -A -o pid=,ppid= 2>/dev/null | awk -v root="$p" "{ par[\$1] = \$2 }
END {
    want[root] = 1; out = root
    do {
        n = 0
        for (pid in par) if (!(pid in want) && (par[pid] in want)) { want[pid] = 1; out = out OFS pid; n++ }
    } while (n)
    print out
}")
[ -n "$list" ] || list=$p
kill -TERM $list 2>/dev/null
sleep 1
kill -KILL $list 2>/dev/null
exit 0
"#;

/// The words a Host runs to stop its own command.
pub open spec fn stop_words(marker: Seq<char>, privilege: bool, password: bool) -> Seq<Seq<char>> {
    let words = seq!["sh"@, "-c"@, "'"@ + STOP@ + "'"@, marker];
    if privilege {
        unprompted_words(password) + words
    } else {
        words
    }
}

/// The words a Host runs to stop its own command: `sh -c` and the script, with
/// the marker as the script's `$0`, which `sh -c` passes without rshx quoting
/// it into the text.
///
/// A password the run already has is written to this connection's stdin; with
/// none to give, `-n` succeeds exactly when the Host's sudo wants none. The
/// prompt is empty: nothing here is recognised, so nothing of rshx's own is
/// printed into the reason a stop failed.
pub fn stop_argv(marker: &str, privilege: bool, password: bool) -> (r: Vec<String>)
    ensures
        texts(r@) == stop_words(marker@, privilege, password),
{
    let mut words: Vec<String> = Vec::new();
    words.push("sh".to_string());
    words.push("-c".to_string());
    // One shell word, so the sudo in front of it elevates all of it.
    let mut script = "'".to_string();
    script.append(STOP);
    script.append("'");
    words.push(script);
    words.push(marker.to_string());
    assert(texts(words@) =~= seq!["sh"@, "-c"@, "'"@ + STOP@ + "'"@, marker@]);
    if privilege {
        under_sudo_unprompted(words.as_slice(), password)
    } else {
        words
    }
}

/// Everything a stop connection's ssh is given. Nothing on this connection can
/// prompt: the password, when there is one, is written for the Host's sudo, and
/// an ssh that wants one of its own has to fail rather than read it.
pub fn stop_ssh(host: &Host, marker: &str, privilege: bool, password: bool) -> (r: Vec<String>)
    ensures
        texts(r@) == ssh_words(host@, seq![("BatchMode", "yes")]) + stop_words(
            marker@,
            privilege,
            password,
        ),
{
    let mut extra: Vec<(&str, &str)> = Vec::new();
    extra.push(("BatchMode", "yes"));
    assert(extra@ =~= seq![("BatchMode", "yes")]);
    let mut words = ssh(host, extra.as_slice());
    let mut stop = stop_argv(marker, privilege, password);
    let ghost a = words@;
    let ghost b = stop@;
    words.append(&mut stop);
    assert(texts(words@) =~= texts(a) + texts(b));
    words
}

/// Why a connection failed, from what the Host's ssh printed.
pub open spec fn reason_text(text: Seq<char>, code: Option<i32>) -> Seq<char> {
    if trimmed(text).len() > 0 {
        trimmed(text)
    } else {
        match code {
            Some(code) => "ssh exited with status "@ + signed(code as int),
            None => "the connection was killed"@,
        }
    }
}

/// Why a connection failed, from what the Host's ssh printed. ssh's own status
/// is what rshx reports, so a stop ssh could not make reads as one rshx could
/// not make.
pub fn reason(text: &str, code: Option<i32>) -> (r: String)
    ensures
        r@ == reason_text(text@, code),
{
    let cs = chars_of(text);
    let bare = trim(cs.as_slice());
    if bare.len() > 0 {
        return string_of(bare.as_slice());
    }
    match code {
        Some(code) => {
            let mut s = "ssh exited with status ".to_string();
            let number = write_signed(code);
            s.append(number.as_str());
            s
        },
        None => "the connection was killed".to_string(),
    }
}

/// How a child ended.
pub enum Waited {
    /// It ended, with this exit code unless a signal ended it.
    Ended(Option<i32>),
    /// It is gone but its status is unreadable, for this reason.
    Lost(String),
}

/// What a stop connection came to.
pub open spec fn stop_verdict(timed_out: bool, waited: Waited, stderr: Seq<char>) -> Result<
    (),
    Seq<char>,
> {
    if timed_out {
        Err("the stop connection did not finish in time"@)
    } else {
        match waited {
            Waited::Ended(code) => if code == Some(0i32) {
                Ok(())
            } else {
                Err(reason_text(stderr, code))
            },
            Waited::Lost(err) => Err(
                "could not read the stop connection's status: "@ + err@,
            ),
        }
    }
}

/// Whether a stop connection stopped the Host's command, and why it did not.
/// A Host with nothing to stop is not a failure: the marker is gone exactly
/// when the command has already ended.
pub fn stopped(timed_out: bool, waited: Waited, stderr: &[u8]) -> (r: Result<(), String>)
    ensures
        match r {
            Ok(_) => stop_verdict(timed_out, waited, lossy(stderr@)) is Ok,
            Err(e) => stop_verdict(timed_out, waited, lossy(stderr@)) == Err::<(), Seq<char>>(e@),
        },
{
    let text = read_lossy(stderr);
    stopped_saying(timed_out, waited, text.as_str())
}

/// Whether a stop connection whose stderr reads as `stderr` stopped the Host's
/// command, and why it did not.
pub fn stopped_saying(timed_out: bool, waited: Waited, stderr: &str) -> (r: Result<(), String>)
    ensures
        match r {
            Ok(_) => stop_verdict(timed_out, waited, stderr@) is Ok,
            Err(e) => stop_verdict(timed_out, waited, stderr@) == Err::<(), Seq<char>>(e@),
        },
{
    if timed_out {
        return Err("the stop connection did not finish in time".to_string());
    }
    match waited {
        Waited::Ended(code) => {
            if let Some(n) = code {
                if n == 0 {
                    return Ok(());
                }
            }
            Err(reason(stderr, code))
        },
        Waited::Lost(err) => {
            let mut s = "could not read the stop connection's status: ".to_string();
            s.append(err.as_str());
            Err(s)
        },
    }
}

/// The stop connection could not even be started.
pub fn stop_not_started(err: &str) -> (r: String)
    ensures
        r@ == "could not run ssh: "@ + err@,
{
    let mut s = "could not run ssh: ".to_string();
    s.append(err);
    s
}

// ---------------------------------------------------------------------------
// What holds of the words a Host is handed
// ---------------------------------------------------------------------------

/// What a shell makes of one word: a single quote opens and closes a stretch
/// that is taken as it stands, and a backslash outside such a stretch takes the
/// next character as it stands. A stretch that is never closed is no word.
pub open spec fn shell_reads(s: Seq<char>, quoted: bool) -> Option<Seq<char>>
    decreases s.len(),
{
    if s.len() == 0 {
        if quoted {
            None
        } else {
            Some(Seq::empty())
        }
    } else if s[0] == '\'' {
        shell_reads(s.skip(1), !quoted)
    } else if s[0] == '\\' && !quoted && s.len() > 1 {
        before(s[1], shell_reads(s.skip(2), false))
    } else {
        before(s[0], shell_reads(s.skip(1), quoted))
    }
}

/// A character before what else was read.
pub open spec fn before(c: char, rest: Option<Seq<char>>) -> Option<Seq<char>> {
    match rest {
        Some(r) => Some(seq![c] + r),
        None => None,
    }
}

proof fn lemma_escaped_reads_back(s: Seq<char>, tail: Seq<char>, read: Seq<char>)
    requires
        shell_reads(tail, true) == Some(read),
    ensures
        shell_reads(escaped(s) + tail, true) == Some(s + read),
    decreases s.len(),
{
    if s.len() == 0 {
        assert(escaped(s) + tail == tail);
        assert(s + read == read);
    } else {
        let c = s.last();
        let start = s.drop_last();
        if c == '\'' {
            let q = seq!['\'', '\\', '\'', '\''];
            let more = q + tail;
            assert(more.skip(1).skip(2) == seq!['\''] + tail);
            assert((seq!['\''] + tail).skip(1) == tail);
            assert(shell_reads(seq!['\''] + tail, false) == Some(read));
            assert(shell_reads(more.skip(1), false) == Some(seq![c] + read));
            assert(shell_reads(more, true) == Some(seq![c] + read));
            lemma_escaped_reads_back(start, more, seq![c] + read);
            assert(escaped(s) + tail == escaped(start) + more);
        } else {
            let more = seq![c] + tail;
            assert(more.skip(1) == tail);
            assert(shell_reads(more, true) == Some(seq![c] + read));
            lemma_escaped_reads_back(start, more, seq![c] + read);
            assert(escaped(s) + tail == escaped(start) + more);
        }
        assert(start + (seq![c] + read) == s + read);
    }
}

/// Whatever a script holds, quotes of its own too, the shell that reads the
/// word it was made into gets the script back whole.
pub proof fn law_a_script_arrives_whole(script: Seq<char>)
    ensures
        word_of(script) == "sh -c "@ + (seq!['\''] + escaped(script) + seq!['\'']),
        shell_reads(seq!['\''] + escaped(script) + seq!['\''], false) == Some(script),
{
    reveal_strlit("sh -c '");
    reveal_strlit("sh -c ");
    reveal_strlit("'");
    assert(word_of(script) =~= "sh -c "@ + (seq!['\''] + escaped(script) + seq!['\'']));
    let close = seq!['\''];
    assert(close.skip(1) == Seq::<char>::empty());
    assert(shell_reads(Seq::empty(), false) == Some(Seq::<char>::empty()));
    assert(close[0] == '\'');
    assert(shell_reads(close, true) == Some(Seq::<char>::empty()));
    lemma_escaped_reads_back(script, close, Seq::empty());
    assert(script + Seq::<char>::empty() == script);
    let word = seq!['\''] + escaped(script) + close;
    assert(word.skip(1) == escaped(script) + close);
}

/// Whatever a Host's overrides are, ssh takes its name as the destination: it
/// is the last argument, right after the `--` that ends the options.
pub proof fn law_the_destination_is_never_an_option(host: HostModel, extra: Seq<(&str, &str)>)
    ensures
        ssh_words(host, extra).len() >= 2,
        ssh_words(host, extra).last() == host.name,
        ssh_words(host, extra)[ssh_words(host, extra).len() - 2] == "--"@,
{
}

/// A Host whose name and user may stand in a host file adds no option of its
/// own making: the only arguments that begin with `-` are rshx's `-o` and the
/// `--` before the destination.
pub proof fn law_a_host_file_adds_no_option_of_its_own(host: HostModel, i: int)
    requires
        is_valid(host),
        0 <= i < ssh_words(host, Seq::empty()).len(),
        ssh_words(host, Seq::empty())[i].len() > 0,
        ssh_words(host, Seq::empty())[i][0] == '-',
    ensures
        ssh_words(host, Seq::empty())[i] == "-o"@ || ssh_words(host, Seq::empty())[i] == "--"@,
{
    law_valid_name_is_a_plain_argument(host.name);
    reveal_strlit("User");
    reveal_strlit("Port");
    reveal_strlit("HostName");
    reveal_strlit("=");
    let none = Seq::<Seq<char>>::empty();
    let user = match host.user {
        Some(user) => option_words("User"@, user),
        None => none,
    };
    let port = match host.port {
        Some(port) => option_words("Port"@, decimal(port as int)),
        None => none,
    };
    let ip = match host.ip {
        Some(ip) => option_words("HostName"@, ip),
        None => none,
    };
    let words = ssh_words(host, Seq::empty());
    assert(words =~= user + port + ip + seq!["--"@, host.name]);
    if i < user.len() {
        assert(words[i] == user[i]);
    } else if i < user.len() + port.len() {
        assert(words[i] == port[i - user.len()]);
    } else if i < user.len() + port.len() + ip.len() {
        assert(words[i] == ip[i - user.len() - port.len()]);
    }
}

/// A Host without overrides adds no options, so its ssh configuration is all
/// there is.
pub proof fn law_a_bare_name_adds_no_options(host: HostModel)
    requires
        host.user is None,
        host.port is None,
        host.ip is None,
    ensures
        ssh_words(host, Seq::empty()) == seq!["--"@, host.name],
{
    let none = Seq::<Seq<char>>::empty();
    assert(none + none + none =~= none);
    assert(ssh_words(host, Seq::empty()) =~= seq!["--"@, host.name]);
}

/// `--privilege` puts one sudo before the whole launcher and changes nothing
/// inside it: the launcher that runs as root is the one that would have run
/// without it.
pub proof fn law_privilege_elevates_the_launcher_alone(marker: Seq<char>, text: Seq<char>)
    ensures
        detached_word(marker, text, false) == word_of(launcher_script(marker, text)),
        detached_word(marker, text, true) == word_of(
            joined(sudo_words(), " "@) + " "@ + word_of(launcher_script(marker, text)),
        ),
{
    let word = word_of(launcher_script(marker, text));
    let words = sudo_words() + seq![word];
    assert(words.drop_last() =~= sudo_words());
    assert(words.last() == word);
}

/// A marker is one path that a shell cannot read anything into: where the
/// Host's name is a valid one, it holds letters, digits, `/`, `.`, `_` and `-`
/// alone.
pub proof fn law_a_marker_is_an_inert_path(token: int, host: Seq<char>)
    requires
        0 <= token,
        name_complaint(host) is None,
    ensures
        forall|i: int|
            0 <= i < marker_path(token, host).len() ==> is_plain(
                #[trigger] marker_path(token, host)[i],
            ) || marker_path(token, host)[i] == '/',
{
    reveal_strlit("/tmp/rshx-");
    reveal_strlit("-");
    reveal_strlit(".pid");
    law_valid_name_is_a_plain_argument(host);
    lemma_digits_shape(token, 16);
    let a = "/tmp/rshx-"@;
    let hex = hexadecimal(token);
    let path = marker_path(token, host);
    assert forall|i: int| 0 <= i < path.len() implies is_plain(#[trigger] path[i]) || path[i]
        == '/' by {
        if i < 10 {
            assert(path[i] == a[i]);
        } else if i < 10 + hex.len() {
            assert(path[i] == hex[i - 10]);
        } else if i == 10 + hex.len() {
            assert(path[i] == "-"@[0]);
        } else if i < 11 + hex.len() + host.len() {
            assert(path[i] == host[i - 11 - hex.len()]);
            assert(is_plain(host[i - 11 - hex.len()]));
        } else {
            assert(path[i] == ".pid"@[i - 11 - hex.len() - host.len()]);
        }
    }
}

/// No two runs and no two Hosts share a marker.
pub proof fn law_markers_tell_runs_and_hosts_apart(
    token: int,
    host: Seq<char>,
    other_token: int,
    other_host: Seq<char>,
)
    requires
        0 <= token,
        0 <= other_token,
        marker_path(token, host) == marker_path(other_token, other_host),
    ensures
        token == other_token,
        host == other_host,
{
    reveal_strlit("/tmp/rshx-");
    reveal_strlit("-");
    reveal_strlit(".pid");
    lemma_digits_shape(token, 16);
    lemma_digits_shape(other_token, 16);
    let p = marker_path(token, host);
    let q = marker_path(other_token, other_host);
    let a = hexadecimal(token);
    let b = hexadecimal(other_token);
    assert forall|i: int| 0 <= i < a.len() implies p[10 + i] == #[trigger] a[i] by {}
    assert forall|i: int| 0 <= i < b.len() implies q[10 + i] == #[trigger] b[i] by {}
    assert(p[10 + a.len() as int] == '-');
    assert(q[10 + b.len() as int] == '-');
    if a.len() < b.len() {
        assert(q[10 + a.len() as int] == b[a.len() as int]);
    }
    if b.len() < a.len() {
        assert(p[10 + b.len() as int] == a[b.len() as int]);
    }
    assert(a =~= b) by {
        assert forall|i: int| 0 <= i < a.len() implies a[i] == b[i] by {
            assert(p[10 + i] == a[i]);
            assert(q[10 + i] == b[i]);
        }
    }
    lemma_digits_tell_apart(token, other_token, 16);
    assert(p.len() == 15 + a.len() + host.len());
    assert(q.len() == 15 + b.len() + other_host.len());
    assert(host =~= other_host) by {
        assert forall|i: int| 0 <= i < host.len() implies host[i] == other_host[i] by {
            assert(p[11 + a.len() + i] == host[i]);
            assert(q[11 + a.len() + i] == other_host[i]);
        }
    }
}

/// The stop script is one word as it stands: no quote inside it could close
/// the quotes around it.
pub proof fn law_the_stop_script_is_one_word()
    ensures
        forall|i: int| 0 <= i < STOP@.len() ==> #[trigger] STOP@[i] != '\'',
{
    reveal_strlit(
        r#"p=$(cat "$0" 2>/dev/null) || exit 0
rm -f -- "$0"
[ -n "$p" ] || exit 0
case $p in *[!0-9]*) exit 0;; esac
list=$(ps -A -o pid=,ppid= 2>/dev/null | awk -v root="$p" "{ par[\$1] = \$2 }
END {
    want[root] = 1; out = root
    do {
        n = 0
        for (pid in par) if (!(pid in want) && (par[pid] in want)) { want[pid] = 1; out = out OFS pid; n++ }
    } while (n)
    print out
}")
[ -n "$list" ] || list=$p
kill -TERM $list 2>/dev/null
sleep 1
kill -KILL $list 2>/dev/null
exit 0
"#,
    );
}

/// Whether `-o` and this setting stand together among the options, before the
/// `--` that ends them.
pub open spec fn has_option(words: Seq<Seq<char>>, name: Seq<char>, value: Seq<char>) -> bool {
    exists|i: int|
        0 <= i && 2 * i + 1 < words.len() - 2 && words[2 * i] == "-o"@ && #[trigger] words[2 * i + 1]
            == name + "="@ + value
}

/// Each override of a Host reaches ssh as an option of its own, whatever the
/// others are, and ssh is given no other option of that name.
#[verifier::spinoff_prover]
#[verifier::rlimit(40)]
pub proof fn law_each_override_reaches_ssh(host: HostModel, value: Seq<char>)
    ensures
        has_option(ssh_words(host, Seq::empty()), "User"@, value) <==> host.user == Some(value),
        has_option(ssh_words(host, Seq::empty()), "Port"@, value) <==> host.port is Some && value
            == decimal(host.port->Some_0 as int),
        has_option(ssh_words(host, Seq::empty()), "HostName"@, value) <==> host.ip == Some(value),
        ssh_words(host, Seq::empty()).len() == 2 + 2 * ((if host.user is Some {
            1int
        } else {
            0
        }) + (if host.port is Some {
            1int
        } else {
            0
        }) + (if host.ip is Some {
            1int
        } else {
            0
        })),
{
    let words = ssh_words(host, Seq::empty());
    let none = Seq::<Seq<char>>::empty();
    reveal_strlit("User");
    reveal_strlit("Port");
    reveal_strlit("HostName");
    reveal_strlit("=");
    let user = match host.user {
        Some(user) => option_words("User"@, user),
        None => none,
    };
    let port = match host.port {
        Some(port) => option_words("Port"@, decimal(port as int)),
        None => none,
    };
    let ip = match host.ip {
        Some(ip) => option_words("HostName"@, ip),
        None => none,
    };
    assert(words =~= user + port + ip + seq!["--"@, host.name]);
    let u = (user.len() / 2) as int;
    let p = (port.len() / 2) as int;
    if let Some(user) = host.user {
        assert(words[2 * 0int + 1] == "User"@ + "="@ + user);
    }
    if let Some(port) = host.port {
        assert(words[2 * u + 1] == "Port"@ + "="@ + decimal(port as int));
    }
    if let Some(ip) = host.ip {
        assert(words[2 * (u + p) + 1] == "HostName"@ + "="@ + ip);
    }
    assert forall|i: int| 0 <= i && 2 * i + 1 < words.len() - 2 implies {
        let w = #[trigger] words[2 * i + 1];
        ||| host.user is Some && i == 0 && w == "User"@ + "="@ + host.user->Some_0
        ||| host.port is Some && i == u && w == "Port"@ + "="@ + decimal(host.port->Some_0 as int)
        ||| host.ip is Some && i == u + p && w == "HostName"@ + "="@ + host.ip->Some_0
    } by {}
    if has_option(words, "User"@, value) {
        let i = choose|i: int|
            0 <= i && 2 * i + 1 < words.len() - 2 && words[2 * i] == "-o"@ && #[trigger] words[2 * i
                + 1] == "User"@ + "="@ + value;
        assert(words[2 * i + 1][0] == 'U');
        assert((words[2 * i + 1]).skip(5) =~= value);
        assert(("User"@ + "="@ + host.user->Some_0).skip(5) =~= host.user->Some_0);
    }
    if has_option(words, "Port"@, value) {
        let i = choose|i: int|
            0 <= i && 2 * i + 1 < words.len() - 2 && words[2 * i] == "-o"@ && #[trigger] words[2 * i
                + 1] == "Port"@ + "="@ + value;
        assert(words[2 * i + 1][0] == 'P');
        assert((words[2 * i + 1]).skip(5) =~= value);
        let number = decimal(host.port->Some_0 as int);
        assert(("Port"@ + "="@ + number).skip(5) =~= number);
    }
    if has_option(words, "HostName"@, value) {
        let i = choose|i: int|
            0 <= i && 2 * i + 1 < words.len() - 2 && words[2 * i] == "-o"@ && #[trigger] words[2 * i
                + 1] == "HostName"@ + "="@ + value;
        assert(words[2 * i + 1][0] == 'H');
        assert((words[2 * i + 1]).skip(9) =~= value);
        assert(("HostName"@ + "="@ + host.ip->Some_0).skip(9) =~= host.ip->Some_0);
    }
}

/// Options of rshx's own come after a Host's overrides, each one, in order, and
/// change nothing else.
pub proof fn law_options_of_rshx_come_after_a_hosts_own(
    host: HostModel,
    extra: Seq<(&str, &str)>,
    i: int,
)
    ensures
        ({
            let own = ssh_words(host, Seq::empty());
            let words = ssh_words(host, extra);
            let n = own.len() - 2;
            &&& words.len() == own.len() + 2 * extra.len()
            &&& words.take(n) == own.take(n)
            &&& words.skip(words.len() - 2) == seq!["--"@, host.name]
            &&& 0 <= i < extra.len() ==> words[n + 2 * i] == "-o"@ && words[n + 2 * i + 1]
                == extra[i].0@ + "="@ + extra[i].1@
        }),
{
    let own = ssh_words(host, Seq::empty());
    let words = ssh_words(host, extra);
    let n = own.len() - 2;
    lemma_extra_words(extra, i);
    lemma_extra_words(Seq::empty(), i);
    assert(own =~= override_words(host) + seq!["--"@, host.name]);
    assert(words.take(n) =~= own.take(n));
    assert(words.skip(words.len() - 2) =~= seq!["--"@, host.name]);
    if 0 <= i < extra.len() {
        assert(words[n + 2 * i] == extra_words(extra)[2 * i]);
        assert(words[n + 2 * i + 1] == extra_words(extra)[2 * i + 1]);
    }
}

proof fn lemma_extra_words(extra: Seq<(&str, &str)>, i: int)
    ensures
        extra_words(extra).len() == 2 * extra.len(),
        0 <= i < extra.len() ==> extra_words(extra)[2 * i] == "-o"@ && extra_words(extra)[2 * i + 1]
            == extra[i].0@ + "="@ + extra[i].1@,
    decreases extra.len(),
{
    if extra.len() > 0 {
        lemma_extra_words(extra.drop_last(), i);
    }
}

/// A marked command is one word after `sh -c`. The shell that reads it writes
/// its own pid to the marker, runs the command as it was typed, removes the
/// marker, and ends as the command ended.
pub proof fn law_a_marked_command_runs_as_typed(marker: Seq<char>, text: Seq<char>)
    ensures
        ({
            let word = word_of(marked_script(marker, text));
            &&& word.take(6) == "sh -c "@
            &&& shell_reads(word.skip(6), false) == Some(
                "m="@ + marker + "; echo $$ > \"$m\" 2>/dev/null; "@ + "( "@ + text + " )"@
                    + "; rc=$?; rm -f -- \"$m\"; exit $rc"@,
            )
        }),
{
    let script = marked_script(marker, text);
    law_a_word_is_read_back(script);
    reveal_strlit("; echo $$ > \"$m\" 2>/dev/null; ( ");
    reveal_strlit("; echo $$ > \"$m\" 2>/dev/null; ");
    reveal_strlit("( ");
    reveal_strlit(" ); rc=$?; rm -f -- \"$m\"; exit $rc");
    reveal_strlit(" )");
    reveal_strlit("; rc=$?; rm -f -- \"$m\"; exit $rc");
    assert(script =~= "m="@ + marker + "; echo $$ > \"$m\" 2>/dev/null; "@ + "( "@ + text + " )"@
        + "; rc=$?; rm -f -- \"$m\"; exit $rc"@);
}

/// Whatever a script holds, the shell is handed `sh -c` and one word, and reads
/// the script in it.
pub proof fn law_a_word_is_read_back(script: Seq<char>)
    ensures
        word_of(script) == "sh -c "@ + word_of(script).skip(6),
        word_of(script).take(6) == "sh -c "@,
        shell_reads(word_of(script).skip(6), false) == Some(script),
{
    law_a_script_arrives_whole(script);
    reveal_strlit("sh -c ");
    let rest = seq!['\''] + escaped(script) + seq!['\''];
    assert(word_of(script).take(6) =~= "sh -c "@);
    assert(word_of(script).skip(6) =~= rest);
}

/// A detached command is started in the background, away from the connection,
/// and the pid of the shell that runs it is printed. That shell writes its pid
/// to the marker, runs the command as it was typed, and removes the marker. Under
/// privilege one sudo stands before all of it.
pub proof fn law_a_detached_command_runs_as_typed(marker: Seq<char>, text: Seq<char>) -> (words: (
    Seq<char>,
    Seq<char>,
))
    ensures
        detached_word(marker, text, false).take(6) == "sh -c "@,
        detached_word(marker, text, true).take(6) == "sh -c "@,
        shell_reads(detached_word(marker, text, false).skip(6), false) == Some(
            "nohup sh -c "@ + words.0 + " >/dev/null 2>&1 </dev/null & echo $!"@,
        ),
        shell_reads(words.0, false) == Some(
            "echo $$ > \""@ + marker + "\" 2>/dev/null; "@ + "( "@ + text + " )"@
                + "; rc=$?; rm -f -- \""@ + marker + "\"; exit $rc"@,
        ),
        shell_reads(detached_word(marker, text, true).skip(6), false) == Some(
            "sudo -S -p rshx-password: sh -c "@ + words.1,
        ),
        shell_reads(words.1, false) == Some(
            "nohup sh -c "@ + words.0 + " >/dev/null 2>&1 </dev/null & echo $!"@,
        ),
{
    let payload = payload_script(marker, text);
    let launcher = launcher_script(marker, text);
    law_a_word_is_read_back(payload);
    law_a_word_is_read_back(launcher);
    let inner = word_of(payload).skip(6);
    let outer = word_of(launcher).skip(6);
    reveal_strlit("\" 2>/dev/null; ( ");
    reveal_strlit("\" 2>/dev/null; ");
    reveal_strlit("( ");
    reveal_strlit(" ); rc=$?; rm -f -- \"");
    reveal_strlit(" )");
    reveal_strlit("; rc=$?; rm -f -- \"");
    assert(payload =~= "echo $$ > \""@ + marker + "\" 2>/dev/null; "@ + "( "@ + text + " )"@
        + "; rc=$?; rm -f -- \""@ + marker + "\"; exit $rc"@);
    reveal_strlit("nohup ");
    reveal_strlit("sh -c ");
    reveal_strlit("nohup sh -c ");
    assert(launcher =~= "nohup sh -c "@ + inner + " >/dev/null 2>&1 </dev/null & echo $!"@);
    law_privilege_elevates_the_launcher_alone(marker, text);
    let line = joined(sudo_words(), " "@) + " "@ + word_of(launcher);
    law_a_word_is_read_back(line);
    law_a_sudo_is_one_line();
    let sudo = "sudo -S -p rshx-password:"@ + " "@ + "sh -c "@;
    assert(sudo =~= "sudo -S -p rshx-password: sh -c "@) by {
        reveal_strlit("sudo -S -p rshx-password:");
        reveal_strlit(" ");
        reveal_strlit("sudo -S -p rshx-password: sh -c ");
    }
    assert(line =~= sudo + outer);
    (inner, outer)
}

/// A Host stops its own command with the stop script, handed to `sh -c` whole
/// and told the marker. Under privilege a sudo that cannot prompt stands before
/// it: one that is written the password rshx has, or one that wants none.
pub proof fn law_a_stop_is_handed_its_marker(marker: Seq<char>)
    ensures
        stop_words(marker, false, true) == stop_words(marker, false, false),
        stop_words(marker, false, false).len() == 4,
        stop_words(marker, false, false)[0] == "sh"@,
        stop_words(marker, false, false)[1] == "-c"@,
        shell_reads(stop_words(marker, false, false)[2], false) == Some(STOP@),
        stop_words(marker, false, false)[3] == marker,
        stop_words(marker, true, true) == seq!["sudo"@, "-S"@, "-p"@, ""@, "--"@] + stop_words(
            marker,
            false,
            false,
        ),
        stop_words(marker, true, false) == seq!["sudo"@, "-n"@, "--"@] + stop_words(
            marker,
            false,
            false,
        ),
{
    law_the_stop_script_is_one_word();
    reveal_strlit("'");
    assert("'"@ =~= seq!['\'']);
    let word = stop_words(marker, false, false)[2];
    lemma_plain_stretch(STOP@);
    assert(word =~= seq!['\''] + STOP@ + seq!['\'']);
}

proof fn lemma_plain_stretch(s: Seq<char>)
    requires
        forall|i: int| 0 <= i < s.len() ==> #[trigger] s[i] != '\'',
    ensures
        shell_reads(seq!['\''] + s + seq!['\''], false) == Some(s),
{
    let close = seq!['\''];
    lemma_plain_is_escaped(s);
    law_a_script_arrives_whole(s);
}

proof fn lemma_plain_is_escaped(s: Seq<char>)
    requires
        forall|i: int| 0 <= i < s.len() ==> #[trigger] s[i] != '\'',
    ensures
        escaped(s) == s,
    decreases s.len(),
{
    if s.len() > 0 {
        let t = s.drop_last();
        assert forall|i: int| 0 <= i < t.len() implies #[trigger] t[i] != '\'' by {
            assert(t[i] == s[i]);
        }
        lemma_plain_is_escaped(t);
        assert(s[s.len() - 1] != '\'');
        assert(t.push(s.last()) =~= s);
    } else {
        assert(escaped(s) =~= s);
    }
}

/// A stop worked exactly when its connection ended in time with a zero status.
/// Where it did not, the reason is the time, the unreadable status, or what ssh
/// said, without the white space around it; an ssh that said nothing is named by
/// its status.
pub proof fn law_a_stop_that_failed_says_why(
    waited: Waited,
    code: i32,
    stderr: Seq<char>,
    blank: Seq<char>,
)
    requires
        forall|i: int| 0 <= i < blank.len() ==> is_white(#[trigger] blank[i]),
    ensures
        stop_verdict(true, waited, stderr) == Err::<(), Seq<char>>(
            "the stop connection did not finish in time"@,
        ),
        stop_verdict(false, waited, stderr) is Ok <==> waited == Waited::Ended(Some(0i32)),
        waited is Lost ==> stop_verdict(false, waited, stderr) == Err::<(), Seq<char>>(
            "could not read the stop connection's status: "@ + waited->Lost_0@,
        ),
        waited is Ended && waited->Ended_0 != Some(0i32) && stderr.len() > 0 && !is_white(stderr[0])
            && !is_white(stderr.last()) ==> stop_verdict(false, waited, blank + stderr + blank)
            == Err::<(), Seq<char>>(stderr),
        code != 0 ==> stop_verdict(false, Waited::Ended(Some(code)), blank) == Err::<
            (),
            Seq<char>,
        >("ssh exited with status "@ + signed(code as int)),
        stop_verdict(false, Waited::Ended(None), blank) == Err::<(), Seq<char>>(
            "the connection was killed"@,
        ),
{
    let none = Seq::<char>::empty();
    law_trimming_takes_the_white_space_around(blank, none, none);
    assert(blank + none + none =~= blank);
    if stderr.len() > 0 && !is_white(stderr[0]) && !is_white(stderr.last()) {
        law_trimming_takes_the_white_space_around(blank, stderr, blank);
    }
}

/// A marker is a file of rshx's own under `/tmp`, named by the run and by the
/// Host.
pub proof fn law_a_marker_is_named_by_its_run_and_host(token: int, host: Seq<char>)
    requires
        0 <= token,
    ensures
        "/tmp/rshx-"@.is_prefix_of(marker_path(token, host)),
        ("-"@ + host + ".pid"@).is_suffix_of(marker_path(token, host)),
        marker_path(token, host).subrange(
            10,
            marker_path(token, host).len() - host.len() - 5,
        ) == hexadecimal(token),
{
    reveal_strlit("/tmp/rshx-");
    reveal_strlit("-");
    reveal_strlit(".pid");
    let path = marker_path(token, host);
    let end = "-"@ + host + ".pid"@;
    assert(path.take(10) =~= "/tmp/rshx-"@);
    assert(path.skip(path.len() - end.len()) =~= end);
    assert(path.subrange(10, path.len() - host.len() - 5) =~= hexadecimal(token));
}

/// A stop has three seconds, and what it says is kept up to eight kibibytes.
pub proof fn law_a_stop_has_three_seconds()
    ensures
        STOP_LIMIT == 3 * 1_000_000_000,
        STOP_STDERR_CAP == 8 * 1024,
{
}

} // verus!
