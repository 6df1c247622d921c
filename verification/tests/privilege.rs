//! `--privilege`: running the command under a remote sudo, and answering the
//! password prompt when one Host asks for it.

use rshx::cli::{CliCommand, CliRunArgs};
use rshx::interrupt::{Action, Bounded};
use rshx::privilege::{
    ask_text, no_terminal, runs_sudo, under_sudo, under_sudo_unprompted, Answer, Filtered, Keyed,
    Line, MarkerFilter, Privilege, PromptClock, Typed, MARKER,
};
use rshx::remote::Waited;
use rshx::report::{ColorWhen, Detail, Format, Report, Reporter};
use rshx::run::prompt::{password_line, serve, Asking, StderrReader};
use rshx::run::ssh::{judge, Settled};
use rshx::run::stream::CAP;
use rshx::run::{exit_code, plan, Plan, Run, Status};
use rshx::EXIT_LOCAL;

const SECOND: u128 = 1_000_000_000;
const MS: u128 = 1_000_000;

fn argv(words: &[&str]) -> Vec<String> {
    words.iter().map(|word| word.to_string()).collect()
}

fn run_command(words: &[&str]) -> CliCommand {
    CliCommand::Run(CliRunArgs {
        script: None,
        command: argv(words),
        detach: false,
    })
}

/// The command a run hands its Hosts, and whether rshx warns about it.
fn planned(words: &[&str], privilege: bool) -> (Vec<String>, Option<&'static str>) {
    match plan(&run_command(words), privilege) {
        Plan::Command { words, warning, .. } => (words, warning),
        _ => panic!("a command"),
    }
}

/// One Host asks: the password it is given, typed or already there.
fn ask(passwords: &mut Privilege, host: &str, unique: bool, typed: &mut Vec<&str>) -> Vec<u8> {
    if let Some(password) = passwords.untried(host, unique) {
        return password;
    }
    let line = typed.remove(0).as_bytes().to_vec();
    match passwords.ask(host, unique, Typed::Password(line)) {
        Answer::Password(password) => password,
        _ => panic!("a password was typed"),
    }
}

#[test]
fn the_command_runs_under_a_sudo_that_reads_stdin() {
    assert_eq!(
        under_sudo(&argv(&["systemctl", "restart", "kubelet"])),
        argv(&[
            "sudo",
            "-S",
            "-p",
            MARKER,
            "systemctl",
            "restart",
            "kubelet"
        ])
    );
}

#[test]
fn a_command_that_runs_sudo_is_wrapped_like_any_other() {
    // No option of the command's is read, moved or dropped: it is wrapped
    // whole, so its own `-p` and `-u` still mean what they say, one
    // elevation further in.
    for command in [
        argv(&["sudo", "-u", "postgres", "psql"]),
        argv(&["sudo", "-p", "Password: ", "uptime"]),
        argv(&["sudo", "-A", "uptime"]),
        argv(&["sudo", "--", "true"]),
    ] {
        let mut expected = argv(&["sudo", "-S", "-p", MARKER]);
        expected.extend(command.iter().cloned());
        assert_eq!(under_sudo(&command), expected, "{command:?}");
    }
}

#[test]
fn a_command_that_runs_sudo_is_noticed() {
    // What the warning is built on: sudo, or a path to it, as the command
    // word.
    for command in [
        argv(&["sudo", "uptime"]),
        argv(&["/usr/bin/sudo", "uptime"]),
    ] {
        assert!(runs_sudo(&command), "{command:?}");
    }
    for command in [
        argv(&["uptime"]),
        argv(&["systemctl", "restart", "sudo"]),
        argv(&["sh", "-c", "sudo uptime"]),
    ] {
        assert!(!runs_sudo(&command), "{command:?}");
    }
}

#[test]
fn a_path_to_sudo_is_read_as_a_path() {
    for word in ["./sudo", "sudo/", "sudo//", "/usr/bin/sudo/.", "a//sudo"] {
        assert!(runs_sudo(&argv(&[word])), "{word}");
    }
    for word in ["", "/", ".", "sudo/..", "sudoedit", "sudo/x", "-sudo"] {
        assert!(!runs_sudo(&argv(&[word])), "{word}");
    }
    assert!(!runs_sudo(&[]));
}

fn filtered(chunks: &[&[u8]]) -> (Vec<u8>, Filtered) {
    let mut filter = MarkerFilter::default();
    let mut kept = Vec::new();
    let mut asked = false;
    let mut dropped = false;
    for chunk in chunks {
        let filtered = filter.push(chunk, &mut kept, 1 << 20);
        asked |= filtered.asked;
        dropped |= filtered.dropped;
    }
    dropped |= filter.finish(&mut kept, 1 << 20);
    (kept, Filtered { asked, dropped })
}

#[test]
fn the_marker_is_stripped_and_every_one_is_an_ask() {
    let (kept, filtered) = filtered(&[b"rshx-password:Sorry, try again.\nrshx-password:\n"]);
    assert_eq!(kept, b"Sorry, try again.\n\n");
    assert!(filtered.asked);
}

#[test]
fn a_marker_split_across_reads_is_still_one_ask() {
    // sudo writes the prompt in one go, but nothing promises the read
    // returns it in one go.
    let (kept, filtered) = filtered(&[b"rshx-", b"pass", b"word:x"]);
    assert_eq!(kept, b"x");
    assert!(filtered.asked);
}

#[test]
fn text_that_only_looks_like_a_marker_is_kept() {
    let (kept, filtered) = filtered(&[b"rshx-passthrough", b" and rshx"]);
    assert_eq!(kept, b"rshx-passthrough and rshx");
    assert!(!filtered.asked);
}

#[test]
fn a_stream_past_the_cap_is_reported_as_dropped() {
    let mut filter = MarkerFilter::default();
    let mut kept = Vec::new();
    let filtered = filter.push(&vec![b'x'; 4096], &mut kept, 16);
    assert!(filtered.dropped);
    assert_eq!(kept.len(), 16);
}

#[test]
fn every_way_of_cutting_a_stream_gives_the_same() {
    let stream = b"arshx-rshx-password:b rshx-passwordrshx-password:rshx-p";
    let whole = filtered(&[stream]);
    assert_eq!(whole.0, b"arshx-b rshx-passwordrshx-p");
    assert!(whole.1.asked);
    for at in 0..=stream.len() {
        for second in at..=stream.len() {
            let cut = filtered(&[&stream[..at], &stream[at..second], &stream[second..]]);
            assert_eq!(cut.0, whole.0, "{at} {second}");
            assert_eq!(cut.1.asked, whole.1.asked, "{at} {second}");
        }
    }
    // Twenty-seven bytes are left without the markers.
    for (cap, dropped) in [(0, true), (20, true), (26, true), (27, false), (64, false)] {
        for at in 0..=stream.len() {
            let mut filter = MarkerFilter::default();
            let mut kept = Vec::new();
            let first = filter.push(&stream[..at], &mut kept, cap).dropped;
            let second = filter.push(&stream[at..], &mut kept, cap).dropped;
            let held = filter.finish(&mut kept, cap);
            assert_eq!(first || second || held, dropped, "{cap} {at}");
            assert_eq!(kept, &whole.0[..cap.min(whole.0.len())], "{cap} {at}");
        }
    }
}

#[test]
fn a_held_tail_past_the_cap_is_dropped_at_the_end() {
    let mut filter = MarkerFilter::default();
    let mut kept = Vec::new();
    let first = filter.push(b"abrshx", &mut kept, 3);
    assert!(!first.dropped);
    assert_eq!(kept, b"ab");
    assert!(filter.finish(&mut kept, 3));
    assert_eq!(kept, b"abr");
}

#[test]
fn the_command_is_rewritten_to_run_under_sudo() {
    let (command, _) = planned(&["du", "-hs", "/data"], true);
    assert_eq!(
        command,
        argv(&["sudo", "-S", "-p", MARKER, "du", "-hs", "/data"]),
        "the command is run under a sudo that reads stdin and says so with rshx's prompt"
    );
    // The heading names what actually runs, not what was typed.
    let reporter = Reporter::new(ColorWhen::Auto, Detail::default(), Format::Plain, true);
    let shown = reporter.heading(&command, 3, 32).unwrap();
    assert!(
        shown.contains("sudo -S -p rshx-password: du -hs /data"),
        "the heading shows the rewritten command: {shown:?}"
    );
}

#[test]
fn a_command_that_already_runs_sudo_is_wrapped_and_said_so() {
    let (command, warning) = planned(
        &["sudo", "-u", "postgres", "psql", "-c", "select 1"],
        true,
    );
    assert_eq!(
        command,
        argv(&[
            "sudo", "-S", "-p", MARKER, "sudo", "-u", "postgres", "psql", "-c", "select 1"
        ]),
        "the command's own sudo keeps every one of its options"
    );
    // Said out loud, because the second elevation is not what was asked for.
    assert!(
        warning.unwrap().contains("runs sudo itself"),
        "the nesting is warned about: {warning:?}"
    );
}

#[test]
fn the_warning_is_coloured_when_colour_is_asked_for() {
    let reporter = Reporter::new(ColorWhen::Always, Detail::default(), Format::Plain, false);
    assert_eq!(
        reporter.warning("m"),
        "rshx: \u{1b}[1m\u{1b}[33mwarning:\u{1b}[0m m\n"
    );
    assert_eq!(
        anstream::adapter::strip_str(&reporter.warning("m")).to_string(),
        "rshx: warning: m\n"
    );
}

#[test]
fn a_command_that_does_not_run_sudo_is_not_warned_about() {
    let (_, warning) = planned(&["uptime"], true);
    assert_eq!(
        warning, None,
        "nothing is worth saying about a plain command"
    );
}

#[test]
fn the_password_is_asked_for_once_and_shared_by_every_host() {
    let mut passwords = Privilege::default();
    let mut typed = vec!["hunter2"];
    for host in ["node01", "node02", "node03"] {
        assert_eq!(
            ask(&mut passwords, host, false, &mut typed),
            b"hunter2",
            "every Host that asked was answered"
        );
    }
    assert!(
        typed.is_empty(),
        "one prompt for the whole run, however many Hosts ask"
    );
}

#[test]
fn a_host_that_needs_no_password_is_never_asked_about() {
    let mut quiet = StderrReader::default();
    assert!(!quiet.read(b"done\n", 1 << 20));
    let mut asking = StderrReader::default();
    assert!(asking.read(b"rshx-password:", 1 << 20));
    assert_eq!(
        asking.end(1 << 20),
        (Vec::new(), false),
        "only the Host that asked was written to"
    );
}

#[test]
fn a_unique_host_is_asked_for_its_own_password() {
    let mut passwords = Privilege::default();
    let mut typed = vec!["alpha", "beta"];
    assert_eq!(ask_text("node01"), "privilege password for node01: ");
    assert_eq!(ask(&mut passwords, "node01", true, &mut typed), b"alpha");
    assert_eq!(
        ask(&mut passwords, "node02", false, &mut typed),
        b"beta",
        "a Host with a password of its own is asked, not given the run's"
    );
    assert!(typed.is_empty());
    assert_eq!(passwords.password_for("node01", true).unwrap(), b"alpha");
    assert_eq!(passwords.password_for("node02", false).unwrap(), b"beta");
    assert_eq!(passwords.password_for("node02", true), None);
}

#[test]
fn a_rejected_password_is_asked_for_again() {
    let mut passwords = Privilege::default();
    let mut typed = vec!["wrong", "right"];
    let mut reader = StderrReader::default();
    let mut written = Vec::new();
    for read in [
        &b"rshx-password:"[..],
        &b"Sorry, try again.\nrshx-password:"[..],
    ] {
        assert!(reader.read(read, 1 << 20));
        written.push(ask(&mut passwords, "node01", false, &mut typed));
        reader.answered(true);
    }
    assert_eq!(
        written,
        [&b"wrong"[..], &b"right"[..]],
        "each prompt was answered with what was typed for it"
    );
    let (kept, _) = reader.end(1 << 20);
    assert_eq!(
        kept, b"Sorry, try again.\n",
        "sudo's own retry text is part of the Host's output, the marker is not"
    );
}

#[test]
fn a_password_that_never_matches_fails_the_host() {
    let mut passwords = Privilege::default();
    let mut typed = vec!["wrong", "wrong", "wrong"];
    let mut reader = StderrReader::default();
    for read in [
        &b"rshx-password:"[..],
        &b"Sorry, try again.\nrshx-pass"[..],
        &b"word:"[..],
        &b"Sorry, try again.\nrshx-password:"[..],
    ] {
        if reader.read(read, CAP) {
            assert_eq!(
                ask(&mut passwords, "node01", false, &mut typed),
                b"wrong",
                "each of sudo's tries was answered"
            );
            reader.answered(true);
        }
    }
    assert!(typed.is_empty(), "each try is asked for again");
    assert!(!reader.read(b"Sorry, try again.\nsudo: 3 incorrect password attempts\n", CAP));

    let (stderr, stderr_truncated) = reader.end(CAP);
    let outcome = judge(
        "node01",
        Settled {
            waited: Waited::Ended(Some(1)),
            timed_out: false,
            killed: false,
            stdout: Vec::new(),
            stderr,
            stdout_truncated: false,
            stderr_truncated,
            duration: 10 * MS,
        },
    );
    assert_eq!(outcome.status, Status::Failed);
    let reporter = Reporter::new(ColorWhen::Never, Detail::default(), Format::Plain, false);
    let text = match reporter.outcome(&outcome, "0.01") {
        Report::Text(text) => text,
        Report::Json(_) => panic!("plain"),
    };
    assert!(
        text.contains("sudo: 3 incorrect password attempts\n"),
        "{text:?}"
    );
    assert!(
        !text.contains(MARKER),
        "every prompt sudo printed was stripped: {text:?}"
    );
    assert_eq!(exit_code(&[outcome]), 2);
}

#[test]
fn a_new_shared_password_goes_to_every_host_still_waiting() {
    let mut passwords = Privilege::default();
    let mut typed = vec!["old", "new"];
    assert_eq!(ask(&mut passwords, "a", false, &mut typed), b"old");
    assert_eq!(ask(&mut passwords, "b", false, &mut typed), b"old");
    assert_eq!(ask(&mut passwords, "a", false, &mut typed), b"new");
    assert_eq!(ask(&mut passwords, "b", false, &mut typed), b"new");
    assert_eq!(ask(&mut passwords, "c", false, &mut typed), b"new");
    assert_eq!(passwords.untried("c", false), None);
}

/// The run's exit code once a Host was served with this.
fn stopped_by(typed: Typed) -> (Run, Option<Vec<u8>>) {
    let mut passwords = Privilege::default();
    let mut run = Run::new(3, 32, true);
    assert!(run.request(false));
    let answer = passwords.ask("node01", false, typed);
    let (password, asking) = serve(answer, passwords.fatal());
    run.served(asking);
    (run, password)
}

#[test]
fn an_empty_password_stops_the_run() {
    let (run, password) = stopped_by(Typed::Empty);
    assert_eq!(run.exit(), EXIT_LOCAL, "a local failure");
    assert_eq!(
        run.fatal_line().unwrap(),
        "rshx: the password was empty; nothing was attempted\n"
    );
    assert_eq!(
        password, None,
        "an empty password is never written to a Host"
    );
    assert!(!run.asking);
}

#[test]
fn with_no_terminal_a_password_cannot_be_asked_for() {
    let (run, password) = stopped_by(no_terminal("No such device or address (os error 6)"));
    assert_eq!(run.exit(), EXIT_LOCAL, "a local failure");
    let line = run.fatal_line().unwrap();
    assert!(
        line.contains("terminal"),
        "the reason names what was missing: {line:?}"
    );
    assert_eq!(
        line,
        "rshx: --privilege needs a terminal to ask for a password: \
         /dev/tty: No such device or address (os error 6)\n"
    );
    assert_eq!(
        password, None,
        "nothing is written when there was nobody to ask"
    );
}

#[test]
fn ctrl_c_at_the_prompt_is_not_a_failure_of_its_own() {
    let (run, password) = stopped_by(Typed::Interrupted);
    assert_eq!(run.fatal_line(), None);
    assert_eq!(run.exit(), 0);
    assert_eq!(password, None);
    assert!(!run.asking);
}

#[test]
fn a_prompt_that_broke_is_the_runs_failure() {
    let mut passwords = Privilege::default();
    assert!(matches!(passwords.could_not_ask("gone"), Answer::Refused));
    assert_eq!(
        passwords.fatal().unwrap(),
        "could not ask for a password: gone"
    );
    // The first failure is the one worth reporting.
    passwords.fail("later");
    assert_eq!(
        passwords.fatal().unwrap(),
        "could not ask for a password: gone"
    );
}

#[test]
fn a_prompt_is_not_the_hosts_time() {
    // Every Host waits on a prompt of 1200ms under a limit of a second, and
    // takes 700ms of its own.
    let mut clock = PromptClock::default();
    let mut wait = Bounded::new(Some(SECOND), 7, 0, clock.spent_by("node01", 0));
    clock.asking_now("node01", 100 * MS);
    assert_eq!(
        wait.next(
            1100 * MS,
            clock.asking("node01"),
            clock.spent_by("node01", 1100 * MS)
        ),
        Action::AwaitAnswer
    );
    clock.answered("node01", 1300 * MS);
    assert_eq!(
        wait.next(
            1300 * MS,
            clock.asking("node01"),
            clock.spent_by("node01", 1300 * MS)
        ),
        Action::AwaitChildFor(900 * MS),
        "waiting for a password is not the Host taking too long"
    );
    assert!(!wait.timed_out());
}

#[test]
fn another_hosts_prompt_is_not_this_hosts_time() {
    let mut clock = PromptClock::default();
    clock.asking_now("node01", 0);
    let now = 1000 * MS;
    let mut node02 = Bounded::new(Some(SECOND), 9, 0, clock.spent_by("node02", 0));
    assert_eq!(
        node02.next(now, clock.asking("node02"), clock.spent_by("node02", now)),
        Action::Terminate(Some(9)),
        "node02 timed out on its own time"
    );
    assert!(node02.timed_out());
    let mut node01 = Bounded::new(Some(SECOND), 8, 0, 0);
    assert_eq!(
        node01.next(now, clock.asking("node01"), clock.spent_by("node01", now)),
        Action::AwaitAnswer
    );
}

#[test]
fn a_wait_before_the_start_is_no_credit() {
    let mut clock = PromptClock::default();
    clock.asking_now("n", 0);
    clock.answered("n", 500 * MS);
    assert_eq!(clock.spent_by("n", 900 * MS), 500 * MS);
    let mut wait = Bounded::new(Some(SECOND), 1, 600 * MS, clock.spent_by("n", 600 * MS));
    assert_eq!(
        wait.next(1100 * MS, false, clock.spent_by("n", 1100 * MS)),
        Action::AwaitChildFor(500 * MS)
    );
}

#[test]
fn without_privilege_the_command_and_the_stdin_are_untouched() {
    let (command, warning) = planned(&["uptime"], false);
    assert_eq!(
        command,
        argv(&["uptime"]),
        "the command is forwarded verbatim"
    );
    assert_eq!(warning, None);
    assert!(!Run::new(3, 32, false).asking);
}

#[test]
fn a_password_is_written_as_a_line() {
    assert_eq!(password_line(b"hunter2"), b"hunter2\n");
}

#[test]
fn a_sudo_that_may_not_prompt_prompts_for_nothing() {
    assert_eq!(
        under_sudo_unprompted(&argv(&["true"]), true),
        argv(&["sudo", "-S", "-p", "", "--", "true"])
    );
    assert_eq!(
        under_sudo_unprompted(&argv(&["true"]), false),
        argv(&["sudo", "-n", "--", "true"])
    );
}

/// Types these keys, and says what the line came to.
fn typed(keys: &[u8]) -> Typed {
    let mut line = Line::new();
    for key in keys {
        if let Keyed::Done(typed) = line.key(*key) {
            return typed;
        }
    }
    line.end()
}

#[test]
fn a_line_is_edited_a_key_at_a_time() {
    for (keys, expected) in [
        (&b"hunter2\n"[..], &b"hunter2"[..]),
        (&b"hunter2\r"[..], &b"hunter2"[..]),
        (&b"hunter2\x04more"[..], &b"hunter2"[..]),
        (&b"huz\x7fnter3\x082\n"[..], &b"hunter2"[..]),
        (&b"\x7f\x7fa\n"[..], &b"a"[..]),
        (&b"no newline"[..], &b"no newline"[..]),
    ] {
        match typed(keys) {
            Typed::Password(password) => assert_eq!(password, expected),
            _ => panic!("{keys:?}"),
        }
    }
    assert!(matches!(typed(b"\n"), Typed::Empty));
    assert!(matches!(typed(b"a\x7f\n"), Typed::Empty));
    assert!(matches!(typed(b""), Typed::Empty));
    assert!(matches!(typed(b"abc\x03"), Typed::Interrupted));
}

#[test]
fn a_reader_that_cannot_be_answered_asks_no_more() {
    let mut reader = StderrReader::default();
    assert!(reader.read(b"rshx-password:", 64));
    reader.answered(false);
    assert!(!reader.read(b"rshx-password:", 64));
}

#[test]
fn an_answer_decides_whether_the_run_goes_on() {
    let (password, asking) = serve(Answer::Password(b"p".to_vec()), None);
    assert_eq!(password.unwrap(), b"p");
    assert!(matches!(asking, Asking::On));
}

#[test]
fn the_marker_is_one_plain_word() {
    assert_eq!(MARKER, "rshx-password:");
    assert!(!MARKER.contains([' ', '%', '\'']));
}
