//! What a Host's ssh comes to, and the report a run makes of it.

use rshx::cause::Cause;
use rshx::cli::{CliCommand, CliOptions, CliRunArgs};
use rshx::host::group::Groups;
use rshx::host::{load, Host, RawEntry, RawFile};
use rshx::remote::Waited;
use rshx::report::{
    json_line, not_encoded, single_line, write_block, ColorWhen, Detail, Format, JsonLine, Report,
    Reporter, PARTLY_STOPPED_NOTE, UNFINISHED_NOTE,
};
use rshx::run::command::command_ssh;
use rshx::run::ssh::{judge, not_spawned, with_stop, Settled};
use rshx::run::stream::{Capture, CAP};
use rshx::run::{exit_code, local_error, plan, reporter, Outcome, Plan, Status};
use rshx::{command_line_exit, EXIT_OK, EXIT_USAGE};

const MS: u128 = 1_000_000;

fn settled(code: Option<i32>, stdout: &[u8], stderr: &[u8]) -> Settled {
    Settled {
        waited: Waited::Ended(code),
        timed_out: false,
        killed: false,
        stdout: stdout.to_vec(),
        stderr: stderr.to_vec(),
        stdout_truncated: false,
        stderr_truncated: false,
        duration: 10 * MS,
    }
}

fn ended(host: &str, code: i32, stdout: &str, stderr: &str) -> Outcome {
    judge(host, settled(Some(code), stdout.as_bytes(), stderr.as_bytes()))
}

fn ok(host: &str, stdout: &str) -> Outcome {
    ended(host, 0, stdout, "")
}

fn timed_out(host: &str) -> Outcome {
    let mut end = settled(Some(255), b"", b"");
    end.timed_out = true;
    judge(host, end)
}

fn cancelled(host: &str) -> Outcome {
    let mut end = settled(Some(255), b"", b"");
    end.killed = true;
    judge(host, end)
}

fn plain(detail: Detail) -> Reporter {
    Reporter::new(ColorWhen::Never, detail, Format::Plain, false)
}

/// The report of a Host as it reads without its styles.
fn shown(detail: Detail, outcome: &Outcome) -> String {
    match plain(detail).outcome(outcome, "0.01") {
        Report::Text(text) => anstream::adapter::strip_str(&text).to_string(),
        Report::Json(_) => panic!("plain"),
    }
}

fn object(outcome: &Outcome) -> JsonLine {
    let reporter = Reporter::new(ColorWhen::Auto, Detail::default(), Format::Json, false);
    match reporter.outcome(outcome, "0.01") {
        Report::Json(line) => line,
        Report::Text(_) => panic!("json"),
    }
}

fn summary(outcomes: &[Outcome], not_started: usize) -> String {
    let text = plain(QUIET).summary(outcomes, not_started, "0.01");
    anstream::adapter::strip_str(&text).to_string()
}

/// stdout is not asked for.
const QUIET: Detail = Detail {
    stdout: false,
    stderr: false,
};

/// stdout is asked for, as a run does by default.
const LOUD: Detail = Detail {
    stdout: true,
    stderr: false,
};

fn options(quiet: bool, json: bool) -> CliOptions {
    CliOptions {
        host_file: None,
        fanout: 32,
        groups: Vec::new(),
        quiet,
        stderr: false,
        privilege: false,
        timeout: None,
        json,
        color: ColorWhen::Auto,
    }
}

fn words(words: &[&str]) -> Vec<String> {
    words.iter().map(|word| word.to_string()).collect()
}

fn host(name: &str) -> Host {
    let raw = RawFile {
        hosts: vec![RawEntry {
            name: name.to_string(),
            user: Some("alice".to_string()),
            port: None,
            ip: Some("10.0.0.1".to_string()),
            unique_privilege_pass: false,
        }],
        groups: Groups::new(),
    };
    load(b"hosts.toml".to_vec(), Ok(raw)).unwrap().hosts.remove(0)
}

// --- run ------------------------------------------------------------------

#[test]
fn prints_one_line_per_host() {
    let outcomes: Vec<Outcome> = ["node01", "node02", "node03"]
        .iter()
        .map(|name| ok(name, "hi\n"))
        .collect();
    for (outcome, name) in outcomes.iter().zip(["node01 ", "node02 ", "node03 "]) {
        let text = shown(LOUD, outcome);
        assert_eq!(text.lines().count(), 1, "one line per host: {text:?}");
        assert!(text.starts_with(name), "{text:?}");
        assert!(
            text.trim_end().ends_with("hi"),
            "a Host's output folds onto its own line: {text:?}"
        );
    }
    assert_eq!(exit_code(&outcomes), 0);
    assert!(summary(&outcomes, 0).contains("3 hosts"));
}

#[test]
fn forwards_the_command_verbatim_including_hyphen_arguments() {
    let sub = CliCommand::Run(CliRunArgs {
        script: None,
        command: words(&["uptime", "-p", "--since", "1 day ago"]),
        detach: false,
    });
    let Plan::Command {
        words: command,
        detach,
        ..
    } = plan(&sub, false)
    else {
        panic!("a command")
    };
    let argv = command_ssh(&host("node01"), "/tmp/m", &command, detach, false);
    assert!(
        argv.last()
            .unwrap()
            .contains("( uptime -p --since 1 day ago )"),
        "the command reaches the Host as it was written, never split by rshx"
    );
}

#[test]
fn a_usage_error_exits_five_not_two() {
    assert_eq!(
        command_line_exit(false),
        5,
        "2 means a Host failed, so usage errors take a code of their own"
    );
    assert_eq!(EXIT_USAGE, 5);
    assert_eq!(command_line_exit(true), EXIT_OK);
}

#[test]
fn exit_codes_follow_the_bit_flag_scheme() {
    let three = |second: i32, third: i32| {
        vec![
            ended("node01", 0, "", ""),
            ended("node02", second, "", ""),
            ended("node03", third, "", ""),
        ]
    };
    let both = three(3, 255);
    assert_eq!(exit_code(&both), 6, "failed and unreachable together");
    assert!(
        shown(QUIET, &both[1]).contains("node02 failed"),
        "a non-zero remote status is `failed`"
    );
    assert!(
        shown(QUIET, &both[2]).contains("node03 unreachable"),
        "255 is `unreachable`"
    );
    assert!(
        summary(&both, 0).contains("1 ok, 1 failed, 1 unreachable"),
        "and the summary says the same thing"
    );

    let ok = three(0, 0);
    assert_eq!(exit_code(&ok), 0);
    assert!(summary(&ok, 0).contains("3 hosts: 3 ok"));

    let failed = three(1, 0);
    assert_eq!(exit_code(&failed), 2);
    assert!(summary(&failed, 0).contains("2 ok, 1 failed"));

    let unreachable = three(0, 255);
    assert_eq!(exit_code(&unreachable), 4);
    assert!(summary(&unreachable, 0).contains("2 ok, 1 unreachable"));
}

#[test]
fn status_never_comes_from_output_text() {
    // Succeeds, but its stderr reads exactly like a connection failure.
    let first = ended(
        "node01",
        0,
        "",
        "ssh: connect to host node01 port 22: Connection refused\n",
    );
    // Fails with 255, but its stdout looks like a perfectly good answer.
    let second = ended("node02", 255, "node02\n", "");
    let third = ended("node03", 0, "", "");
    assert!(
        shown(QUIET, &first).contains("node01 ok"),
        "text that looks like a failure cannot demote an exit code of 0"
    );
    assert_eq!(first.cause, None);
    assert!(
        shown(QUIET, &second).contains("node02 unreachable"),
        "text that looks like success cannot promote an exit code of 255"
    );
    assert_eq!(exit_code(&[first, second, third]), 4);
}

#[test]
fn the_summary_agrees_with_the_exit_code() {
    let outcomes = [
        ended("node01", 0, "", ""),
        ended("node02", 3, "", ""),
        ended("node03", 4, "", ""),
    ];
    assert_eq!(exit_code(&outcomes), 2);
    assert!(
        summary(&outcomes, 0).contains("3 hosts: 1 ok, 2 failed"),
        "the summary counts what the exit code reflects"
    );
}

#[test]
fn a_failed_host_shows_its_stderr() {
    let outcome = ended("node01", 1, "", "bash: nope: command not found\n");
    assert!(
        shown(LOUD, &outcome).contains("bash: nope: command not found"),
        "a host that is not ok always shows why"
    );
}

#[test]
fn the_list_and_ping_aliases_answer_the_same_thing() {
    assert!(matches!(plan(&CliCommand::List, false), Plan::List));
    match plan(&CliCommand::Ping, false) {
        Plan::Command {
            words: command,
            detach,
            warning,
        } => {
            assert_eq!(
                command.join(" "),
                "echo pong",
                "ping runs the ping command on the Host"
            );
            assert!(!detach);
            assert_eq!(warning, None);
        }
        _ => panic!("a ping is a run"),
    }
}

#[test]
fn options_read_the_same_on_either_side_of_the_subcommand() {
    let quiet = reporter(&options(true, false), false);
    let loud = reporter(&options(false, false), false);
    let outcome = ok("node01", "42G /data\n");
    assert!(
        !shown(quiet.detail, &outcome).contains("42G"),
        "-q is rshx's quiet"
    );
    assert!(shown(loud.detail, &outcome).contains("42G"));
}

// --- report ---------------------------------------------------------------

#[test]
fn an_ok_host_prints_one_line_and_none_of_its_stdout() {
    let text = shown(QUIET, &ok("node01", "42G /data\n"));
    assert_eq!(text.lines().count(), 1, "{text:?}");
    assert!(text.starts_with("node01 ok "), "{text:?}");
    assert!(
        !text.contains("42G"),
        "an ok Host's output is not printed unless asked for: {text:?}"
    );
}

#[test]
fn a_one_line_stream_folds_onto_the_status_line() {
    for name in ["node01", "node02"] {
        let text = shown(LOUD, &ok(name, "42G /data\n"));
        let lines: Vec<&str> = text.lines().collect();
        assert_eq!(lines.len(), 1, "still one line per Host: {lines:?}");
        assert!(
            lines[0].contains(" ok ") && lines[0].ends_with("42G /data"),
            "the single line folds onto the status line: {lines:?}"
        );
    }
}

#[test]
fn a_multi_line_stream_becomes_an_indented_block() {
    let text = shown(LOUD, &ok("node01", "first\nsecond\nthird\n"));
    let lines: Vec<&str> = text.lines().collect();
    assert_eq!(lines.len(), 4, "{lines:?}");
    assert!(lines[0].starts_with("node01 ok "), "{:?}", lines[0]);
    assert_eq!(
        &lines[1..],
        ["  first", "  second", "  third"],
        "the block is indented so it stays attached to its Host"
    );
}

#[test]
fn a_trailing_newline_does_not_make_a_block_of_one_line() {
    let text = shown(LOUD, &ok("node01", "single\n"));
    assert_eq!(text.lines().count(), 1, "{text:?}");
}

#[test]
fn a_host_that_is_not_ok_always_shows_its_stderr() {
    let outcome = ended("node01", 1, "", "bash: nope: command not found\n");
    assert!(
        shown(QUIET, &outcome).contains("  bash: nope: command not found"),
        "the reason is shown without being asked for"
    );
    assert_eq!(exit_code(&[outcome]), 2);
}

#[test]
fn an_unreachable_host_shows_its_stderr_too() {
    let outcome = ended(
        "node01",
        255,
        "",
        "ssh: connect to host node01 port 22: Connection refused\n",
    );
    let text = shown(QUIET, &outcome);
    assert!(
        text.contains("  ssh: connect to host node01 port 22"),
        "an unreachable Host shows why, without --stderr: {text:?}"
    );
    assert!(
        text.contains("(connect)"),
        "and the cause sits next to it: {text:?}"
    );
    assert_eq!(exit_code(&[outcome]), 4);
}

#[test]
fn a_multi_line_stderr_becomes_an_indented_block() {
    let outcome = ended("node01", 1, "", "first problem\nsecond problem\n");
    let text = shown(QUIET, &outcome);
    let lines: Vec<&str> = text.lines().collect();
    assert_eq!(
        lines.len(),
        3,
        "a status line and one line per stderr line: {lines:?}"
    );
    assert!(lines[0].starts_with("node01 failed"), "{lines:?}");
    assert!(
        lines[1].starts_with("  first problem") && lines[2].starts_with("  second problem"),
        "both lines are indented under their Host: {lines:?}"
    );
}

#[test]
fn stderr_flag_shows_an_ok_hosts_stderr() {
    let outcome = ended("node01", 0, "", "a warning\n");
    let quiet = shown(QUIET, &outcome);
    assert!(
        !quiet.contains("a warning"),
        "an ok Host's stderr is hidden by default: {quiet:?}"
    );
    let loud = shown(
        Detail {
            stdout: false,
            stderr: true,
        },
        &outcome,
    );
    assert!(
        loud.contains("  a warning"),
        "--stderr shows it: {loud:?}"
    );
}

#[test]
fn the_cause_appears_for_failures_and_never_changes_the_outcome() {
    let first = ended(
        "node01",
        255,
        "",
        "ssh: connect to host 127.0.0.1 port 22: Connection refused\n",
    );
    let second = ended(
        "node02",
        255,
        "",
        "charon@host: Permission denied (publickey).\n",
    );
    assert!(
        shown(QUIET, &first).contains("(connect)"),
        "the cause is shown next to the status"
    );
    assert!(shown(QUIET, &second).contains("(auth)"));
    let outcomes = [first, second];
    assert_eq!(exit_code(&outcomes), 4, "both are still unreachable");
    assert!(
        summary(&outcomes, 0).contains("2 unreachable"),
        "the summary counts statuses, not causes"
    );
}

#[test]
fn a_failure_with_no_recognisable_text_gets_no_cause() {
    let outcome = ended("node01", 1, "", "something odd happened\n");
    let text = shown(QUIET, &outcome);
    assert!(!text.contains('('), "no cause is invented: {text:?}");
    assert_eq!(exit_code(&[outcome]), 2, "still failed");
}

#[test]
fn a_dns_failure_gets_the_dns_cause() {
    let outcome = ended(
        "node01",
        255,
        "",
        "ssh: Could not resolve hostname node01: Name or service not known\n",
    );
    let text = shown(QUIET, &outcome);
    assert!(
        text.contains("(dns)"),
        "all three causes are reachable: {text:?}"
    );
    assert!(
        !text.contains("(auth)") && !text.contains("(connect)"),
        "and only the matching one is named: {text:?}"
    );
}

#[test]
fn the_cause_comes_from_stderr_not_stdout() {
    // The command failed, and its stdout happens to contain ssh's own
    // connection-failure wording. The cause must not be read from it.
    let outcome = ended(
        "node01",
        1,
        "ssh: connect to host node01 port 22: Connection refused\n",
        "bash: nope: command not found\n",
    );
    let text = shown(LOUD, &outcome);
    assert!(
        text.contains("  ssh: connect to host node01 port 22"),
        "the stdout is shown as asked: {text:?}"
    );
    assert!(
        !text.contains("(connect)"),
        "but its text is not read for a cause: {text:?}"
    );
}

#[test]
fn stdout_chrome_is_coloured_on_a_terminal() {
    match plain(QUIET).outcome(&ok("node01", ""), "0.31") {
        Report::Text(text) => assert_eq!(
            text,
            "\u{1b}[1mnode01\u{1b}[0m \u{1b}[1m\u{1b}[32mok         \u{1b}[0m \
             \u{1b}[2m0.31s\u{1b}[0m\n",
            "the result line's status is coloured, and the text is still there"
        ),
        Report::Json(_) => panic!("plain"),
    }
}

#[test]
fn an_empty_stream_does_not_add_a_block() {
    let text = shown(
        Detail {
            stdout: true,
            stderr: true,
        },
        &ok("node01", ""),
    );
    assert_eq!(
        text.lines().count(),
        1,
        "nothing to show means no extra lines: {text:?}"
    );
}

#[test]
fn every_status_has_its_own_colour() {
    let mut o = ok("h", "");
    let coloured: Vec<String> = Status::ALL
        .iter()
        .map(|status| {
            o.status = *status;
            o.cause = None;
            match plain(QUIET).outcome(&o, "1.00") {
                Report::Text(text) => text,
                Report::Json(_) => panic!("plain"),
            }
        })
        .collect();
    for (text, code) in coloured.iter().zip([
        "\u{1b}[1m\u{1b}[32mok         ",
        "\u{1b}[1m\u{1b}[31mfailed     ",
        "\u{1b}[1m\u{1b}[36mrunning    ",
        "\u{1b}[1m\u{1b}[33munreachable",
        "\u{1b}[1m\u{1b}[35mtimeout    ",
        "\u{1b}[90mcancelled  ",
    ]) {
        assert!(text.contains(code), "{text:?}");
    }
}

#[test]
fn a_cut_stream_says_so_below_its_block() {
    let mut o = ok("h", "a\nb\n");
    o.stdout_truncated = true;
    assert_eq!(
        shown(LOUD, &o),
        "h ok          0.01s\n  a\n  b\n  [output truncated]\n"
    );
    let mut o = ended("h", 1, "", "x\n");
    o.stderr_truncated = true;
    assert_eq!(
        shown(QUIET, &o),
        "h failed      0.01s\n  x\n  [output truncated]\n"
    );
}

#[test]
fn a_quiet_host_shows_no_stdout_whatever_its_status() {
    for (code, status) in [(1, "h failed      0.01s"), (255, "h unreachable 0.01s")] {
        for (stdout, cut) in [("hi\n", false), ("a\nb\n", true), ("", false)] {
            let mut o = ended("h", code, stdout, "x\n");
            o.stdout_truncated = cut;
            assert_eq!(
                shown(QUIET, &o),
                format!("{status}\n  x\n"),
                "the reason is shown and the output is not: {stdout:?}"
            );
            o.stderr_truncated = true;
            assert_eq!(
                shown(QUIET, &o),
                format!("{status}\n  x\n  [output truncated]\n"),
                "only the stream that is shown is marked: {stdout:?}"
            );
        }
    }
    for o in [timed_out("h"), cancelled("h")] {
        let quiet = shown(QUIET, &o);
        let mut chatty = o;
        chatty.stdout = b"hi\n".to_vec();
        chatty.stdout_truncated = true;
        assert_eq!(shown(QUIET, &chatty), quiet);
        assert!(shown(LOUD, &chatty).contains("hi"), "asked for, it is shown");
    }
    let both = Detail {
        stdout: false,
        stderr: true,
    };
    assert_eq!(
        shown(both, &ended("h", 0, "hi\n", "x\n")),
        "h ok          0.01s\n  x\n"
    );
    assert_eq!(
        shown(LOUD, &ended("h", 1, "hi\n", "x\n")),
        "h failed      0.01s  hi\n  x\n"
    );
}

#[test]
fn a_stream_folds_up_to_two_hundred_bytes() {
    let long = "x".repeat(199) + "\n";
    assert_eq!(single_line(200, &long).unwrap(), "x".repeat(199));
    assert_eq!(single_line(201, &("x".repeat(201))), None);
    assert_eq!(single_line(2, "a\n").unwrap(), "a");
    assert_eq!(single_line(3, "a\n\n"), None);
    assert_eq!(single_line(3, "a\rb"), None);
    assert_eq!(single_line(1, "\n"), None);
    assert_eq!(single_line(0, ""), None);
}

#[test]
fn a_block_is_made_of_lines() {
    assert_eq!(write_block("a\r\nb\rc\n\nd\r"), "  a\n  b\rc\n  \n  d\r\n");
    assert_eq!(write_block(""), "");
}

#[test]
fn the_heading_mentions_the_fanout_only_where_it_limits() {
    let chrome = Reporter::new(ColorWhen::Auto, QUIET, Format::Plain, true);
    let heading = |hosts: usize, fanout: u32| {
        let text = chrome
            .heading(&words(&["du", "-hs", "/data"]), hosts, fanout)
            .unwrap();
        anstream::adapter::strip_str(&text).to_string()
    };
    assert_eq!(
        heading(200, 32),
        "du -hs /data  \u{b7}  200 hosts, fanout 32\n"
    );
    assert_eq!(heading(4, 32), "du -hs /data  \u{b7}  4 hosts\n");
    assert_eq!(heading(1, 1), "du -hs /data  \u{b7}  1 host\n");
    assert_eq!(plain(QUIET).heading(&words(&["x"]), 2, 1), None);
    assert!(chrome.chrome());
}

#[test]
fn lines_about_rshx_itself_say_what_they_are() {
    let r = plain(QUIET);
    assert_eq!(
        r.info("m"),
        "rshx: \u{1b}[1m\u{1b}[34minfo:\u{1b}[0m m\n"
    );
    assert_eq!(
        r.error("m"),
        "rshx: \u{1b}[1m\u{1b}[31merror:\u{1b}[0m m\n"
    );
    assert_eq!(local_error("m"), "rshx: m\n");
    assert_eq!(not_encoded("m"), "rshx: could not encode a result: m\n");
}

// --- json -----------------------------------------------------------------

#[test]
fn an_object_carries_every_documented_field() {
    let line = object(&ended("node01", 0, "node01\n", "a warning\n"));
    assert_eq!(line.host, "node01");
    assert_eq!(line.status, "ok");
    assert_eq!(line.exit_code, Some(0));
    assert_eq!(line.stdout, "node01\n");
    assert_eq!(line.stderr, "a warning\n");
    assert!(!line.truncated);
    assert!(
        !line.remote_stopped,
        "an ok Host was never cut short, so nothing was stopped"
    );
    assert_eq!(
        line.duration_ms, 10,
        "duration is a number of milliseconds"
    );
    assert_eq!(line.cause, None, "an ok Host has no cause");
    assert_eq!(line.pid, None);
}

#[test]
fn exit_code_is_absent_for_a_host_rshx_killed() {
    // ssh exits 255 on SIGTERM, which would read as `unreachable` if it were
    // passed through.
    let outcome = timed_out("node01");
    let line = object(&outcome);
    assert_eq!(line.status, "timeout");
    assert_eq!(
        line.exit_code, None,
        "rshx ended the child, so there is no exit code"
    );
    assert_eq!(exit_code(&[outcome]), 4);
}

#[test]
fn a_host_rshx_stopped_says_so_in_json() {
    let outcome = with_stop(timed_out("node01"), Ok(()));
    let line = object(&outcome);
    assert_eq!(line.status, "timeout");
    assert!(
        line.remote_stopped,
        "rshx stopped the command it gave up on, and says so"
    );
}

#[test]
fn a_host_rshx_could_not_stop_does_not_claim_it_was_stopped() {
    let outcome = with_stop(
        timed_out("node01"),
        Err("ssh: connect to host node01 port 22: Connection refused".to_string()),
    );
    let line = object(&outcome);
    assert!(
        !line.remote_stopped,
        "a stop that did not happen is not claimed"
    );
    assert_eq!(
        line.stderr,
        "rshx: could not stop the remote command: \
         ssh: connect to host node01 port 22: Connection refused\n"
    );
}

#[test]
fn a_cause_is_present_only_when_there_is_one() {
    let first = object(&ended(
        "node01",
        255,
        "",
        "ssh: connect to host node01 port 22: Connection timed out\n",
    ));
    let second = object(&ended("node02", 3, "", "bash: nope\n"));
    assert_eq!(first.cause, Some("connect"));
    assert_eq!(first.status, "unreachable");
    assert_eq!(first.exit_code, Some(255));
    assert_eq!(second.status, "failed");
    assert_eq!(second.exit_code, Some(3));
    assert_eq!(
        second.cause, None,
        "an unrecognised failure has no cause"
    );
}

#[test]
fn invalid_utf8_is_replaced_and_the_line_still_parses() {
    let line = object(&judge(
        "node01",
        settled(Some(0), b"caf\xe9 \xff\xfe\n", b""),
    ));
    assert!(line.stdout.starts_with("caf"), "{:?}", line.stdout);
    assert!(
        line.stdout.contains('\u{fffd}'),
        "the bad bytes became U+FFFD: {:?}",
        line.stdout
    );
    assert_eq!(line.stdout, "caf\u{fffd} \u{fffd}\u{fffd}\n");
}

fn captured(stream: &[u8]) -> Capture {
    let mut capture = Capture::default();
    for chunk in stream.chunks(16 * 1024) {
        capture.read_capped(chunk, CAP);
    }
    capture
}

#[test]
fn a_stream_past_the_cap_is_cut_and_says_so() {
    // Just over the 1 MiB cap, with no newlines, so the whole stream is one
    // long line.
    let capture = captured(&vec![b'x'; 1024 * 1024 + 4096]);
    let mut end = settled(Some(0), &capture.kept, b"");
    end.stdout_truncated = capture.truncated;
    let line = object(&judge("node01", end));
    assert!(line.truncated, "the object says so");
    assert_eq!(
        line.stdout.len(),
        1024 * 1024,
        "exactly the cap is kept"
    );
}

#[test]
fn a_stream_under_the_cap_is_not_flagged() {
    let capture = captured(&vec![b'x'; 1024 * 1024]);
    assert!(
        !capture.truncated,
        "a stream exactly at the cap lost nothing"
    );
    assert_eq!(capture.kept.len(), 1024 * 1024);
}

#[test]
fn json_is_never_coloured_even_when_asked_and_even_on_a_terminal() {
    let json = Reporter::new(ColorWhen::Always, QUIET, Format::Json, false);
    assert_eq!(
        json.stdout_color(),
        ColorWhen::Never,
        "--color always must not corrupt JSON"
    );
    let plain = Reporter::new(ColorWhen::Always, QUIET, Format::Plain, false);
    assert_eq!(plain.stdout_color(), ColorWhen::Always);
}

#[test]
fn json_produces_no_heartbeat_even_on_a_terminal() {
    assert!(!reporter(&options(false, true), true).chrome());
    assert!(reporter(&options(false, false), true).chrome());
}

#[test]
fn a_redirected_stderr_gets_no_heartbeat_and_no_escape_sequences() {
    assert!(!reporter(&options(false, false), false).chrome());
}

#[test]
fn json_and_the_plain_report_agree_on_status_and_exit_code() {
    let outcomes = [
        ended("node01", 0, "", ""),
        ended("node02", 7, "", "boom\n"),
        ended(
            "node03",
            255,
            "",
            "ssh: connect to host node03 port 22: Connection refused\n",
        ),
    ];
    for outcome in &outcomes {
        let line = object(outcome);
        let text = shown(LOUD, outcome);
        assert!(
            text.starts_with(&line.host) && text.contains(line.status),
            "plain {text:?} and json {line:?} agree on status"
        );
        assert!(line.exit_code.is_some(), "every Host that ran has one");
    }
    assert_eq!(
        object(&outcomes[1]).exit_code,
        Some(7),
        "the remote status is reported, not rshx's"
    );
}

#[test]
fn a_host_that_produces_nothing_still_gets_an_object() {
    let line = object(&ok("node01", ""));
    assert_eq!(line.stdout, "");
    assert_eq!(line.stderr, "");
    assert_eq!(line.status, "ok");
}

#[test]
fn newlines_inside_a_stream_do_not_break_the_one_line_per_host_rule() {
    let line = object(&ended("node01", 0, "a\nb\nc\n", "x\ny\n"));
    assert_eq!(line.stdout, "a\nb\nc\n");
    assert_eq!(line.stderr, "x\ny\n");
}

#[test]
fn milliseconds_are_whole_and_wrap_like_a_counter() {
    let mut o = ok("h", "");
    o.duration = 1_999_999;
    assert_eq!(json_line(&o, String::new(), String::new()).duration_ms, 1);
    o.duration = ((u64::MAX as u128) + 5) * MS;
    assert_eq!(json_line(&o, String::new(), String::new()).duration_ms, 4);
}

// --- what ssh left behind ---------------------------------------------------

#[test]
fn an_interrupt_outranks_a_timeout() {
    let mut end = settled(Some(255), b"", b"Permission denied");
    end.killed = true;
    end.timed_out = true;
    let o = judge("h", end);
    assert_eq!(o.status, Status::Cancelled);
    assert_eq!(o.exit_code, None);
    assert_eq!(o.cause, None);
}

#[test]
fn a_child_that_died_from_a_signal_is_cancelled() {
    let o = judge("h", settled(None, b"", b""));
    assert_eq!(o.status, Status::Cancelled);
    assert_eq!(o.exit_code, None);
}

#[test]
fn a_status_that_cannot_be_read_is_unreachable() {
    let mut end = settled(None, b"out", b"Connection refused");
    end.waited = Waited::Lost("gone".to_string());
    let o = judge("h", end);
    assert_eq!(o.status, Status::Unreachable);
    assert_eq!(o.cause, Some(Cause::Connect));
    assert_eq!(
        o.stderr,
        b"rshx: could not read ssh's exit status: gone\n"
    );
    assert_eq!(o.stdout, b"out");
}

#[test]
fn an_ssh_that_never_started_is_rshxs_own_failure() {
    let o = not_spawned("h", 5, "no such program");
    assert_eq!(o.status, Status::Unreachable);
    assert_eq!(o.stderr, b"rshx: could not run ssh: no such program\n");
    assert_eq!(o.exit_code, None);
    assert_eq!(o.duration, 5);
}

#[test]
fn statuses_have_words_and_codes() {
    let all: Vec<&str> = Status::ALL.iter().map(|status| status.as_str()).collect();
    assert_eq!(
        all,
        ["ok", "failed", "running", "unreachable", "timeout", "cancelled"]
    );
    assert_eq!(Status::from_exit_code(0), Status::Okay);
    assert_eq!(Status::from_exit_code(255), Status::Unreachable);
    assert_eq!(Status::from_exit_code(-1), Status::Failed);
    assert!(Status::Timeout.is_unfinished() && Status::Cancelled.is_unfinished());
    assert!(!Status::Running.is_unfinished() && !Status::Okay.is_unfinished());
}

// --- interrupts and timeouts in the report -----------------------------------

#[test]
fn a_cancelled_host_is_not_a_failure() {
    let outcomes = [
        cancelled("node01"),
        cancelled("node02"),
        cancelled("node03"),
    ];
    assert_eq!(exit_code(&outcomes), 99);
    let text = summary(&outcomes, 0);
    assert!(
        !text.contains("0 failed") && !text.contains("0 unreachable"),
        "the summary does not invent failure counts: {text}"
    );
    assert!(text.contains("3 hosts: 0 ok, 3 cancelled"), "{text}");
}

#[test]
fn a_cancelled_host_reports_no_exit_code() {
    let line = object(&cancelled("node01"));
    assert_eq!(line.status, "cancelled");
    assert_eq!(line.exit_code, None, "there is no exit code to report");
}

#[test]
fn the_report_says_the_remote_command_may_still_be_running() {
    let text = summary(&[cancelled("node01")], 0);
    assert!(
        text.contains("stopped waiting"),
        "the report does not claim the remote work stopped: {text}"
    );
    assert!(
        text.contains("may still be running"),
        "and says so plainly: {text}"
    );
}

#[test]
fn a_run_that_is_never_interrupted_is_unaffected() {
    let outcomes = [ok("node01", ""), ok("node02", ""), ok("node03", "")];
    assert_eq!(exit_code(&outcomes), 0);
    let text = summary(&outcomes, 0);
    assert!(text.contains("3 hosts: 3 ok"), "{text}");
    assert!(
        !text.contains("stopped waiting"),
        "no note without a cancellation: {text}"
    );
}

#[test]
fn a_run_where_every_host_times_out_exits_4() {
    let outcomes = [
        timed_out("node01"),
        timed_out("node02"),
        timed_out("node03"),
    ];
    assert_eq!(
        exit_code(&outcomes),
        4,
        "a timeout counts as unreachable for the exit code"
    );
    assert!(
        summary(&outcomes, 0).contains("3 timeout"),
        "and the summary says timeout, not unreachable"
    );
}

#[test]
fn timeout_and_unreachable_are_told_apart_in_the_report() {
    let outcomes = [
        timed_out("node01"),
        ended(
            "node02",
            255,
            "",
            "ssh: connect to host node02 port 22: Connection refused\n",
        ),
        ok("node03", ""),
    ];
    let text: String = outcomes.iter().map(|o| shown(QUIET, o)).collect();
    assert!(text.contains("node01 timeout"), "{text:?}");
    assert!(
        text.contains("node02 unreachable"),
        "a connection failure is still unreachable, not a timeout: {text:?}"
    );
    assert!(
        text.contains("(connect)"),
        "and it still has its cause: {text:?}"
    );
    assert!(
        !text.contains("node01 unreachable") && !text.contains("node02 timeout"),
        "neither is mislabelled: {text:?}"
    );
    assert_eq!(exit_code(&outcomes), 4, "both share exit code 4");
    let line = summary(&outcomes, 0);
    assert!(
        line.contains("1 unreachable") && line.contains("1 timeout"),
        "the summary counts them separately: {line}"
    );
}

#[test]
fn a_timed_out_host_reports_no_exit_code() {
    let line = object(&timed_out("node01"));
    assert_eq!(line.status, "timeout");
    assert_eq!(line.exit_code, None);
}

#[test]
fn the_report_says_a_timed_out_remote_command_may_still_be_running() {
    let text = summary(&[timed_out("node01")], 0);
    assert!(
        text.contains("stopped waiting"),
        "the report does not claim the remote work stopped: {text}"
    );
}

#[test]
fn a_timeout_does_not_set_the_failed_bit() {
    let code = exit_code(&[timed_out("node01")]);
    assert_ne!(code, 2, "a timeout is not a failure");
    assert_ne!(code, 99, "nor a cancellation: it is exit 4");
    assert_eq!(code, 4);
}

#[test]
fn a_host_that_times_out_is_not_reported_as_cancelled() {
    let outcome = timed_out("node01");
    assert!(
        !shown(QUIET, &outcome).contains("cancelled"),
        "a timeout is its own status"
    );
    assert_eq!(
        exit_code(&[outcome]),
        4,
        "and its own exit code, not 99"
    );
}

#[test]
fn the_note_is_owed_only_for_what_was_not_stopped() {
    let stopped = || with_stop(timed_out("a"), Ok(()));
    assert!(!summary(&[stopped()], 0).contains("rshx stopped"));
    let text = summary(&[timed_out("a"), ok("b", "")], 0);
    assert!(text.ends_with(&format!("{UNFINISHED_NOTE}\n")), "{text}");
    let text = summary(&[stopped(), cancelled("b")], 0);
    assert!(text.ends_with(&format!("{PARTLY_STOPPED_NOTE}\n")), "{text}");
}

#[test]
fn the_summary_reports_the_run_duration() {
    let text = summary(&[ok("a", ""), ok("b", "")], 0);
    assert!(
        text.contains(" in ") && text.trim_end().ends_with('s'),
        "the summary carries the run's wall time: {text}"
    );
    assert_eq!(text, "2 hosts: 2 ok in 0.01s\n");
}

#[test]
fn the_counts_agree_with_the_closing_summary() {
    assert_eq!(
        summary(
            &[
                ok("a", ""),
                ended("b", 1, "", ""),
                ended("c", 255, "", ""),
                timed_out("d"),
                cancelled("e"),
            ],
            2
        ),
        format!(
            "7 hosts: 1 ok, 1 failed, 1 unreachable, 1 timeout, 1 cancelled, \
             2 not started in 0.01s\n{UNFINISHED_NOTE}\n"
        )
    );
}

#[test]
fn a_single_host_is_reported_sensibly() {
    assert_eq!(summary(&[ok("a", "")], 0), "1 host: 1 ok in 0.01s\n");
}

#[test]
fn a_run_with_no_hosts_in_flight_still_ends_cleanly() {
    assert_eq!(summary(&[], 0), "0 hosts: 0 ok in 0.01s\n");
    assert_eq!(exit_code(&[]), 0);
}

#[test]
fn the_override_does_not_change_the_reported_name() {
    let node = host("node01");
    let text = shown(QUIET, &ok(&node.name, ""));
    assert!(
        text.starts_with("node01 "),
        "the Host is reported under its name: {text:?}"
    );
    assert!(!text.contains("10.0.0.1"), "{text:?}");
    assert!(!text.contains("alice"), "{text:?}");
}

#[test]
fn every_way_of_reading_a_stream_keeps_the_same() {
    let stream = b"abcdefghij";
    for cap in [0, 3, 10, 12] {
        for at in 0..=stream.len() {
            let mut capture = Capture::default();
            capture.read_capped(&stream[..at], cap);
            capture.read_capped(&stream[at..], cap);
            assert_eq!(capture.kept, &stream[..cap.min(stream.len())]);
            assert_eq!(capture.truncated, stream.len() > cap);
        }
    }
}
