//! A run in progress: the window, detached launches, scripts, limits,
//! interrupts and the heartbeat.

use rshx::cli::{parse_timeout, CliCommand, CliRunArgs, DEFAULT_FANOUT};
use rshx::heartbeat::Heartbeat;
use rshx::host::group::Groups;
use rshx::host::{load, Host, RawEntry, RawFile};
use rshx::interrupt::{Action, Bounded, Escalation, Interrupt};
use rshx::remote::Waited;
use rshx::report::{ColorWhen, Detail, Format, JsonLine, Report, Reporter};
use rshx::run::command::{command_outcome, command_ssh};
use rshx::run::detach::{launched_as, read_pid};
use rshx::run::script::{
    after_copy, check_script, copy_ssh, remaining, run_argv as script_argv, script_gone,
    script_heading, script_ssh, temporary_path, unreadable_path, COPY,
};
use rshx::run::ssh::{judge, Settled};
use rshx::run::{plan, Outcome, Plan, Run, Status, Turn};

const MS: u128 = 1_000_000;
const SECOND: u128 = 1_000_000_000;

/// What a Host answers a launch with: the pid of the shell the command runs in.
const PID: &str = "4321";

/// What a Host answers the copy with: the path it wrote the script to.
const PATH: &str = "/tmp/tmp.abc123";

fn words(words: &[&str]) -> Vec<String> {
    words.iter().map(|word| word.to_string()).collect()
}

fn host(name: &str) -> Host {
    let raw = RawFile {
        hosts: vec![RawEntry {
            name: name.to_string(),
            user: None,
            port: None,
            ip: None,
            unique_privilege_pass: false,
        }],
        groups: Groups::new(),
    };
    load(b"hosts.toml".to_vec(), Ok(raw)).unwrap().hosts.remove(0)
}

fn ended(host: &str, code: i32, stdout: &str, stderr: &str) -> Outcome {
    judge(
        host,
        Settled {
            waited: Waited::Ended(Some(code)),
            timed_out: false,
            killed: false,
            stdout: stdout.as_bytes().to_vec(),
            stderr: stderr.as_bytes().to_vec(),
            stdout_truncated: false,
            stderr_truncated: false,
            duration: 10 * MS,
        },
    )
}

fn cut_short(host: &str, killed: bool) -> Outcome {
    judge(
        host,
        Settled {
            waited: Waited::Ended(Some(255)),
            timed_out: !killed,
            killed,
            stdout: Vec::new(),
            stderr: Vec::new(),
            stdout_truncated: false,
            stderr_truncated: false,
            duration: 10 * MS,
        },
    )
}

fn reporter(format: Format) -> Reporter {
    let detail = Detail {
        stdout: true,
        stderr: false,
    };
    Reporter::new(ColorWhen::Never, detail, format, false)
}

fn shown(outcome: &Outcome) -> String {
    match reporter(Format::Plain).outcome(outcome, "0.01") {
        Report::Text(text) => anstream::adapter::strip_str(&text).to_string(),
        Report::Json(_) => panic!("plain"),
    }
}

fn object(outcome: &Outcome) -> JsonLine {
    match reporter(Format::Json).outcome(outcome, "0.01") {
        Report::Json(line) => line,
        Report::Text(_) => panic!("json"),
    }
}

fn summary(run: &Run) -> String {
    let text = reporter(Format::Plain).summary(&run.outcomes, run.not_started, "0.01");
    anstream::adapter::strip_str(&text).to_string()
}

// --- the window ---------------------------------------------------------------

/// Fills the window, and returns the Hosts that started.
fn fill(run: &mut Run, stopped: bool) -> Vec<usize> {
    let mut started = Vec::new();
    loop {
        match run.turn(stopped) {
            Turn::Start(index) => started.push(index),
            Turn::Skip => {}
            Turn::Wait => return started,
        }
    }
}

#[test]
fn fanout_caps_how_many_commands_run_at_once() {
    let mut run = Run::new(8, 2, false);
    let mut ran = fill(&mut run, false);
    assert_eq!(
        run.in_flight, 2,
        "the bound is reached, not merely respected"
    );
    while !run.is_over() {
        assert!(run.in_flight <= 2, "at most two commands run at once");
        run.settled(ended("h", 0, "", ""));
        ran.extend(fill(&mut run, false));
    }
    assert_eq!(
        run.in_flight, 0,
        "the window drains to nothing when the work runs out"
    );
    assert_eq!(
        ran,
        [0, 1, 2, 3, 4, 5, 6, 7],
        "every Host ran exactly once"
    );
    assert_eq!(run.outcomes.len(), 8);
    assert_eq!(run.exit(), 0);
}

#[test]
fn fanout_one_runs_hosts_strictly_one_at_a_time() {
    let mut run = Run::new(3, 1, false);
    for expected in 0..3 {
        assert_eq!(fill(&mut run, false), [expected]);
        assert_eq!(run.in_flight, 1, "one at a time, no overlap");
        run.settled(ended("h", 0, "", ""));
    }
    assert!(run.is_over());
}

#[test]
fn a_finished_host_is_replaced_immediately() {
    let mut run = Run::new(8, 2, false);
    assert_eq!(fill(&mut run, false), [0, 1]);
    run.settled(ended("node01", 0, "", ""));
    assert_eq!(
        fill(&mut run, false),
        [2],
        "a Host starts in the slot node01 freed, while node02 still holds its own"
    );
    assert_eq!(run.in_flight, 2, "and the bound still holds");
}

#[test]
fn results_are_reported_as_hosts_settle_not_in_host_file_order() {
    let mut run = Run::new(3, 8, false);
    assert_eq!(fill(&mut run, false), [0, 1, 2]);
    for name in ["node02", "node03", "node01"] {
        run.settled(ended(name, 0, "", ""));
    }
    let names: Vec<&str> = run.outcomes.iter().map(|o| o.host.as_str()).collect();
    assert_eq!(
        names,
        ["node02", "node03", "node01"],
        "the slowest host is reported last, not first"
    );
}

#[test]
fn the_default_fanout_is_thirty_two() {
    assert_eq!(DEFAULT_FANOUT, 32);
    let mut run = Run::new(40, DEFAULT_FANOUT, false);
    assert_eq!(
        fill(&mut run, false).len(),
        32,
        "forty hosts with a default fanout of 32 run in two waves"
    );
}

#[test]
fn exit_codes_hold_when_hosts_finish_out_of_order() {
    let codes = |settling: &[(&str, i32)]| {
        let mut run = Run::new(settling.len(), 8, false);
        fill(&mut run, false);
        for (name, code) in settling {
            run.settled(ended(name, *code, "", ""));
        }
        run
    };
    let run = codes(&[
        ("node04", 0),
        ("node05", 0),
        ("node06", 0),
        ("node07", 0),
        ("node08", 0),
        ("node03", 255),
        ("node02", 3),
        ("node01", 0),
    ]);
    assert_eq!(run.exit(), 6);
    assert!(
        summary(&run).contains("8 hosts: 6 ok, 1 failed, 1 unreachable"),
        "the summary counts the same run"
    );
    assert_eq!(codes(&[("node02", 0), ("node01", 0)]).exit(), 0);
    assert_eq!(
        codes(&[("node01", 0), ("node05", 9)]).exit(),
        2,
        "a late-settling failure still sets the failed bit"
    );
    assert_eq!(
        codes(&[("node06", 255), ("node01", 0)]).exit(),
        4,
        "and an early-settling unreachable sets the unreachable bit"
    );
}

#[test]
fn ctrl_c_stops_new_hosts_from_starting() {
    // Two at a time: with three hosts, one is still waiting for a slot when the
    // interrupt arrives.
    let mut run = Run::new(3, 2, false);
    assert_eq!(fill(&mut run, false), [0, 1]);
    run.settled(cut_short("node01", true));
    assert_eq!(
        fill(&mut run, true),
        Vec::<usize>::new(),
        "the third Host never started"
    );
    run.settled(cut_short("node02", true));
    assert!(run.is_over());
    assert_eq!(run.exit(), 99);
    let text = summary(&run);
    assert!(
        text.contains("1 not started"),
        "but the summary accounts for it: {text}"
    );
}

#[test]
fn a_stopping_run_serves_nobody() {
    let mut run = Run::new(1, 1, true);
    assert!(run.asking);
    assert!(!run.request(true));
    assert!(!run.asking);
    let mut run = Run::new(1, 1, true);
    assert!(run.request(false));
    run.nobody_left_to_ask();
    assert!(!run.asking);
    assert_eq!(run.fatal_line(), None);
}

// --- interrupts -----------------------------------------------------------------

#[test]
fn ctrl_c_cancels_the_hosts_in_flight_and_exits_99() {
    let mut interrupt = Interrupt::default();
    let mut run = Run::new(3, 3, false);
    fill(&mut run, false);
    for (index, name) in ["node01", "node02", "node03"].iter().enumerate() {
        assert_eq!(interrupt.spawned(name, 100 + index as i32), None);
    }
    assert_eq!(interrupt.begin(), Some(vec![100, 101, 102]));
    assert!(interrupt.is_stopped());
    for (index, name) in ["node01", "node02", "node03"].iter().enumerate() {
        interrupt.ended(name, 100 + index as i32);
        let outcome = cut_short(name, interrupt.was_killed(name));
        assert!(
            shown(&outcome).starts_with(&format!("{name} cancelled")),
            "{name} is reported cancelled"
        );
        run.settled(outcome);
    }
    assert_eq!(run.exit(), 99, "an interrupted run exits 99");
    assert!(
        summary(&run).contains("3 hosts: 0 ok, 3 cancelled"),
        "the summary counts them"
    );
}

#[test]
fn hosts_that_already_settled_keep_their_real_status() {
    let mut interrupt = Interrupt::default();
    assert!(interrupt.register("node01", 1));
    assert!(interrupt.register("node02", 2));
    interrupt.deregister("node01");
    assert_eq!(interrupt.begin(), Some(vec![2]));
    assert!(!interrupt.was_killed("node01"));
    assert!(interrupt.was_killed("node02"));
    let settled = ended("node01", 0, "done\n", "");
    assert!(shown(&settled).contains(" ok "));
    assert!(shown(&settled).trim_end().ends_with("done"));
}

#[test]
fn a_second_ctrl_c_does_not_wait_out_the_grace_period() {
    let mut interrupt = Interrupt::default();
    interrupt.register("node01", 11);
    interrupt.register("node02", 12);
    assert!(interrupt.begin().is_some());
    assert_eq!(
        interrupt.begin(),
        None,
        "the first interrupt owns the escalation"
    );
    assert_eq!(
        interrupt.escalate(Escalation::SecondInterrupt),
        [11, 12],
        "the grace period was skipped, not waited out"
    );
    assert_eq!(interrupt.escalate(Escalation::GraceOver), [11, 12]);
    assert_eq!(
        interrupt.escalate(Escalation::AllGone),
        Vec::<i32>::new()
    );
    interrupt.deregister("node01");
    assert_eq!(interrupt.survivors(), [12]);
    interrupt.deregister("node02");
    assert!(interrupt.is_idle());
}

#[test]
fn a_host_cannot_slip_in_after_an_interrupt() {
    let mut interrupt = Interrupt::default();
    assert_eq!(interrupt.begin(), Some(Vec::new()));
    assert!(!interrupt.register("late", 5));
    assert!(interrupt.was_killed("late"));
    assert_eq!(interrupt.spawned("later", 6), Some(6));
    assert!(interrupt.was_killed("later"));
    interrupt.deregister("late");
    assert!(interrupt.was_killed("late"));
    // A child without a pid is left to run rather than killed blind.
    assert_eq!(interrupt.spawned("pidless", 0), None);
    assert!(!interrupt.was_killed("pidless"));
    interrupt.ended("pidless", 0);
}

#[test]
fn a_host_started_again_replaces_its_child() {
    let mut interrupt = Interrupt::default();
    interrupt.register("h", 1);
    interrupt.register("h", 2);
    assert_eq!(interrupt.survivors(), [2]);
}

// --- limits ---------------------------------------------------------------------

#[test]
fn a_host_that_outlives_the_limit_times_out_and_the_run_moves_on() {
    let mut wait = Bounded::new(Some(SECOND), 42, 0, 0);
    assert_eq!(wait.next(0, false, 0), Action::AwaitChildFor(SECOND));
    assert!(!wait.timed_out());
    assert_eq!(wait.next(SECOND, false, 0), Action::Terminate(Some(42)));
    assert!(wait.timed_out());
    assert!(shown(&cut_short("node01", false)).contains("node01 timeout"));
}

#[test]
fn hosts_that_finish_inside_the_limit_are_untouched() {
    let mut wait = Bounded::new(Some(10 * SECOND), 42, 0, 0);
    assert_eq!(
        wait.next(100 * MS, false, 0),
        Action::AwaitChildFor(9900 * MS)
    );
    assert!(!wait.timed_out());
}

#[test]
fn no_limit_applies_when_the_flag_is_absent() {
    let mut wait = Bounded::new(None, 42, 0, 0);
    assert_eq!(wait.next(1500 * MS, false, 0), Action::AwaitChild);
    assert_eq!(wait.next(u128::MAX, false, 0), Action::AwaitChild);
    assert!(!wait.timed_out());
}

#[test]
fn a_timed_out_child_is_terminated_rather_than_left_running() {
    let mut wait = Bounded::new(Some(SECOND), 42, 0, 0);
    assert_eq!(wait.next(SECOND, false, 0), Action::Terminate(Some(42)));
    // It did not exit in its grace period.
    assert_eq!(wait.next(3 * SECOND, false, 0), Action::KillGroup(42));
    assert_eq!(wait.next(3 * SECOND, false, 0), Action::AwaitChild);
    assert!(wait.timed_out());
}

#[test]
fn a_child_without_a_pid_is_killed_itself() {
    let mut wait = Bounded::new(Some(0), 0, 0, 0);
    assert_eq!(wait.next(0, false, 0), Action::Terminate(None));
    assert_eq!(wait.next(0, false, 0), Action::KillChild);
}

#[test]
fn the_limit_applies_per_host_not_to_the_run() {
    // Each Host takes 400ms and the limit is 1s, each from its own start.
    for started in [0, 400 * MS, 800 * MS] {
        let mut wait = Bounded::new(Some(SECOND), 1, started, 0);
        assert_eq!(
            wait.next(started + 400 * MS, false, 0),
            Action::AwaitChildFor(600 * MS)
        );
    }
}

#[test]
fn durations_are_read_the_way_humantime_writes_them() {
    for (duration, nanos) in [
        ("30s", 30 * SECOND),
        ("5m", 300 * SECOND),
        ("1h", 3600 * SECOND),
        ("500ms", 500 * MS),
        ("2m30s", 150 * SECOND),
        ("1h 30m 15s 500ms 250us", 5415 * SECOND + 500 * MS + 250_000),
        ("1000000000000000ns", 1_000_000_000_000_000),
        ("0000000000000030s", 30 * SECOND),
        ("1 000 s", 1000 * SECOND),
        ("1.5s", 1500 * MS),
        ("0.5y 2M 3millis", 15_778_800 * SECOND + 5_260_032 * SECOND + 3 * MS),
        ("18446744073709551615s", 18_446_744_073_709_551_615 * SECOND),
        (
            "18446744073709551615s 999ms",
            18_446_744_073_709_551_615 * SECOND + 999 * MS,
        ),
        (
            "18446744073709551615.5s",
            18_446_744_073_709_551_615 * SECOND + 500 * MS,
        ),
        (
            "18446744073709551614s 0.01m 1.399999999s",
            18_446_744_073_709_551_615 * SECOND + 999_999_999,
        ),
    ] {
        assert_eq!(
            parse_timeout(duration),
            Some(Ok(nanos)),
            "--timeout {duration}"
        );
    }
}

#[test]
fn a_duration_of_one_second_more_than_a_u64_counts_is_refused_or_not_read() {
    for duration in [
        "18446744073709551615s 1s",
        "18446744073709551615s 2000ms",
        "18446744073709551614s 2000ms",
        "18446744073709551615s 1001ms",
        "18446744073709551614.5s 1.6s",
        "18446744073709551615s 18446744073709551615ns",
        "18446744073709551615s 0.5m",
        "99999999999999999999s",
        "584542046091y",
        "99999999999999999999s 1ms",
        "0.1ns 18446744073709551615s 1000ms",
        "0.0000000001s 18446744073709551615s 1000ms",
    ] {
        match parse_timeout(duration) {
            Some(Err(why)) => assert!(why.starts_with("number is too large"), "{why}"),
            read => panic!("--timeout {duration}: {read:?}"),
        }
    }
    // What is wrong before the sum is over is reported.
    for duration in [
        "1x 18446744073709551615s 1000ms",
        "1 -18446744073709551615s 1000ms",
        "1.s 18446744073709551615s 1000ms",
        "s 18446744073709551615s 1000ms",
        "18446744073709551615s 1000mss",
        "18446744073709551615s 1000",
        "18446744073709551615s 1000 m s",
    ] {
        assert!(
            matches!(parse_timeout(duration), Some(Err(_))),
            "--timeout {duration}"
        );
    }
    for duration in [
        "18446744073709551615s 1000ms",
        "18446744073709551615s1000ms",
        "18446744073709551615 s 1 000ms",
        "18446744073709551615s 1000.5ms",
        "18446744073709551615s 1000ms x",
        "18446744073709551615s 500millis 500000\u{b5}s",
        "18446744073709551615.5s 0.5s",
        "18446744073709551614.5s 1.5s",
        "18446744073709551615s 400ms 0.01m",
        "18446744073709551614.75s 1s 250ms",
    ] {
        assert_eq!(parse_timeout(duration), None, "--timeout {duration}");
    }
}

#[test]
fn every_unit_counts_for_what_it_is() {
    for (names, nanos) in [
        (&["nanos", "nsec", "ns"][..], 1),
        (&["usec", "us", "\u{b5}s"], 1_000),
        (&["millis", "msec", "ms"], MS),
        (&["seconds", "second", "secs", "sec", "s"], SECOND),
        (&["minutes", "minute", "min", "mins", "m"], 60 * SECOND),
        (&["hours", "hour", "hr", "hrs", "h"], 3_600 * SECOND),
        (&["days", "day", "d"], 86_400 * SECOND),
        (&["weeks", "week", "wk", "wks", "w"], 604_800 * SECOND),
        (&["months", "month", "M"], 2_630_016 * SECOND),
        (&["years", "year", "yr", "yrs", "y"], 31_557_600 * SECOND),
    ] {
        for name in names {
            assert_eq!(parse_timeout(&format!("1{name}")), Some(Ok(nanos)));
            let rest = 18_446_744_073_709_551_616 * SECOND - nanos;
            let (seconds, below) = (rest / SECOND, rest % SECOND);
            let (seconds, below) = if below == 0 {
                (seconds - 1, SECOND)
            } else {
                (seconds, below)
            };
            let full = format!("1{name} {seconds}s {below}ns");
            assert_eq!(parse_timeout(&full), None, "{full}");
            let less = format!("1{name} {seconds}s {}ns", below - 1);
            assert_eq!(
                parse_timeout(&less),
                Some(Ok(18_446_744_073_709_551_616 * SECOND - 1)),
                "{less}"
            );
        }
    }
}

#[test]
fn a_malformed_duration_is_a_usage_error() {
    for duration in ["soon", "30", "-5s", ""] {
        assert!(
            matches!(parse_timeout(duration), Some(Err(_))),
            "--timeout {duration:?} is a usage error"
        );
    }
    assert_eq!(
        parse_timeout("soon"),
        Some(Err("expected number at 0".to_string()))
    );
}

// --- detached launches ------------------------------------------------------------

fn detached_run(command: &[&str]) -> CliCommand {
    CliCommand::Run(CliRunArgs {
        script: None,
        command: words(command),
        detach: true,
    })
}

/// The word a detached run hands node01.
fn launch_word(command: &[&str], privilege: bool) -> String {
    let Plan::Command {
        words: command,
        detach,
        ..
    } = plan(&detached_run(command), privilege)
    else {
        panic!("a command")
    };
    let marker = rshx::remote::marker(0xabc, "node01");
    let argv = command_ssh(&host("node01"), &marker, &command, detach, privilege);
    argv.last().unwrap().clone()
}

#[test]
fn a_detached_run_reports_the_pid_and_leaves_the_command_running() {
    let outcome = command_outcome(ended("node01", 0, PID, ""), true);
    let text = shown(&outcome);
    let line = text.lines().next().unwrap();
    assert!(
        line.starts_with("node01 running "),
        "a command left running is its own status, not a failure: {line:?}"
    );
    assert!(line.ends_with(&format!("pid {PID}")), "{line:?}");
    let mut run = Run::new(1, 1, false);
    fill(&mut run, false);
    run.settled(outcome);
    assert_eq!(run.exit(), 0);
}

#[test]
fn a_detached_run_keeps_nothing_of_its_own_on_the_host() {
    let word = launch_word(&["sleep", "300"], false);
    assert!(
        word.contains("nohup") && word.contains(">/dev/null 2>&1 </dev/null &"),
        "the command is let out of the connection, and its output is dropped: {word}"
    );
    assert!(
        word.contains("/tmp/rshx-") && word.contains("-node01.pid"),
        "and is named by the marker a stop finds it by: {word}"
    );
    assert!(
        word.contains("rm -f -- \"/tmp/rshx-"),
        "the marker goes when the command does: {word}"
    );
    for kept in [".out", ".state", "date +%s"] {
        assert!(
            !word.contains(kept),
            "nothing of the run is kept on the Host: {kept} in {word}"
        );
    }
}

#[test]
fn a_detached_run_says_so_in_json_without_an_exit_status() {
    let line = object(&command_outcome(ended("node01", 0, PID, ""), true));
    assert_eq!(line.status, "running");
    assert_eq!(line.pid, Some(4321));
    assert_eq!(
        line.exit_code, None,
        "the launcher's status is not the command's, which has not ended"
    );
    assert_eq!(line.stdout, "");
}

#[test]
fn a_launch_that_printed_no_pid_started_nothing_rshx_can_name() {
    // ssh succeeded, but nothing came back that names the command.
    let outcome = command_outcome(ended("node01", 0, "", "why\n"), true);
    assert_eq!(outcome.status, Status::Unreachable);
    let text = shown(&outcome);
    assert!(
        text.contains("unreachable"),
        "the Host never got as far as rshx asked: {text:?}"
    );
    assert!(
        text.contains("printed no pid"),
        "and rshx says why, under the Host's own line: {text:?}"
    );
    assert_eq!(
        outcome.stderr,
        b"rshx: the Host printed no pid, so the command was not started\nwhy\n"
    );
}

#[test]
fn a_detached_run_under_privilege_answers_its_own_password_prompt() {
    // The elevation is the launcher's, so sudo's prompt reaches the connection
    // rshx watches; the command inside runs as root already.
    let word = launch_word(&["id", "-u"], true);
    assert!(
        word.starts_with("sh -c 'sudo -S -p rshx-password: sh -c "),
        "the sudo is outside the launcher: {word}"
    );
    let payload = word.split_once("nohup").expect("the payload").1;
    assert!(
        !payload.contains("sudo"),
        "and the payload holds none of its own: {payload}"
    );
}

#[test]
fn a_detached_script_run_removes_its_own_copy() {
    let argv = script_ssh(&host("node01"), "/tmp/m", PATH, true, true);
    let word = argv.last().unwrap();
    assert!(
        word.contains(r#"rm -f -- "/tmp/tmp.abc123""#),
        "the copy goes with the script, not with the launch: {word}"
    );
    assert_eq!(
        word.matches("sudo").count(),
        1,
        "the launcher carries the one elevation: {word}"
    );
}

#[test]
fn the_pid_is_the_last_line_that_holds_anything() {
    assert_eq!(read_pid("banner\n 77 \n\n"), Some(77));
    assert_eq!(read_pid("4321"), Some(4321));
    assert_eq!(read_pid("+5\r\n"), Some(5));
    assert_eq!(read_pid(""), None);
    assert_eq!(read_pid("12\n \n"), None);
    assert_eq!(read_pid("4294967296"), None);
    assert_eq!(read_pid("-3"), None);
}

#[test]
fn a_launch_that_failed_is_left_as_it_is() {
    let outcome = launched_as(ended("h", 255, "77", "no"), "77");
    assert_eq!(outcome.status, Status::Unreachable);
    assert_eq!(outcome.pid, None);
    assert_eq!(outcome.stdout, b"77");
    assert_eq!(outcome.exit_code, Some(255));
}

// --- scripts ------------------------------------------------------------------------

/// The words a Host runs the copied script with, asserted verbatim.
fn run_argv(path: &str, privilege: bool) -> Vec<String> {
    let chain = format!(r#"'chmod +x -- "{path}" && "{path}"';"#);
    let mut argv = match privilege {
        true => vec!["sudo", "-S", "-p", "rshx-password:", "sh", "-c", &chain],
        false => vec!["sh", "-c", &chain],
    }
    .into_iter()
    .map(str::to_string)
    .collect::<Vec<String>>();
    argv.push(format!(r#"rc=$?; rm -f -- "{path}"; exit $rc"#));
    argv
}

#[test]
fn the_script_is_copied_to_a_temporary_file_and_run_from_it() {
    assert_eq!(
        COPY,
        r#"tmp=$(mktemp) || exit 1; cat > "$tmp" || { rm -f -- "$tmp"; exit 1; }; printf '%s' "$tmp""#
    );
    let copy = copy_ssh(&host("node01"), "/tmp/m");
    assert!(copy
        .last()
        .unwrap()
        .contains(&COPY.replace('\'', r"'\''")));
    let path = after_copy(ended("node01", 0, PATH, "")).unwrap();
    assert_eq!(path, PATH);
    assert_eq!(script_argv(&path, false), run_argv(PATH, false));
    let text = shown(&ended("node01", 0, "deployed\n", ""));
    assert!(
        text.contains("node01 ok") && text.contains("deployed"),
        "the script's own output is the Host's result: {text:?}"
    );
}

#[test]
fn the_scripts_exit_status_is_the_hosts() {
    let line = object(&ended("node01", 3, "halfway\n", "boom\n"));
    assert_eq!(line.status, "failed");
    assert_eq!(line.exit_code, Some(3), "the script's own status, not ssh's");
    assert_eq!(line.stdout, "halfway\n");
    assert_eq!(line.stderr, "boom\n");
}

#[test]
fn every_host_gets_its_own_copy_and_runs_its_own_path() {
    for (index, name) in ["node01", "node02", "node03"].iter().enumerate() {
        let printed = format!("/tmp/tmp.{index}");
        let path = after_copy(ended(name, 0, &printed, "")).unwrap();
        let argv = script_ssh(&host(name), "/tmp/m", &path, false, false);
        assert_eq!(&argv[..2], ["--", *name]);
        let text = run_argv(&printed, false).join(" ").replace('\'', r"'\''");
        assert!(
            argv[2].contains(&text),
            "{name} runs the file it was sent, not another Host's: {argv:?}"
        );
    }
}

#[test]
fn a_copy_that_fails_stops_before_anything_is_run() {
    let outcome = after_copy(ended("node01", 255, PATH, "")).unwrap_err();
    assert_eq!(
        outcome.status,
        Status::Unreachable,
        "ssh's own status stands"
    );
    assert_eq!(outcome.stderr, b"");
}

#[test]
fn a_host_that_prints_no_path_is_never_run_on() {
    // A copy that exits zero without saying where it put the file: there is
    // nothing to run, and the Host's own output is the only clue.
    let outcome = after_copy(ended("node01", 0, "who knows\n", "no /tmp here\n")).unwrap_err();
    assert_eq!(outcome.status, Status::Unreachable);
    let text = shown(&outcome);
    assert!(
        text.contains("no temporary path"),
        "rshx says why nothing ran: {text:?}"
    );
    assert!(
        text.contains("no /tmp here"),
        "and keeps what the Host printed: {text:?}"
    );
    assert_eq!(outcome.exit_code, Some(0));
}

#[test]
fn privilege_elevates_the_whole_chain_and_not_the_copy() {
    assert_eq!(script_argv(PATH, true), run_argv(PATH, true));
    let copy = copy_ssh(&host("node01"), "/tmp/m");
    assert!(!copy.last().unwrap().contains("sudo"));
}

#[test]
fn the_limit_covers_the_copy_and_the_run_together() {
    // Each step fits inside the second on its own; together they do not, so
    // the Host's limit is what the run is bounded by.
    let left = remaining(Some(SECOND), 600 * MS);
    assert_eq!(left, Some(400 * MS));
    let mut wait = Bounded::new(left, 42, 600 * MS, 0);
    assert_eq!(
        wait.next(1200 * MS, false, 0),
        Action::Terminate(Some(42)),
        "the two steps share one limit"
    );
    assert_eq!(remaining(Some(SECOND), 2 * SECOND), Some(0));
    assert_eq!(remaining(None, SECOND), None);
}

#[test]
fn the_heading_names_the_script() {
    let chrome = Reporter::new(ColorWhen::Never, Detail::default(), Format::Plain, true);
    let text = chrome
        .heading(&script_heading("deploy.sh"), 1, 32)
        .unwrap();
    let text = anstream::adapter::strip_str(&text).to_string();
    assert!(
        text.contains("deploy.sh (script)") && text.contains("1 host"),
        "the heading says what runs, and on how many Hosts: {text:?}"
    );
}

#[test]
fn a_script_that_cannot_be_read_is_a_local_error() {
    let err = check_script("nope.sh", Err("No such file".to_string())).unwrap_err();
    assert!(
        err.contains("nope.sh"),
        "the reason names the file: {err:?}"
    );
    assert_eq!(err, "could not read nope.sh: No such file");
}

#[test]
fn a_directory_is_not_a_script() {
    let err = check_script("scripts", Ok(false)).unwrap_err();
    assert_eq!(err, "scripts is not a file");
    assert!(check_script("deploy.sh", Ok(true)).is_ok());
}

#[test]
fn a_script_that_went_away_is_this_hosts_failure() {
    let o = script_gone("h", 3, "deploy.sh", "gone");
    assert_eq!(o.status, Status::Unreachable);
    assert_eq!(o.stderr, b"rshx: could not read deploy.sh: gone\n");
}

#[test]
fn only_a_plain_absolute_path_is_run() {
    assert_eq!(
        temporary_path(b"banner\n/tmp/tmp.X_1-2\n").unwrap(),
        "/tmp/tmp.X_1-2"
    );
    assert_eq!(temporary_path(b"/tmp/a\r\n\n").unwrap(), "/tmp/a");
    for printed in [
        &b""[..],
        &b"tmp/a"[..],
        &b"/tmp/a b"[..],
        &b"/tmp/$(x)"[..],
        &b"/tmp/a;b"[..],
        &b"/tmp/caf\xc3\xa9"[..],
        &b"\xff\n/tmp/a"[..],
        &b"/tmp/a\r"[..],
    ] {
        assert_eq!(temporary_path(printed), None, "{printed:?}");
    }
    let o = unreadable_path(ended("h", 0, "out", "err"));
    assert_eq!(
        o.stderr,
        b"rshx: the Host printed no temporary path, so the script was not run\nerr"
    );
    assert_eq!(o.stdout, b"out");
}

// --- the heartbeat --------------------------------------------------------------------

#[test]
fn the_slowest_host_is_named() {
    let mut beat = Heartbeat::new();
    assert_eq!(beat.longest_running(0), None);
    assert_eq!(beat.message(None, ""), "");
    beat.start("node02", 10);
    beat.start("node01", 10);
    beat.start("node03", 20);
    let longest = beat.longest_running(400 * MS);
    assert_eq!(
        longest,
        Some(("node02".to_string(), 400 * MS - 10)),
        "of two that started together, the later name"
    );
    assert_eq!(
        beat.message(longest, "0.4"),
        "3 running, node02 0.4s"
    );
    beat.finish(&ended("node02", 0, "", ""));
    assert_eq!(beat.done(), 1);
    assert_eq!(
        beat.longest_running(30),
        Some(("node01".to_string(), 20))
    );
    beat.finish(&ended("node01", 0, "", ""));
    beat.finish(&ended("node03", 0, "", ""));
    assert_eq!(beat.longest_running(30), None);
    assert_eq!(beat.done(), 3);
}

#[test]
fn a_host_that_starts_again_is_counted_once() {
    let mut beat = Heartbeat::new();
    beat.start("h", 5);
    beat.start("h", 9);
    assert_eq!(beat.longest_running(10), Some(("h".to_string(), 1)));
    assert_eq!(
        beat.message(beat.longest_running(10), "0.0"),
        "1 running, h 0.0s"
    );
}
