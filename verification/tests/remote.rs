//! The remote side of a run: the words a Host is handed.

use rshx::host::group::Groups;
use rshx::host::{load, Host, RawEntry, RawFile};
use rshx::remote::{
    detached, marked, marker, reason, run_token, ssh, stop_argv, stop_not_started, stop_ssh,
    stopped, stopped_saying, Waited, STOP,
};
use rshx::run::command::command_ssh;

const TOKEN: u64 = 0x1234_0000_5678;

fn words(words: &[&str]) -> Vec<String> {
    words.iter().map(|word| word.to_string()).collect()
}

fn host(name: &str) -> Host {
    let raw = RawFile {
        hosts: vec![RawEntry {
            name: name.to_string(),
            user: None,
            port: None,
            ip: None,
            unique_privilege_pass: false,
        }],
        groups: Groups::new(),
    };
    load(b"hosts.toml".to_vec(), Ok(raw)).unwrap().hosts.remove(0)
}

#[test]
fn the_stop_script_is_one_shell_word() {
    assert!(
        !STOP.contains('\''),
        "the script is handed over quoted in single quotes, so it holds none"
    );
}

#[test]
fn a_stop_hands_over_the_script_and_the_marker() {
    let plain = stop_argv("/tmp/m.pid", false, false);
    assert_eq!(
        plain,
        words(&["sh", "-c", &format!("'{STOP}'"), "/tmp/m.pid"]),
        "a stop runs as the Host's user unless the run elevated"
    );

    // Under `--privilege` the sudo is in front of the whole script, and the
    // marker rides behind it as `sh -c`'s `$0`.
    let given = stop_argv("/tmp/m.pid", true, true);
    assert_eq!(
        given[..4],
        ["sudo", "-S", "-p", ""],
        "a stop with the run's password writes it, and prompts for nothing: {given:?}"
    );
    assert_eq!(
        given[4..],
        ["--", "sh", "-c", &format!("'{STOP}'"), "/tmp/m.pid"],
        "and the script is still one word: {given:?}"
    );
    let asked = stop_argv("/tmp/m.pid", true, false);
    assert_eq!(
        asked[..3],
        ["sudo", "-n", "--"],
        "with no password in hand, only a sudo that wants none may run it: {asked:?}"
    );
}

#[test]
fn a_marker_is_one_path_a_shell_cannot_read_into() {
    // The marker is written into the payload and into the stop script as
    // text, so it holds nothing either shell could act on.
    let one = marker(TOKEN, "node01");
    assert!(
        one.starts_with("/tmp/rshx-") && one.ends_with("-node01.pid"),
        "the run and the Host it is on: {one}"
    );
    assert!(
        one.chars()
            .all(|c| c.is_ascii_alphanumeric() || matches!(c, '/' | '.' | '_' | '-')),
        "and nothing a shell reads: {one}"
    );
    assert_ne!(one, marker(TOKEN, "node02"), "one marker per Host");
    assert_eq!(one, "/tmp/rshx-123400005678-node01.pid");
}

#[test]
fn a_marked_command_is_one_quoted_word_for_the_login_shell() {
    // The Host's login shell is whatever its user runs — fish, csh, bash —
    // so rshx hands it `sh -c` and one word, quoted so that word arrives
    // whole however that shell reads quotes.
    let line = marked("/tmp/m.pid", &words(&["echo", "it's", "mine"]));
    let quoted = line
        .strip_prefix("sh -c '")
        .unwrap_or_else(|| panic!("sh -c and a quoted word: {line}"))
        .strip_suffix('\'')
        .unwrap_or_else(|| panic!("the word ends: {line}"));
    assert!(
        !quoted.replace(r"'\''", "").contains('\''),
        "every quote the command brought is escaped, so none of them closes \
         the word early: {line}"
    );
    assert_eq!(
        line,
        r#"sh -c 'm=/tmp/m.pid; echo $$ > "$m" 2>/dev/null; ( echo it'\''s mine ); rc=$?; rm -f -- "$m"; exit $rc'"#
    );
}

#[test]
fn a_detached_launch_under_privilege_elevates_the_launcher_alone() {
    let line = detached("/tmp/run.pid", "id -u", true);

    // The sudo is outside the launcher, so its prompt is written to the
    // connection — where rshx watches for it — rather than to the run's
    // own streams, which go nowhere.
    assert!(
        line.starts_with("sh -c 'sudo -S -p rshx-password: sh -c "),
        "the elevation is the launcher's: {line}"
    );
    // And only outside: the payload runs as root already, so a second
    // elevation would be rshx's own sudo asking again.
    let payload = line
        .split_once("nohup")
        .expect("the launcher backgrounds the payload")
        .1;
    assert!(
        !payload.contains("sudo"),
        "the payload holds no elevation of its own: {payload}"
    );
}

#[test]
fn a_detached_launch_is_spelled_out() {
    assert_eq!(
        detached("/tmp/m", "sleep 300", false),
        r#"sh -c 'nohup sh -c '\''echo $$ > "/tmp/m" 2>/dev/null; ( sleep 300 ); rc=$?; rm -f -- "/tmp/m"; exit $rc'\'' >/dev/null 2>&1 </dev/null & echo $!'"#
    );
}

/// What a shell makes of one word.
fn shell_word(word: &str) -> Option<String> {
    let mut out = String::new();
    let mut quoted = false;
    let mut rest = word.chars();
    while let Some(c) = rest.next() {
        match c {
            '\'' => quoted = !quoted,
            '\\' if !quoted => out.push(rest.next()?),
            c => out.push(c),
        }
    }
    (!quoted).then_some(out)
}

#[test]
fn a_script_with_quotes_arrives_whole() {
    for command in ["it's", "''", "a 'b' c", r"\'", "plain"] {
        let line = marked("/m", &words(&[command]));
        let word = line.strip_prefix("sh -c ").unwrap();
        assert_eq!(
            shell_word(word).unwrap(),
            format!(
                "m=/m; echo $$ > \"$m\" 2>/dev/null; ( {command} ); rc=$?; rm -f -- \"$m\"; exit $rc"
            )
        );
    }
}

#[test]
fn a_token_mixes_the_pid_and_the_clock() {
    assert_eq!(run_token(0x1234, 0x5678), TOKEN);
    assert_eq!(run_token(0, 0), 0);
    assert_eq!(run_token(u32::MAX, u32::MAX), u64::MAX);
    assert_ne!(run_token(1, 2), run_token(2, 1));
}

#[test]
fn a_stop_connection_may_not_prompt() {
    let argv = stop_ssh(&host("node01"), "/tmp/m.pid", false, false);
    assert_eq!(
        argv,
        words(&[
            "-o",
            "BatchMode=yes",
            "--",
            "node01",
            "sh",
            "-c",
            &format!("'{STOP}'"),
            "/tmp/m.pid"
        ])
    );
}

#[test]
fn extra_options_stand_before_the_destination() {
    assert_eq!(
        ssh(&host("n"), &[("A", "1"), ("B", "2")]),
        words(&["-o", "A=1", "-o", "B=2", "--", "n"])
    );
}

#[test]
fn a_stop_says_why_it_failed() {
    assert_eq!(stopped(false, Waited::Ended(Some(0)), b"ignored"), Ok(()));
    assert_eq!(
        stopped(true, Waited::Ended(Some(0)), b""),
        Err("the stop connection did not finish in time".to_string())
    );
    assert_eq!(
        stopped(false, Waited::Ended(Some(255)), b"  refused\n"),
        Err("refused".to_string())
    );
    assert_eq!(
        stopped(false, Waited::Ended(Some(255)), b"\xff\n"),
        Err("\u{fffd}".to_string())
    );
    assert_eq!(
        stopped(false, Waited::Lost("gone".to_string()), b""),
        Err("could not read the stop connection's status: gone".to_string())
    );
    assert_eq!(stop_not_started("nope"), "could not run ssh: nope");
}

#[test]
fn a_reason_falls_back_to_the_status() {
    assert_eq!(
        reason(" \u{a0}\n\t", Some(-1)),
        "ssh exited with status -1"
    );
    assert_eq!(reason("", Some(7)), "ssh exited with status 7");
    assert_eq!(reason("", None), "the connection was killed");
    assert_eq!(reason("\u{3000}why \u{2003}", None), "why");
}

#[test]
fn a_run_hands_the_command_over_as_one_word() {
    let argv = command_ssh(
        &host("node01"),
        "/tmp/m",
        &words(&["uptime", "-p", "--since", "1 day ago"]),
        false,
        false,
    );
    assert_eq!(argv.len(), 3);
    assert_eq!(argv[..2], ["--", "node01"]);
    assert!(argv[2].contains("( uptime -p --since 1 day ago )"));
}

#[test]
fn a_stop_is_judged_by_what_its_stderr_reads_as() {
    assert_eq!(stopped_saying(false, Waited::Ended(Some(0)), "x"), Ok(()));
    assert_eq!(
        stopped_saying(false, Waited::Ended(Some(1)), " no \n"),
        Err("no".to_string())
    );
    assert_eq!(
        stopped_saying(false, Waited::Ended(None), ""),
        Err("the connection was killed".to_string())
    );
}

#[test]
fn markers_of_different_runs_differ() {
    assert_ne!(marker(1, "1-x"), marker(0x11, "x"));
    assert_ne!(marker(1, "x"), marker(2, "x"));
    assert_eq!(marker(0, "x"), "/tmp/rshx-0-x.pid");
}

#[test]
fn only_rshx_itself_adds_options() {
    let mut node = host("node01");
    node.user = Some("a-b".to_string());
    node.port = Some(22);
    node.ip = Some("::1".to_string());
    let argv = ssh(&node, &[]);
    assert_eq!(
        argv,
        words(&[
            "-o",
            "User=a-b",
            "-o",
            "Port=22",
            "-o",
            "HostName=::1",
            "--",
            "node01"
        ])
    );
    for word in argv.iter().filter(|word| word.starts_with('-')) {
        assert!(word == "-o" || word == "--", "{word}");
    }
}

#[test]
fn the_privileged_launcher_is_the_plain_one_under_sudo() {
    let plain = detached("/m", "x", false);
    let raised = detached("/m", "x", true);
    let inner = plain.strip_prefix("sh -c ").unwrap();
    let launcher = shell_word(inner).unwrap();
    let line = shell_word(raised.strip_prefix("sh -c ").unwrap()).unwrap();
    let word = line
        .strip_prefix("sudo -S -p rshx-password: sh -c ")
        .unwrap();
    assert_eq!(shell_word(word).unwrap(), launcher);
}
