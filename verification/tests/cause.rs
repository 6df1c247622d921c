//! Causes: what ssh's stderr is taken to say.

use rshx::cause::Cause;

fn infer(text: &str) -> Option<Cause> {
    Cause::infer(text.as_bytes())
}

#[test]
fn real_ssh_failures_are_classified() {
    // Wording taken from OpenSSH 10.5p1.
    assert_eq!(
        infer("charon@127.0.0.1: Permission denied (publickey).\n"),
        Some(Cause::Auth)
    );
    assert_eq!(
        infer("Received disconnect from 127.0.0.1 port 2222:2: Too many authentication failures\n"),
        Some(Cause::Auth)
    );
    assert_eq!(
        infer(
            "@@@@@@@@@@@@@@@@@@@@@@@@@@@@@@@@@@@@@@@@@@@@@@@@@@@@@@@@@@@@\nHost key verification failed.\n"
        ),
        Some(Cause::Auth)
    );
    assert_eq!(
        infer("ssh: Could not resolve hostname nope: Name or service not known\n"),
        Some(Cause::Dns)
    );
    assert_eq!(
        infer("ssh: connect to host 127.0.0.1 port 22: Connection refused\n"),
        Some(Cause::Connect)
    );
    assert_eq!(
        infer("ssh: connect to host example port 22: Connection timed out\n"),
        Some(Cause::Connect)
    );
    assert_eq!(
        infer("ssh: connect to host example port 22: No route to host\n"),
        Some(Cause::Connect)
    );
}

#[test]
fn unrelated_failures_get_no_cause() {
    assert_eq!(infer("bash: nope: command not found\n"), None);
    assert_eq!(infer(""), None);
}

#[test]
fn a_remote_commands_own_permission_error_looks_like_an_auth_failure() {
    // ssh folds the remote command's stderr together with its own, so a remote
    // `Permission denied` is indistinguishable from an authentication failure
    // here. That is why `cause` is advisory and never changes a status or an
    // exit code.
    assert_eq!(
        infer("cat: /etc/shadow: Permission denied\n"),
        Some(Cause::Auth)
    );
}

#[test]
fn classification_is_case_insensitive() {
    assert_eq!(infer("PERMISSION DENIED\n"), Some(Cause::Auth));
    assert_eq!(infer("Connection Refused\n"), Some(Cause::Connect));
}

#[test]
fn the_cause_is_a_short_stable_word() {
    assert_eq!(Cause::Auth.as_str(), "auth");
    assert_eq!(Cause::Dns.as_str(), "dns");
    assert_eq!(Cause::Connect.as_str(), "connect");
}

#[test]
fn every_wording_points_to_its_cause() {
    for wording in [
        "permission denied",
        "authentication failed",
        "too many authentication failures",
        "no supported authentication methods",
        "host key verification failed",
        "remote host identification has changed",
        "no matching host key",
    ] {
        assert_eq!(infer(wording), Some(Cause::Auth), "{wording}");
    }
    for wording in [
        "could not resolve hostname",
        "name or service not known",
        "nodename nor servname provided",
        "temporary failure in name resolution",
        "no address associated with hostname",
    ] {
        assert_eq!(infer(wording), Some(Cause::Dns), "{wording}");
    }
    for wording in [
        "connection refused",
        "connection timed out",
        "connection closed by",
        "connection reset by",
        "no route to host",
        "network is unreachable",
        "operation timed out",
        "broken pipe",
    ] {
        assert_eq!(infer(wording), Some(Cause::Connect), "{wording}");
    }
}

#[test]
fn an_auth_wording_outranks_the_others_and_survives_stray_bytes() {
    assert_eq!(
        infer("Connection refused\nPermission denied\n"),
        Some(Cause::Auth)
    );
    assert_eq!(
        infer("Connection refused\nName or service not known\n"),
        Some(Cause::Dns)
    );
    assert_eq!(
        Cause::infer(b"\xff\xfe Permission denied \xe9"),
        Some(Cause::Auth)
    );
    assert_eq!(Cause::infer(b"Permission\xffdenied"), None);
}

#[test]
fn more_output_loses_no_cause() {
    assert_eq!(infer("broken pipe"), Some(Cause::Connect));
    assert_eq!(infer("broken pipe, then more"), Some(Cause::Connect));
    assert_eq!(
        infer("broken pipe, then permission denied"),
        Some(Cause::Auth)
    );
    assert_eq!(infer("some, then broken pipe"), Some(Cause::Connect));
    assert_eq!(
        infer("name or service not known, then broken pipe, then more"),
        Some(Cause::Dns)
    );
    assert_eq!(
        infer("permission denied, then name or service not known"),
        Some(Cause::Auth)
    );
}
