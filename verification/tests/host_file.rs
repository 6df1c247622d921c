//! The host file: overrides, validation, and where it is found.

use rshx::host::group::Groups;
use rshx::host::{
    config_dir, config_path, load, locate, resolve_path, validate_name, validate_user, HostFile, RawEntry,
    RawFile,
};
use rshx::remote::ssh;
use rshx::report::{host_file_found, host_file_found_as, ColorWhen};

fn entry(name: &str) -> RawEntry {
    RawEntry {
        name: name.to_string(),
        user: None,
        port: None,
        ip: None,
        unique_privilege_pass: false,
    }
}

fn file(hosts: Vec<RawEntry>) -> Result<HostFile, String> {
    let raw = RawFile {
        hosts,
        groups: Groups::new(),
    };
    load(b"hosts.toml".to_vec(), Ok(raw))
}

fn node01(user: Option<&str>, port: Option<u16>, ip: Option<&str>) -> RawEntry {
    let mut node = entry("node01");
    node.user = user.map(str::to_string);
    node.port = port;
    node.ip = ip.map(str::to_string);
    node
}

/// The arguments ssh is given for `name`.
fn argv_for(file: &HostFile, name: &str) -> Vec<String> {
    let host = file.hosts.iter().find(|host| host.name == name).unwrap();
    ssh(host, &[])
}

/// The `-o` options among them.
fn options_for(file: &HostFile, name: &str) -> Vec<String> {
    argv_for(file, name)
        .windows(2)
        .filter(|pair| pair[0] == "-o")
        .map(|pair| pair[1].clone())
        .collect()
}

/// The destination: the argument after the `--` separator.
fn destination(argv: &[String]) -> Option<&str> {
    let separator = argv.iter().position(|arg| arg == "--")?;
    argv.get(separator + 1).map(String::as_str)
}

#[test]
fn each_override_reaches_ssh_as_its_own_option() {
    let file = file(vec![node01(Some("alice"), Some(2200), Some("10.0.0.1"))]).unwrap();
    assert_eq!(
        options_for(&file, "node01"),
        ["User=alice", "Port=2200", "HostName=10.0.0.1"]
    );
}

#[test]
fn an_entry_with_only_a_name_adds_no_options() {
    let file = file(vec![entry("node01")]).unwrap();
    assert!(
        options_for(&file, "node01").is_empty(),
        "a bare name leaves connection configuration to ~/.ssh/config"
    );
    assert_eq!(
        argv_for(&file, "node01"),
        vec!["--", "node01"],
        "no stray arguments"
    );
}

#[test]
fn the_destination_stays_the_name_even_when_overridden() {
    let file = file(vec![node01(Some("alice"), Some(2200), Some("10.0.0.1"))]).unwrap();
    let argv = argv_for(&file, "node01");
    assert_eq!(
        destination(&argv),
        Some("node01"),
        "ssh still resolves the Host by its name, so ~/.ssh/config applies: {argv:?}"
    );
    assert!(
        !argv.iter().any(|a| a.contains("alice@") || a.contains('@')),
        "the user is not folded into the destination: {argv:?}"
    );
}

#[test]
fn a_pattern_carries_user_and_port_to_every_host_it_expands_to() {
    let mut gpu = entry("gpu[01-03]");
    gpu.user = Some("gpuadmin".to_string());
    gpu.port = Some(2222);
    let file = file(vec![gpu]).unwrap();
    for name in ["gpu01", "gpu02", "gpu03"] {
        assert_eq!(
            options_for(&file, name),
            ["User=gpuadmin", "Port=2222"],
            "{name} carries the pattern's overrides"
        );
    }
}

#[test]
fn an_ip_on_a_pattern_is_rejected_with_a_reason() {
    let mut gpu = entry("gpu[01-03]");
    gpu.ip = Some("10.0.0.1".to_string());
    let err = file(vec![gpu]).unwrap_err();
    assert!(err.contains("host pattern"), "the message says why: {err}");
    assert!(err.contains("gpu[01-03]"), "{err}");
    assert_eq!(
        err,
        "hosts.toml: entry 1 (`gpu[01-03]`): `ip` cannot be set on a host pattern; \
         an address belongs to one Host, so declare them separately"
    );
}

#[test]
fn a_user_that_could_inject_ssh_options_is_rejected() {
    // `user` reaches ssh inside an -o value, so a newline or space there
    // would be a second config directive.
    for user in [
        "alice\nProxyCommand=evil",
        "alice bob",
        "alice=root",
        "",
        "alice@prod",
    ] {
        let err = file(vec![node01(Some(user), None, None)]).unwrap_err();
        assert!(err.contains("user"), "the message names the field: {err}");
    }
}

#[test]
fn a_user_may_not_begin_with_a_hyphen() {
    assert_eq!(
        validate_user("-root").unwrap_err(),
        "user `-root` may not begin with `-`"
    );
    assert!(validate_user("ro-ot").is_ok());
}

#[test]
fn rshx_passes_the_options_ssh_needs_to_keep_reading_the_config() {
    let file = file(vec![node01(Some("alice"), None, Some("10.0.0.1"))]).unwrap();
    let argv = argv_for(&file, "node01");
    let options = options_for(&file, "node01");
    assert_eq!(
        options,
        ["User=alice", "HostName=10.0.0.1"],
        "the overrides go through as options, and nothing else does"
    );
    assert!(
        !argv.iter().any(|arg| arg == "-F"),
        "no config file is substituted for the user's, so ssh reads their own: {argv:?}"
    );
    assert!(
        !argv.iter().any(|arg| arg.contains("ProxyCommand")
            || arg.contains("IdentityFile")
            || arg.contains("ProxyJump")),
        "and nothing ssh would otherwise resolve is overridden: {argv:?}"
    );
}

#[test]
fn rejects_names_that_are_not_on_the_whitelist() {
    for (name, bad) in [
        ("root@prod", "@"),
        ("node/01", "/"),
        ("node 01", " "),
        ("-node01", "`-`"),
    ] {
        let err = file(vec![entry(name)]).unwrap_err();
        assert!(
            err.contains(bad),
            "{name:?} should be rejected with a reason mentioning {bad}: {err}"
        );
    }
}

#[test]
fn rejects_two_entries_declaring_the_same_name() {
    let err = file(vec![entry("node01"), entry("node01")]).unwrap_err();
    assert!(
        err.contains("node01") && err.contains('1') && err.contains('2'),
        "the error names both entries: {err}"
    );
}

#[test]
fn a_missing_host_file_is_a_local_error() {
    let err = load(b"nope.toml".to_vec(), Err("No such file".to_string())).unwrap_err();
    assert!(err.contains("nope.toml"), "{err}");
    assert_eq!(err, "nope.toml: No such file");
}

#[test]
fn a_toml_syntax_error_keeps_the_parser_line_and_column() {
    let parsed = "[[hosts]\nname = \"node01\"\n".parse::<toml::Table>();
    let message = parsed.unwrap_err().to_string();
    let err = load(b"broken.toml".to_vec(), Err(message)).unwrap_err();
    assert!(
        err.contains("line 1") && err.contains("column"),
        "the parser's position survives into the message: {err}"
    );
}

#[test]
fn the_host_file_is_found_by_default() {
    let config = Some(b"xdg/rshx/hosts.toml".to_vec());
    assert_eq!(
        resolve_path(None, true, config.clone(), false).unwrap(),
        b"rshx.toml"
    );
    // A host file in the current directory wins over the config directory.
    assert_eq!(
        resolve_path(None, true, config.clone(), true).unwrap(),
        b"rshx.toml",
        "./rshx.toml is tried before the config directory"
    );
    // With no local file, the config directory is used.
    assert_eq!(
        resolve_path(None, false, config.clone(), true).unwrap(),
        b"xdg/rshx/hosts.toml",
        "the config directory is the fallback"
    );
    // An explicit path is used as written.
    assert_eq!(
        resolve_path(Some(b"typo.toml".to_vec()), true, config.clone(), true).unwrap(),
        b"typo.toml"
    );
    for (config, exists) in [(config, false), (None, true)] {
        assert_eq!(
            resolve_path(None, false, config, exists).unwrap_err(),
            "no host file: pass --host-file FILE, or create ./rshx.toml"
        );
    }
}

#[test]
fn a_host_file_nobody_asked_for_is_named() {
    let config = Some(b"xdg/rshx/hosts.toml".to_vec());
    let asked = locate(Some(b"typo.toml".to_vec()), true, config.clone(), true).unwrap();
    assert_eq!(asked.path, b"typo.toml");
    assert!(!asked.found, "the one asked for needs no naming");
    let local = locate(None, true, config.clone(), true).unwrap();
    assert_eq!(local.path, b"rshx.toml");
    assert!(local.found);
    let fallback = locate(None, false, config.clone(), true).unwrap();
    assert_eq!(fallback.path, b"xdg/rshx/hosts.toml");
    assert!(fallback.found);
    assert_eq!(
        locate(None, false, config, false).unwrap_err(),
        "no host file: pass --host-file FILE, or create ./rshx.toml"
    );

    let line = host_file_found(&local.path, ColorWhen::Auto);
    assert_eq!(
        line,
        "rshx: \u{1b}[1m\u{1b}[34minfo:\u{1b}[0m host file rshx.toml\n"
    );
    assert_eq!(host_file_found_as("rshx.toml", ColorWhen::Auto), line);
    assert_eq!(
        host_file_found(b"h\xff", ColorWhen::Auto),
        host_file_found_as("h\u{fffd}", ColorWhen::Auto)
    );
}

#[test]
fn the_config_directory_comes_from_the_environment() {
    let dir = |xdg: Option<&str>, home: Option<&str>| {
        config_dir(
            xdg.map(|v| v.as_bytes().to_vec()),
            home.map(|v| v.as_bytes().to_vec()),
        )
    };
    assert_eq!(dir(Some("/x"), Some("/h")), Some(b"/x".to_vec()));
    assert_eq!(dir(Some(""), Some("/h")), Some(b"/h/.config".to_vec()));
    assert_eq!(dir(None, Some("/h/")), Some(b"/h/.config".to_vec()));
    assert_eq!(dir(None, Some("")), None);
    assert_eq!(dir(Some(""), None), None);
    assert_eq!(config_path(b"/x"), b"/x/rshx/hosts.toml");
    assert_eq!(config_path(b"/x/"), b"/x/rshx/hosts.toml");
}

#[test]
fn each_rejected_name_says_exactly_why() {
    assert_eq!(validate_name("").unwrap_err(), "a name may not be empty");
    assert_eq!(
        validate_name("-a").unwrap_err(),
        "name `-a` may not begin with `-`"
    );
    assert_eq!(
        validate_name("a@b").unwrap_err(),
        "name `a@b` contains `@`; a name may contain only letters, digits, `.`, `_` and `-`"
    );
    assert!(validate_name("A.z_0-9").is_ok());
    assert_eq!(validate_user("").unwrap_err(), "`user` may not be empty");
    assert_eq!(
        validate_user("a b").unwrap_err(),
        "user `a b` contains ` `; a user may contain only letters, digits, `.`, `_` and `-`"
    );
    assert_eq!(
        validate_name("caf\u{e9}").unwrap_err(),
        "name `caf\u{e9}` contains `\u{e9}`; \
         a name may contain only letters, digits, `.`, `_` and `-`"
    );
}

#[test]
fn the_first_entry_that_is_wrong_decides_the_error() {
    let mut second = entry("n[2-1]");
    second.user = Some("a b".to_string());
    let err = file(vec![entry("ok"), second, entry("ok")]).unwrap_err();
    assert_eq!(
        err,
        "hosts.toml: entry 2 (`n[2-1]`): user `a b` contains ` `; \
         a user may contain only letters, digits, `.`, `_` and `-`"
    );
}

#[test]
fn a_path_that_is_not_utf8_is_still_named() {
    let err = load(b"h\xff.toml".to_vec(), Err("gone".to_string())).unwrap_err();
    assert_eq!(err, "h\u{fffd}.toml: gone");
}
