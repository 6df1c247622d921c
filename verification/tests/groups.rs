//! Host groups and selection: nesting, cycles and the reserved `all`.

use rshx::host::group::Groups;
use rshx::host::{load, HostFile, RawEntry, RawFile};

fn entry(name: &str) -> RawEntry {
    RawEntry {
        name: name.to_string(),
        user: None,
        port: None,
        ip: None,
        unique_privilege_pass: false,
    }
}

fn words(words: &[&str]) -> Vec<String> {
    words.iter().map(|word| word.to_string()).collect()
}

fn try_file(path: &str, hosts: &[&str], groups: &[(&str, &[&str])]) -> Result<HostFile, String> {
    let mut declared = Groups::new();
    for (name, selectors) in groups {
        declared.insert(name.to_string(), words(selectors));
    }
    let raw = RawFile {
        hosts: hosts.iter().map(|name| entry(name)).collect(),
        groups: declared,
    };
    load(path.as_bytes().to_vec(), Ok(raw))
}

fn file(hosts: &[&str], groups: &[(&str, &[&str])]) -> HostFile {
    try_file("hosts.toml", hosts, groups).unwrap()
}

/// A host file describing two clusters and some groups over them.
fn estate() -> HostFile {
    file(
        &["web[01-03]", "db01", "db02", "cache01"],
        &[
            ("web", &["web[01-03]"]),
            ("db", &["db01", "db02"]),
            ("prod", &["web", "db"]),
            ("everything", &["web[01-03]", "db01", "db02", "cache01"]),
        ],
    )
}

fn selected(file: &HostFile, groups: &[&str]) -> Result<Vec<String>, String> {
    let chosen = file.select(&words(groups))?;
    Ok(chosen.iter().map(|host| host.name.clone()).collect())
}

/// The Hosts `estate` selects for these `-g` values, in order.
fn select(groups: &[&str]) -> Result<Vec<String>, String> {
    selected(&estate(), groups)
}

#[test]
fn a_group_runs_only_the_hosts_it_selects() {
    assert_eq!(select(&["web"]).unwrap(), ["web01", "web02", "web03"]);
    assert_eq!(select(&["db"]).unwrap(), ["db01", "db02"]);
}

#[test]
fn no_group_runs_every_host() {
    assert_eq!(
        select(&[]).unwrap(),
        ["web01", "web02", "web03", "db01", "db02", "cache01"]
    );
}

#[test]
fn several_groups_are_a_union_with_each_host_once() {
    let union = select(&["web", "db"]).unwrap();
    assert_eq!(union, ["web01", "web02", "web03", "db01", "db02"]);

    // Naming the same group twice, and overlapping groups, still run each
    // Host exactly once.
    let repeated = select(&["web", "web"]).unwrap();
    assert_eq!(repeated, ["web01", "web02", "web03"]);

    let overlapping = select(&["web", "prod"]).unwrap();
    assert_eq!(overlapping, ["web01", "web02", "web03", "db01", "db02"]);
}

#[test]
fn a_pattern_selector_selects_every_host_it_expands_to() {
    assert_eq!(select(&["web"]).unwrap().len(), 3);
    assert_eq!(
        select(&["everything"]).unwrap(),
        ["web01", "web02", "web03", "db01", "db02", "cache01"]
    );
}

#[test]
fn child_groups_are_expanded_recursively() {
    assert_eq!(
        select(&["prod"]).unwrap(),
        ["web01", "web02", "web03", "db01", "db02"]
    );
}

#[test]
fn a_group_reachable_by_two_paths_contributes_each_host_once() {
    let file = file(
        &["node01", "node02"],
        &[
            ("left", &["node01"]),
            ("right", &["node01", "node02"]),
            ("both", &["left", "right"]),
        ],
    );
    assert_eq!(
        selected(&file, &["both"]).unwrap(),
        ["node01", "node02"],
        "each selected Host runs, and the duplicate was dropped"
    );
}

#[test]
fn a_cycle_among_groups_is_an_error_naming_the_cycle() {
    let file = file(&["node01"], &[("a", &["b"]), ("b", &["c"]), ("c", &["a"])]);
    let err = selected(&file, &["a"]).unwrap_err();
    assert!(err.contains("cycle"), "{err}");
    for name in ["a", "b", "c"] {
        assert!(err.contains(name), "the cycle is named in full: {err}");
    }
    assert_eq!(err, "groups form a cycle: a -> b -> c -> a");
}

#[test]
fn an_unknown_group_is_an_error_listing_the_known_ones() {
    let err = select(&["nope"]).unwrap_err();
    assert!(err.contains("nope"), "{err}");
    assert!(
        err.contains("web") && err.contains("db"),
        "the message lists what is declared: {err}"
    );
    assert_eq!(
        err,
        "no group `nope`; the host file declares db, everything, prod, web"
    );
}

#[test]
fn a_selector_matching_no_host_is_an_error() {
    // `web` matches nothing here, so asking for it would silently run on
    // fewer Hosts than the user meant.
    let file = file(&["db01"], &[("web", &["web[01-03]"]), ("typo", &["db0"])]);
    for (group, missing) in [("web", "web[01-03]"), ("typo", "db0")] {
        let err = selected(&file, &[group]).unwrap_err();
        assert!(
            err.contains(missing),
            "group {group}: the unmatched selector is named: {err}"
        );
        assert!(err.contains("matches no Host"), "group {group}: {err}");
    }
    assert_eq!(
        selected(&file, &["typo"]).unwrap_err(),
        "group `typo` selects `db0`, which matches no Host in the host file; \
         a group that silently selects nothing is a typo"
    );
}

#[test]
fn all_is_reserved() {
    let err = try_file("hosts.toml", &["node01"], &[("all", &["node01"])]).unwrap_err();
    assert!(err.contains("reserved"), "`all` cannot be redefined: {err}");
    assert_eq!(
        err,
        "hosts.toml: `all` is reserved and cannot be declared as a group"
    );
}

#[test]
fn all_selects_every_host_when_it_is_not_redefined() {
    assert_eq!(
        select(&["all"]).unwrap(),
        ["web01", "web02", "web03", "db01", "db02", "cache01"]
    );
}

#[test]
fn groups_are_resolved_against_the_file_that_h_chose() {
    let a = try_file("a.toml", &["from-a"], &[("g", &["from-a"])]).unwrap();
    let b = try_file("b.toml", &["from-b"], &[("g", &["from-b"])]).unwrap();
    for (file, expected) in [(&a, "from-a"), (&b, "from-b")] {
        assert_eq!(selected(file, &["g"]).unwrap(), [expected]);
    }
    assert_eq!(a.path, b"a.toml");
    assert_eq!(b.path, b"b.toml");
}

#[test]
fn a_group_selecting_a_host_declared_by_a_pattern_selects_it_once() {
    let file = file(&["node[01-03]"], &[("some", &["node01", "node[02-03]"])]);
    let hosts = selected(&file, &["some"]).unwrap();
    assert_eq!(hosts.len(), 3, "{hosts:?}");
    assert_eq!(hosts, ["node01", "node02", "node03"]);
}

#[test]
fn a_group_may_select_hosts_declared_by_several_entries() {
    assert_eq!(
        select(&["everything"]).unwrap(),
        ["web01", "web02", "web03", "db01", "db02", "cache01"]
    );
}

#[test]
fn the_order_of_the_groups_changes_nothing() {
    assert_eq!(select(&["db", "web"]), select(&["web", "db", "db"]));
}

#[test]
fn a_file_without_groups_says_so() {
    let file = file(&["node01"], &[]);
    assert_eq!(
        selected(&file, &["web"]).unwrap_err(),
        "no group `web`: the host file declares no groups"
    );
}

#[test]
fn a_pattern_that_cannot_be_read_names_the_group_that_selects_it() {
    let file = file(&["node01"], &[("bad", &["node[2-1]"])]);
    assert_eq!(
        selected(&file, &["bad"]).unwrap_err(),
        "group `bad` selects `node[2-1]`: `node[2-1]`: range `2-1` counts down; ranges must ascend"
    );
}

#[test]
fn a_cycle_is_named_from_where_it_begins() {
    let file = file(&["n"], &[("top", &["x"]), ("x", &["y"]), ("y", &["x"])]);
    assert_eq!(
        selected(&file, &["top"]).unwrap_err(),
        "groups form a cycle: x -> y -> x"
    );
}

#[test]
fn the_first_group_that_is_wrong_decides_the_error() {
    assert_eq!(
        select(&["web", "first", "second"]).unwrap_err(),
        "no group `first`; the host file declares db, everything, prod, web"
    );
}

#[test]
fn a_group_inserted_twice_is_replaced() {
    let mut groups = Groups::new();
    groups.insert("g".to_string(), words(&["a"]));
    groups.insert("f".to_string(), words(&["a"]));
    groups.insert("g".to_string(), words(&["b"]));
    let raw = RawFile {
        hosts: vec![entry("a"), entry("b")],
        groups,
    };
    let file = load(b"h".to_vec(), Ok(raw)).unwrap();
    assert_eq!(selected(&file, &["g"]).unwrap(), ["b"]);
    assert_eq!(selected(&file, &["f"]).unwrap(), ["a"]);
}

#[test]
fn a_pattern_selects_only_the_hosts_that_are_declared() {
    let file = file(&["node02", "node05"], &[("g", &["node[01-04]"])]);
    assert_eq!(selected(&file, &["g"]).unwrap(), ["node02"]);
}

#[test]
fn a_selector_deep_down_that_matches_nothing_refuses_the_group() {
    let file = file(
        &["n"],
        &[("top", &["n", "mid"]), ("mid", &["low"]), ("low", &["gone"])],
    );
    assert_eq!(
        selected(&file, &["top"]).unwrap_err(),
        "group `low` selects `gone`, which matches no Host in the host file; \
         a group that silently selects nothing is a typo"
    );
}
