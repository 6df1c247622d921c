//! Host patterns: one bracketed range per name, expanded to many Hosts.

use rshx::host::group::Groups;
use rshx::host::pattern::{expand as expand_name, MAX_EXPANSION};
use rshx::host::{load, RawEntry, RawFile};

fn entry(name: &str) -> RawEntry {
    RawEntry {
        name: name.to_string(),
        user: None,
        port: None,
        ip: None,
        unique_privilege_pass: false,
    }
}

/// Loads a host file of these entries, and returns the Hosts it declares.
fn declared(names: &[&str]) -> Result<Vec<String>, String> {
    let raw = RawFile {
        hosts: names.iter().map(|name| entry(name)).collect(),
        groups: Groups::new(),
    };
    let file = load(b"hosts.toml".to_vec(), Ok(raw))?;
    Ok(file.hosts.iter().map(|host| host.name.clone()).collect())
}

/// Loads a one-entry host file and returns the Hosts it declares, in order.
fn expand(name: &str) -> Result<Vec<String>, String> {
    declared(&[name])
}

#[test]
fn a_range_at_the_cap_expands_and_one_over_it_is_rejected() {
    let at_the_cap = expand_name(&format!("n[0-{}]", MAX_EXPANSION - 1)).unwrap();
    assert_eq!(at_the_cap.len(), MAX_EXPANSION);

    let over = expand_name(&format!("n[0-{MAX_EXPANSION}]")).unwrap_err();
    assert!(over.contains("expands to more than"), "{over}");
}

#[test]
fn the_cap_counts_every_item_in_the_range_list() {
    // Each item is under the cap on its own; together they are over it.
    let half = MAX_EXPANSION / 2 + 1;
    let name = format!("n[0-{},0-{}]", half - 1, half - 1);
    let err = expand_name(&name).unwrap_err();
    assert!(err.contains("expands to more than"), "{err}");
}

#[test]
fn an_oversized_range_does_not_depend_on_its_size() {
    // The check happens before allocation, so a billion-wide range costs
    // the same as a two-wide one.
    for name in [
        "n[1-999999999]",
        "n[0-4294967295]",
        "n[0-65536]",
        "n[0-65536,0-1]",
    ] {
        let start = std::time::Instant::now();
        let err = expand_name(name).unwrap_err();
        assert!(err.contains("expands to more than"), "{name}: {err}");
        assert!(
            start.elapsed() < std::time::Duration::from_millis(50),
            "{name} took {:?}",
            start.elapsed()
        );
    }
}

#[test]
fn bounds_are_parsed_as_numbers_not_strings() {
    // Lexically "9" sorts above "10", so a string comparison would call
    // this range descending.
    assert_eq!(expand_name("n[9-10]").unwrap(), ["n9", "n10"]);
    assert_eq!(expand_name("n[09-10]").unwrap(), ["n09", "n10"]);
}

#[test]
fn leading_zeros_are_preserved_only_up_to_the_lower_bound_width() {
    assert_eq!(expand_name("n[000-2]").unwrap(), ["n000", "n001", "n002"]);
    assert_eq!(expand_name("n[8-10]").unwrap(), ["n8", "n9", "n10"]);
}

#[test]
fn a_pattern_expands_into_several_hosts() {
    assert_eq!(
        expand("node[01-03]").unwrap(),
        ["node01", "node02", "node03"]
    );
    assert_eq!(
        expand("node[0-3]").unwrap(),
        ["node0", "node1", "node2", "node3"]
    );
    assert_eq!(
        expand("gpu[1,3,5-7]").unwrap(),
        ["gpu1", "gpu3", "gpu5", "gpu6", "gpu7"]
    );
    assert_eq!(
        expand("rack[01-02]-eth0").unwrap(),
        ["rack01-eth0", "rack02-eth0"]
    );
}

#[test]
fn the_width_of_the_lower_bound_decides_the_padding() {
    assert_eq!(expand("n[8-11]").unwrap(), ["n8", "n9", "n10", "n11"]);
    assert_eq!(expand("n[08-11]").unwrap(), ["n08", "n09", "n10", "n11"]);
    assert_eq!(expand("n[008-011]").unwrap().len(), 4);
    assert_eq!(expand("n[008-011]").unwrap()[0], "n008");
}

#[test]
fn a_pattern_with_one_number_expands_to_one_host() {
    assert_eq!(expand("node[07]").unwrap(), ["node07"]);
    assert_eq!(expand("node[3-3]").unwrap(), ["node3"]);
}

#[test]
fn expansion_is_always_ascending() {
    let hosts = expand("node[01-12]").unwrap();
    assert_eq!(hosts.len(), 12);
    assert_eq!(hosts.first().unwrap(), "node01");
    assert_eq!(hosts.last().unwrap(), "node12");
}

#[test]
fn patterns_that_cannot_be_expressed_are_rejected() {
    for (name, expected) in [
        ("node[03-01]", "counts down"),
        ("node[01-10:2]", "not a number"),
        ("node[01-02-03]", "stride"),
        ("node[]", "empty"),
        ("node[01-]", "incomplete"),
        ("node[-01]", "incomplete"),
        ("node[01-02", "never closed"),
        ("node]01[02]", "before its `[`"),
        ("node[01][02]", "more than one"),
        ("node[a-c]", "not a number"),
        ("node[01,]", "not a number"),
        ("node[1-999999999]", "expands to more than"),
        ("node[1-40000,1-40000]", "expands to more than"),
        ("node[0-4294967295]", "expands to more than"),
    ] {
        let err = expand(name).unwrap_err();
        assert!(
            err.contains(expected),
            "{name:?} should be rejected with a message mentioning {expected:?}, got: {err}"
        );
    }
}

#[test]
fn an_oversized_range_is_rejected_without_expanding_it() {
    // The cap has to be checked before anything is allocated: a range like
    // this one names a billion Hosts, and building them would exhaust memory
    // rather than report a typo.
    let start = std::time::Instant::now();
    let out = expand("node[1-999999999]");
    let elapsed = start.elapsed();
    assert!(out.is_err());
    assert!(
        elapsed < std::time::Duration::from_millis(500),
        "rejection must not depend on the size of the range, took {elapsed:?}"
    );
}

#[test]
fn every_expanded_name_is_validated_like_a_literal_one() {
    // The prefix is what carries the illegal character, so this is the
    // expansion's fault, not the pattern syntax's. The set is the same one a
    // literal name is rejected for, reached through a pattern.
    for (name, bad) in [
        ("ro@ot[01-02]", "@"),
        ("node/[01-02]", "/"),
        ("node [01-02]", " "),
        ("-node[01-02]", "`-`"),
    ] {
        let err = expand(name).unwrap_err();
        assert!(
            err.contains(bad),
            "{name:?} should be rejected with a reason mentioning {bad}: {err}"
        );
    }

    // The same character is fine in the middle of a literal name, so the
    // rejection is the expansion running the literal validator, not a blanket
    // rule about punctuation.
    assert_eq!(expand("node-01[1-2]").unwrap(), ["node-011", "node-012"]);
}

#[test]
fn a_pattern_and_a_literal_may_not_claim_the_same_host() {
    let err = declared(&["node[01-03]", "node02"]).unwrap_err();
    assert!(
        err.contains("node02"),
        "the error names the contested Host: {err}"
    );
    assert!(
        err.contains("node[01-03]") && err.contains("node02"),
        "the error names both entries: {err}"
    );
    assert_eq!(
        err,
        "hosts.toml: entries 1 (`node[01-03]`) and 2 (`node02`) both declare `node02`"
    );
}

#[test]
fn two_patterns_may_not_overlap() {
    let err = declared(&["node[01-03]", "node[03-05]"]).unwrap_err();
    assert!(err.contains("node03"), "{err}");
}

#[test]
fn expanded_hosts_are_reported_by_their_expanded_names() {
    let hosts = expand("node[01-03]").unwrap();
    assert_eq!(hosts, ["node01", "node02", "node03"]);
    assert!(
        !hosts.iter().any(|name| name.contains("node[01-03]")),
        "the pattern never appears in the report: {hosts:?}"
    );
}

#[test]
fn a_literal_name_with_no_brackets_is_unchanged() {
    assert_eq!(expand("node01").unwrap(), ["node01"]);
    assert_eq!(expand("a.b-c_d").unwrap(), ["a.b-c_d"]);
}

#[test]
fn each_rejected_pattern_says_exactly_why() {
    for (name, message) in [
        ("a]", "`a]` has a `]` with no `[`"),
        ("a]b[1]", "`a]b[1]` has a `]` before its `[`"),
        ("a[1", "`a[1` opens a `[` that is never closed"),
        (
            "a[1][2]",
            "`a[1][2]` has more than one bracketed range; a name may have only one",
        ),
        ("a[]", "`a[]` has an empty range"),
        (
            "a[1-2-3]",
            "`a[1-2-3]`: `1-2-3` is not a range; strides are not supported",
        ),
        ("a[1-]", "`a[1-]`: `1-` is an incomplete range"),
        ("a[x]", "`a[x]`: `x` is not a number"),
        ("a[1-y]", "`a[1-y]`: `y` is not a number"),
        (
            "a[2-1]",
            "`a[2-1]`: range `2-1` counts down; ranges must ascend",
        ),
        (
            "a[0-65536]",
            "`a[0-65536]` expands to more than 65536 hosts; check the range",
        ),
        (
            "a[4294967296]",
            "`a[4294967296]`: `4294967296` is not a number",
        ),
    ] {
        assert_eq!(expand_name(name).unwrap_err(), message);
    }
}

#[test]
fn a_plus_sign_counts_towards_the_width() {
    assert_eq!(expand_name("n[+5-7]").unwrap(), ["n05", "n06", "n07"]);
    assert!(expand_name("n[+]").is_err());
}

#[test]
fn names_of_a_range_differ_and_every_number_is_there() {
    let names = expand_name("r[3-5,9]x").unwrap();
    assert_eq!(names, ["r3x", "r4x", "r5x", "r9x"]);
}
