//! `list`: the Hosts a run would select, printed from the host file alone.

use rshx::cli::CliCommand;
use rshx::host::group::Groups;
use rshx::host::{load, HostFile, RawEntry, RawFile};
use rshx::run::list::{table, JsonHost};
use rshx::run::{plan, Plan};

fn entry(name: &str) -> RawEntry {
    RawEntry {
        name: name.to_string(),
        user: None,
        port: None,
        ip: None,
        unique_privilege_pass: false,
    }
}

fn words(words: &[&str]) -> Vec<String> {
    words.iter().map(|word| word.to_string()).collect()
}

/// A host file with every field there is, over two clusters and a group that
/// only holds another group.
fn estate() -> HostFile {
    let mut web = entry("web[01-02]");
    web.user = Some("deploy".to_string());
    web.port = Some(2222);
    let mut db = entry("db01");
    db.ip = Some("10.0.0.7".to_string());
    let mut bastion = entry("bastion");
    bastion.unique_privilege_pass = true;
    let mut groups = Groups::new();
    groups.insert("web".to_string(), words(&["web[01-02]"]));
    groups.insert("core".to_string(), words(&["db01", "bastion"]));
    groups.insert("web-all".to_string(), words(&["web"]));
    let raw = RawFile {
        hosts: vec![web, db, bastion],
        groups,
    };
    load(b"hosts.toml".to_vec(), Ok(raw)).unwrap()
}

/// The listing of these groups, as it reads without its styles.
fn listing(file: &HostFile, groups: &[&str]) -> String {
    let selected = file.select(&words(groups)).unwrap();
    anstream::adapter::strip_str(&table(&selected)).to_string()
}

#[test]
fn every_host_is_listed_with_the_fields_it_sets() {
    assert_eq!(
        listing(&estate(), &[]),
        "\
HOST     USER    PORT  IP        OWN-PASSWORD
web01    deploy  2222  -         -
web02    deploy  2222  -         -
db01     -       -     10.0.0.7  -
bastion  -       -     -         yes
"
    );
}

#[test]
fn a_group_lists_only_the_hosts_it_selects() {
    assert_eq!(
        listing(&estate(), &["core"]),
        "\
HOST     IP        OWN-PASSWORD
db01     10.0.0.7  -
bastion  -         yes
"
    );
    assert_eq!(
        listing(&estate(), &["web-all"]),
        "\
HOST   USER    PORT
web01  deploy  2222
web02  deploy  2222
"
    );
}

#[test]
fn a_file_of_bare_names_lists_bare_names() {
    let raw = RawFile {
        hosts: vec![entry("node[01-03]")],
        groups: Groups::new(),
    };
    let file = load(b"hosts.toml".to_vec(), Ok(raw)).unwrap();
    assert_eq!(listing(&file, &[]), "node01\nnode02\nnode03\n");
}

#[test]
fn json_lists_the_host_file_fields() {
    let file = estate();
    let selected = file.select(&[]).unwrap();
    let objects: Vec<JsonHost> = selected.iter().map(|host| JsonHost::of(host)).collect();
    let fields: Vec<(&str, Option<&str>, Option<u16>, Option<&str>, bool)> = objects
        .iter()
        .map(|o| {
            (
                o.host.as_str(),
                o.user.as_deref(),
                o.port,
                o.ip.as_deref(),
                o.unique_privilege_pass,
            )
        })
        .collect();
    assert_eq!(
        fields,
        vec![
            ("web01", Some("deploy"), Some(2222), None, false),
            ("web02", Some("deploy"), Some(2222), None, false),
            ("db01", None, None, Some("10.0.0.7"), false),
            ("bastion", None, None, None, true),
        ]
    );
}

#[test]
fn listing_contacts_no_host() {
    // The flags that shape a run are accepted and change nothing: `list` runs
    // nothing for them to shape.
    assert!(matches!(plan(&CliCommand::List, true), Plan::List));
    assert!(matches!(plan(&CliCommand::List, false), Plan::List));
    assert!(listing(&estate(), &["core"]).contains("db01"));
}

#[test]
fn titles_are_dim_and_names_are_bold() {
    let mut bastion = entry("bastion");
    bastion.unique_privilege_pass = true;
    let raw = RawFile {
        hosts: vec![bastion],
        groups: Groups::new(),
    };
    let file = load(b"hosts.toml".to_vec(), Ok(raw)).unwrap();
    let selected = file.select(&[]).unwrap();
    assert_eq!(
        table(&selected),
        "\u{1b}[2mHOST     \u{1b}[0m\u{1b}[2mOWN-PASSWORD\u{1b}[0m\n\
         \u{1b}[1mbastion  \u{1b}[0myes\n"
    );
}

#[test]
fn an_empty_listing_is_empty() {
    assert_eq!(table(&[]), "");
}
