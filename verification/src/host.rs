//! The host file: which Hosts a run can touch, and how to pick them.

use vstd::hash_map::StringHashMap;
use vstd::prelude::*;
use vstd::utf8::encode_utf8;

use crate::host::group::{group_names, GroupModel, Groups, ALL};
use crate::host::pattern::{
    expand, expanded, law_plain_name_is_itself, no_bracket, quote, quoted,
};
use crate::text::{
    chars_of, contains_char, decimal, lemma_first_place, lossy, opt_text, read_lossy, texts,
    write_decimal,
};

pub mod group;
pub mod pattern;
pub mod select;

verus! {

// ---------------------------------------------------------------------------
// Names and users
// ---------------------------------------------------------------------------

/// The characters that names and users are made of.
pub open spec fn is_plain(c: char) -> bool {
    ('a' <= c <= 'z') || ('A' <= c <= 'Z') || ('0' <= c <= '9') || c == '.' || c == '_' || c == '-'
}

/// Where the first character outside the whitelist stands; the length where
/// there is none.
pub open spec fn first_bad(s: Seq<char>) -> int
    decreases s.len(),
{
    if s.len() == 0 || !is_plain(s[0]) {
        0
    } else {
        1 + first_bad(s.drop_first())
    }
}

proof fn lemma_first_bad(s: Seq<char>, i: int)
    requires
        0 <= i <= s.len(),
        forall|j: int| 0 <= j < i ==> is_plain(#[trigger] s[j]),
        i < s.len() ==> !is_plain(s[i]),
    ensures
        first_bad(s) == i,
    decreases s.len(),
{
    if i > 0 {
        let t = s.drop_first();
        assert(is_plain(s[0]));
        assert forall|j: int| 0 <= j < i - 1 implies is_plain(#[trigger] t[j]) by {
            assert(t[j] == s[j + 1]);
        }
        lemma_first_bad(t, i - 1);
    }
}

fn find_bad(s: &[char]) -> (r: usize)
    ensures
        r == first_bad(s@),
        r <= s@.len(),
        r == s@.len() <==> forall|j: int| 0 <= j < s@.len() ==> is_plain(#[trigger] s@[j]),
{
    let mut i: usize = 0;
    while i < s.len()
        invariant
            i <= s.len(),
            forall|j: int| 0 <= j < i ==> is_plain(#[trigger] s@[j]),
        decreases s.len() - i,
    {
        let c = s[i];
        let plain = ('a' <= c && c <= 'z') || ('A' <= c && c <= 'Z') || ('0' <= c && c <= '9') || c
            == '.' || c == '_' || c == '-';
        if !plain {
            proof {
                lemma_first_bad(s@, i as int);
            }
            assert(!is_plain(s@[i as int]));
            return i;
        }
        i += 1;
    }
    proof {
        lemma_first_bad(s@, i as int);
    }
    i
}

/// What is wrong with a Host's name, where something is.
pub open spec fn name_complaint(name: Seq<char>) -> Option<Seq<char>> {
    if name.len() == 0 {
        Some("a name may not be empty"@)
    } else if name[0] == '-' {
        Some("name "@ + quoted(name) + " may not begin with `-`"@)
    } else if first_bad(name) < name.len() {
        Some(
            "name "@ + quoted(name) + " contains "@ + quoted(seq![name[first_bad(name)]])
                + "; a name may contain only letters, digits, `.`, `_` and `-`"@,
        )
    } else {
        None
    }
}

/// What is wrong with a user, where something is.
pub open spec fn user_complaint(user: Seq<char>) -> Option<Seq<char>> {
    if user.len() == 0 {
        Some("`user` may not be empty"@)
    } else if user[0] == '-' {
        Some("user "@ + quoted(user) + " may not begin with `-`"@)
    } else if first_bad(user) < user.len() {
        Some(
            "user "@ + quoted(user) + " contains "@ + quoted(seq![user[first_bad(user)]])
                + "; a user may contain only letters, digits, `.`, `_` and `-`"@,
        )
    } else {
        None
    }
}

/// `what` holds a character that it may not hold.
fn bad_character(what: &str, text: &str, bad: char, rule: &str) -> (e: String)
    ensures
        e@ == what@ + quoted(text@) + " contains "@ + quoted(seq![bad]) + rule@,
{
    let mut e = what.to_string();
    let q = quote(text);
    e.append(q.as_str());
    e.append(" contains ");
    let mut one = String::new();
    one.push(bad);
    assert(one@ == seq![bad]);
    let b = quote(one.as_str());
    e.append(b.as_str());
    e.append(rule);
    e
}

/// `what` begins as an option would.
fn leading_hyphen(what: &str, text: &str) -> (e: String)
    ensures
        e@ == what@ + quoted(text@) + " may not begin with `-`"@,
{
    let mut e = what.to_string();
    let q = quote(text);
    e.append(q.as_str());
    e.append(" may not begin with `-`");
    e
}

/// A Host's name is an ssh argument, so it is held to a whitelist rather than
/// escaped.
pub fn validate_name(name: &str) -> (r: Result<(), String>)
    ensures
        match r {
            Ok(_) => name_complaint(name@) is None,
            Err(e) => name_complaint(name@) == Some(e@),
        },
{
    let cs = chars_of(name);
    if cs.len() == 0 {
        return Err("a name may not be empty".to_string());
    }
    if cs[0] == '-' {
        return Err(leading_hyphen("name ", name));
    }
    let bad = find_bad(cs.as_slice());
    if bad < cs.len() {
        return Err(
            bad_character(
                "name ",
                name,
                cs[bad],
                "; a name may contain only letters, digits, `.`, `_` and `-`",
            ),
        );
    }
    Ok(())
}

/// A user name is an ssh argument too, since it is passed as `-o User=…`. It
/// gets the same whitelist as a Host name, so a host file cannot add anything
/// of its own to ssh's argument list.
pub fn validate_user(user: &str) -> (r: Result<(), String>)
    ensures
        match r {
            Ok(_) => user_complaint(user@) is None,
            Err(e) => user_complaint(user@) == Some(e@),
        },
{
    let cs = chars_of(user);
    if cs.len() == 0 {
        return Err("`user` may not be empty".to_string());
    }
    if cs[0] == '-' {
        return Err(leading_hyphen("user ", user));
    }
    let bad = find_bad(cs.as_slice());
    if bad < cs.len() {
        return Err(
            bad_character(
                "user ",
                user,
                cs[bad],
                "; a user may contain only letters, digits, `.`, `_` and `-`",
            ),
        );
    }
    Ok(())
}

/// A name that passes is made of whitelisted characters alone and is never
/// read by ssh as an option.
pub proof fn law_valid_name_is_a_plain_argument(name: Seq<char>)
    requires
        name_complaint(name) is None,
    ensures
        name.len() > 0,
        name[0] != '-',
        forall|i: int| 0 <= i < name.len() ==> is_plain(#[trigger] name[i]),
{
    lemma_no_bad(name);
}

/// A user that passes is made of whitelisted characters alone, and does not
/// begin as an option would.
pub proof fn law_valid_user_is_plain(user: Seq<char>)
    requires
        user_complaint(user) is None,
    ensures
        user.len() > 0,
        user[0] != '-',
        forall|i: int| 0 <= i < user.len() ==> is_plain(#[trigger] user[i]),
{
    lemma_no_bad(user);
}

proof fn lemma_no_bad(s: Seq<char>)
    requires
        first_bad(s) >= s.len(),
    ensures
        forall|i: int| 0 <= i < s.len() ==> is_plain(#[trigger] s[i]),
    decreases s.len(),
{
    if s.len() > 0 {
        let t = s.drop_first();
        lemma_no_bad(t);
        assert forall|i: int| 0 <= i < s.len() implies is_plain(#[trigger] s[i]) by {
            if i > 0 {
                assert(t[i - 1] == s[i]);
            }
        }
    }
}

// ---------------------------------------------------------------------------
// The host file
// ---------------------------------------------------------------------------

/// One machine the command runs on.
#[derive(Debug, Clone, PartialEq, Eq)]
pub struct Host {
    /// The Host's identity, and the destination handed to ssh. Restricted to
    /// `[A-Za-z0-9._-]+`, and may not begin with `-`.
    pub name: String,
    /// Target overrides: written here and nowhere else.
    pub user: Option<String>,
    pub port: Option<u16>,
    /// An IP address, in its usual written form.
    pub ip: Option<String>,
    /// `--privilege` asks for this Host's own password, rather than the one
    /// the run shares.
    pub unique_privilege_pass: bool,
}

/// What a Host is.
pub ghost struct HostModel {
    pub name: Seq<char>,
    pub user: Option<Seq<char>>,
    pub port: Option<u16>,
    pub ip: Option<Seq<char>>,
    pub unique_privilege_pass: bool,
}

impl View for Host {
    type V = HostModel;

    open spec fn view(&self) -> HostModel {
        HostModel {
            name: self.name@,
            user: opt_text(self.user),
            port: self.port,
            ip: opt_text(self.ip),
            unique_privilege_pass: self.unique_privilege_pass,
        }
    }
}

/// One entry of the host file as it is written: a Host, or a pattern that
/// stands for several.
#[derive(Debug)]
pub struct RawEntry {
    pub name: String,
    pub user: Option<String>,
    pub port: Option<u16>,
    pub ip: Option<String>,
    pub unique_privilege_pass: bool,
}

impl View for RawEntry {
    type V = HostModel;

    /// The Host the entry would declare under its name as written.
    open spec fn view(&self) -> HostModel {
        HostModel {
            name: self.name@,
            user: opt_text(self.user),
            port: self.port,
            ip: opt_text(self.ip),
            unique_privilege_pass: self.unique_privilege_pass,
        }
    }
}

/// The entries as written.
pub open spec fn entries_of(raw: Seq<RawEntry>) -> Seq<HostModel> {
    raw.map_values(|e: RawEntry| e@)
}

/// The Hosts as declared.
pub open spec fn hosts_of(hosts: Seq<Host>) -> Seq<HostModel> {
    hosts.map_values(|h: Host| h@)
}

/// The names of Hosts.
pub open spec fn names_of(hosts: Seq<HostModel>) -> Seq<Seq<char>> {
    hosts.map_values(|h: HostModel| h.name)
}

/// A declared Host and the entry that declares it, counted from zero.
pub ghost struct Declared {
    pub host: HostModel,
    pub entry: int,
}

/// The entry that declares the name, where one does.
pub open spec fn owner(list: Seq<Declared>, name: Seq<char>) -> Option<int>
    decreases list.len(),
{
    if list.len() == 0 {
        None
    } else if list.last().host.name == name {
        Some(list.last().entry)
    } else {
        owner(list.drop_last(), name)
    }
}

/// How messages name an entry, counting from one.
pub open spec fn entry_label(entries: Seq<HostModel>, index: int) -> Seq<char> {
    "entry "@ + decimal(index + 1) + " ("@ + quoted(entries[index].name) + ")"@
}

/// Two entries declare the same Host.
pub open spec fn clash(
    entries: Seq<HostModel>,
    first: int,
    second: int,
    name: Seq<char>,
) -> Seq<char> {
    "entries "@ + decimal(first + 1) + " ("@ + quoted(entries[first].name) + ") and "@ + decimal(
        second + 1,
    ) + " ("@ + quoted(entries[second].name) + ") both declare "@ + quoted(name)
}

/// The Hosts declared so far, and after them the Hosts that entry `index`
/// declares under these names. The first name that may not stand decides the
/// error.
pub open spec fn declare_names(
    entries: Seq<HostModel>,
    index: int,
    before: Seq<Declared>,
    names: Seq<Seq<char>>,
) -> Result<Seq<Declared>, Seq<char>>
    decreases names.len(),
{
    if names.len() == 0 {
        Ok(before)
    } else {
        match declare_names(entries, index, before, names.drop_last()) {
            Err(e) => Err(e),
            Ok(list) => {
                let name = names.last();
                match name_complaint(name) {
                    Some(why) => Err(entry_label(entries, index) + ": "@ + why),
                    None => match owner(list, name) {
                        Some(first) => Err(clash(entries, first, index, name)),
                        None => Ok(
                            list.push(
                                Declared {
                                    host: HostModel { name, ..entries[index] },
                                    entry: index,
                                },
                            ),
                        ),
                    },
                }
            },
        }
    }
}

/// What is wrong with an entry's `user`, where it has one and it may not stand.
pub open spec fn entry_user_complaint(entry: HostModel) -> Option<Seq<char>> {
    match entry.user {
        Some(user) => user_complaint(user),
        None => None,
    }
}

/// The Hosts that entry `index` adds to those declared before it.
pub open spec fn declare_entry(
    entries: Seq<HostModel>,
    index: int,
    before: Seq<Declared>,
) -> Result<Seq<Declared>, Seq<char>> {
    let entry = entries[index];
    let label = entry_label(entries, index);
    if let Some(why) = entry_user_complaint(entry) {
        Err(label + ": "@ + why)
    } else if entry.ip is Some && entry.name.contains('[') {
        Err(
            label
                + ": `ip` cannot be set on a host pattern; an address belongs to one Host, so declare them separately"@,
        )
    } else {
        match expanded(entry.name) {
            Err(why) => Err(label + ": "@ + why),
            Ok(names) => declare_names(entries, index, before, names),
        }
    }
}

/// The Hosts the first `n` entries declare, in order. The first entry that is
/// wrong decides the error.
pub open spec fn declare_entries(entries: Seq<HostModel>, n: int) -> Result<
    Seq<Declared>,
    Seq<char>,
>
    decreases n,
{
    if n <= 0 {
        Ok(Seq::empty())
    } else {
        match declare_entries(entries, n - 1) {
            Err(e) => Err(e),
            Ok(before) => declare_entry(entries, n - 1, before),
        }
    }
}

/// The Hosts alone, without the entries they come from.
pub open spec fn declared_hosts(list: Seq<Declared>) -> Seq<HostModel> {
    list.map_values(|d: Declared| d.host)
}

fn copy_opt(s: &Option<String>) -> (r: Option<String>)
    ensures
        opt_text(r) == opt_text(*s),
{
    match s {
        Some(t) => Some(t.clone()),
        None => None,
    }
}

fn write_entry_label(raw: &[RawEntry], index: usize) -> (r: String)
    requires
        index < raw@.len(),
    ensures
        r@ == entry_label(entries_of(raw@), index as int),
{
    assert(index < raw.len());
    let mut s = "entry ".to_string();
    let number = write_decimal(index as u64 + 1);
    s.append(number.as_str());
    s.append(" (");
    let q = quote(raw[index].name.as_str());
    s.append(q.as_str());
    s.append(")");
    assert(entries_of(raw@)[index as int] == raw@[index as int]@);
    s
}

fn write_clash(raw: &[RawEntry], first: usize, second: usize, name: &str) -> (r: String)
    requires
        first < raw@.len(),
        second < raw@.len(),
    ensures
        r@ == clash(entries_of(raw@), first as int, second as int, name@),
{
    assert(first < raw.len() && second < raw.len());
    let mut s = "entries ".to_string();
    let one = write_decimal(first as u64 + 1);
    s.append(one.as_str());
    s.append(" (");
    let q = quote(raw[first].name.as_str());
    s.append(q.as_str());
    s.append(") and ");
    let two = write_decimal(second as u64 + 1);
    s.append(two.as_str());
    s.append(" (");
    let q = quote(raw[second].name.as_str());
    s.append(q.as_str());
    s.append(") both declare ");
    let q = quote(name);
    s.append(q.as_str());
    s
}

/// `label: why`.
pub(crate) fn labelled(label: &str, why: &str) -> (r: String)
    ensures
        r@ == label@ + ": "@ + why@,
{
    let mut s = label.to_string();
    s.append(": ");
    s.append(why);
    s
}

/// The map from a declared name to its entry is what the list says.
spec fn owners_match(owners: Map<Seq<char>, usize>, list: Seq<Declared>) -> bool {
    forall|name: Seq<char>|
        (#[trigger] owners.contains_key(name) <==> owner(list, name) is Some) && (
        owners.contains_key(name) ==> owner(list, name) == Some(owners[name] as int))
}

proof fn lemma_declare_names_fails(
    entries: Seq<HostModel>,
    index: int,
    before: Seq<Declared>,
    names: Seq<Seq<char>>,
    n: int,
)
    requires
        0 <= n <= names.len(),
        declare_names(entries, index, before, names.take(n)) is Err,
    ensures
        declare_names(entries, index, before, names) == declare_names(
            entries,
            index,
            before,
            names.take(n),
        ),
    decreases names.len(),
{
    if n == names.len() {
        assert(names.take(n) == names);
    } else {
        assert(names.drop_last().take(n) == names.take(n));
        lemma_declare_names_fails(entries, index, before, names.drop_last(), n);
    }
}

proof fn lemma_declare_entries_fails(entries: Seq<HostModel>, n: int, m: int)
    requires
        0 <= n <= m,
        declare_entries(entries, n) is Err,
    ensures
        declare_entries(entries, m) == declare_entries(entries, n),
    decreases m,
{
    if n < m {
        lemma_declare_entries_fails(entries, n, m - 1);
    }
}

/// Adds the Hosts one entry declares under these names.
fn add_names(
    raw: &[RawEntry],
    index: usize,
    names: Vec<String>,
    hosts: &mut Vec<Host>,
    owners: &mut StringHashMap<usize>,
    list: Ghost<Seq<Declared>>,
) -> (r: Result<Ghost<Seq<Declared>>, String>)
    requires
        index < raw@.len(),
        hosts_of(old(hosts)@) == declared_hosts(list@),
        owners_match(old(owners)@, list@),
        forall|name: Seq<char>|
            #[trigger] old(owners)@.contains_key(name) ==> old(owners)@[name] < raw@.len(),
    ensures
        match r {
            Ok(after) => {
                &&& declare_names(entries_of(raw@), index as int, list@, texts(names@)) == Ok::<
                    Seq<Declared>,
                    Seq<char>,
                >(after@)
                &&& hosts_of(final(hosts)@) == declared_hosts(after@)
                &&& owners_match(final(owners)@, after@)
                &&& forall|name: Seq<char>|
                    #[trigger] final(owners)@.contains_key(name) ==> final(owners)@[name]
                        < raw@.len()
            },
            Err(e) => declare_names(entries_of(raw@), index as int, list@, texts(names@)) == Err::<
                Seq<Declared>,
                Seq<char>,
            >(e@),
        },
{
    let ghost entries = entries_of(raw@);
    let ghost mut now = list@;
    let mut i: usize = 0;
    while i < names.len()
        invariant
            i <= names.len(),
            index < raw@.len(),
            entries == entries_of(raw@),
            declare_names(entries, index as int, list@, texts(names@).take(i as int)) == Ok::<
                Seq<Declared>,
                Seq<char>,
            >(now),
            hosts_of(hosts@) == declared_hosts(now),
            owners_match(owners@, now),
            forall|name: Seq<char>|
                #[trigger] owners@.contains_key(name) ==> owners@[name] < raw@.len(),
        decreases names.len() - i,
    {
        proof {
            let upto = texts(names@).take(i + 1);
            assert(upto.drop_last() == texts(names@).take(i as int));
            assert(upto.last() == names@[i as int]@);
        }
        let name = names[i].as_str();
        if let Err(why) = validate_name(name) {
            proof {
                lemma_declare_names_fails(entries, index as int, list@, texts(names@), i + 1);
            }
            let label = write_entry_label(raw, index);
            return Err(labelled(label.as_str(), why.as_str()));
        }
        if let Some(first) = owners.get(name) {
            proof {
                lemma_declare_names_fails(entries, index as int, list@, texts(names@), i + 1);
            }
            return Err(write_clash(raw, *first, index, name));
        }
        let host = Host {
            name: names[i].clone(),
            user: copy_opt(&raw[index].user),
            port: raw[index].port,
            ip: copy_opt(&raw[index].ip),
            unique_privilege_pass: raw[index].unique_privilege_pass,
        };
        let ghost declared = Declared {
            host: HostModel { name: name@, ..entries[index as int] },
            entry: index as int,
        };
        let ghost old_hosts = hosts@;
        let ghost old_now = now;
        assert(entries[index as int] == raw@[index as int]@);
        assert(host@ == declared.host);
        let ghost host_model = host@;
        owners.insert(names[i].clone(), index);
        hosts.push(host);
        proof {
            now = now.push(declared);
            assert(hosts_of(hosts@) == hosts_of(old_hosts).push(host_model));
            assert(declared_hosts(now) == declared_hosts(old_now).push(declared.host));
            assert(now.drop_last() == old_now);
            assert(now.last() == declared);
            assert(owners_match(owners@, now));
        }
        i += 1;
    }
    assert(texts(names@).take(names@.len() as int) == texts(names@));
    Ok(Ghost(now))
}

/// The host file as it is written, before anything is made of it.
#[derive(Debug)]
pub struct RawFile {
    pub hosts: Vec<RawEntry>,
    pub groups: Groups,
}

/// The parsed host file.
#[derive(Debug)]
pub struct HostFile {
    /// The path the file was read from.
    pub path: Vec<u8>,
    pub hosts: Vec<Host>,
    /// Host groups by name, as declared. Selection expands them.
    pub groups: Groups,
}

impl HostFile {
    /// What parsing establishes: valid names and users, each Host once, and
    /// groups by name with the reserved name left free.
    pub open spec fn wf(&self) -> bool {
        &&& forall|i: int| 0 <= i < self.hosts@.len() ==> is_valid((#[trigger] self.hosts@[i])@)
        &&& forall|i: int, j: int|
            0 <= i < j < self.hosts@.len() ==> #[trigger] self.hosts@[i].name@
                != #[trigger] self.hosts@[j].name@
        &&& self.groups.wf()
        &&& !group_names(self.groups@).contains(ALL@)
    }
}

/// A Host whose name and user may stand in ssh's arguments.
pub open spec fn is_valid(host: HostModel) -> bool {
    name_complaint(host.name) is None && entry_user_complaint(host) is None
}

/// Declared Hosts have valid names and users, each once.
pub open spec fn declared_well(list: Seq<Declared>) -> bool {
    &&& forall|i: int| 0 <= i < list.len() ==> is_valid((#[trigger] list[i]).host)
    &&& forall|i: int, j: int|
        0 <= i < j < list.len() ==> #[trigger] list[i].host.name != #[trigger] list[j].host.name
}

proof fn lemma_owner_none(list: Seq<Declared>, name: Seq<char>)
    requires
        owner(list, name) is None,
    ensures
        forall|i: int| 0 <= i < list.len() ==> (#[trigger] list[i]).host.name != name,
    decreases list.len(),
{
    if list.len() > 0 {
        lemma_owner_none(list.drop_last(), name);
        assert forall|i: int| 0 <= i < list.len() implies (#[trigger] list[i]).host.name != name by {
            if i < list.len() - 1 {
                assert(list.drop_last()[i] == list[i]);
            }
        }
    }
}

proof fn lemma_declare_names_well(
    entries: Seq<HostModel>,
    index: int,
    before: Seq<Declared>,
    names: Seq<Seq<char>>,
)
    requires
        declared_well(before),
        entry_user_complaint(entries[index]) is None,
        declare_names(entries, index, before, names) is Ok,
    ensures
        declared_well(declare_names(entries, index, before, names)->Ok_0),
    decreases names.len(),
{
    if names.len() > 0 {
        lemma_declare_names_well(entries, index, before, names.drop_last());
        let list = declare_names(entries, index, before, names.drop_last())->Ok_0;
        lemma_owner_none(list, names.last());
    }
}

/// Every host file that parses declares valid names and users only, each Host
/// once.
pub proof fn law_declared_hosts_are_valid_and_unique(entries: Seq<HostModel>, n: int)
    requires
        0 <= n <= entries.len(),
        declare_entries(entries, n) is Ok,
    ensures
        declared_well(declare_entries(entries, n)->Ok_0),
    decreases n,
{
    if n > 0 {
        law_declared_hosts_are_valid_and_unique(entries, n - 1);
        let before = declare_entries(entries, n - 1)->Ok_0;
        lemma_declare_names_well(
            entries,
            n - 1,
            before,
            expanded(entries[n - 1].name)->Ok_0,
        );
    }
}

/// What a host file holds, or what is wrong with it.
pub open spec fn file_of(entries: Seq<HostModel>, groups: Seq<GroupModel>) -> Result<
    Seq<HostModel>,
    Seq<char>,
> {
    match declare_entries(entries, entries.len() as int) {
        Err(e) => Err(e),
        Ok(list) => if group_names(groups).contains(ALL@) {
            Err("`all` is reserved and cannot be declared as a group"@)
        } else {
            Ok(declared_hosts(list))
        },
    }
}

/// Reads the groups, rejecting the reserved name.
fn parse_groups(raw: Groups) -> (r: Result<Groups, String>)
    ensures
        match r {
            Ok(groups) => !group_names(raw@).contains(ALL@) && groups@ == raw@,
            Err(e) => group_names(raw@).contains(ALL@) && e@
                == "`all` is reserved and cannot be declared as a group"@,
        },
{
    proof {
        lemma_first_place(group_names(raw@), ALL@);
    }
    let place = raw.position(ALL);
    if place < raw.len() {
        return Err("`all` is reserved and cannot be declared as a group".to_string());
    }
    Ok(raw)
}

/// Validates a host file and expands its entries.
pub fn parse(path: Vec<u8>, raw: RawFile) -> (r: Result<HostFile, String>)
    requires
        raw.groups.wf(),
    ensures
        match r {
            Ok(file) => {
                &&& file_of(entries_of(raw.hosts@), raw.groups@) == Ok::<Seq<HostModel>, Seq<char>>(
                    hosts_of(file.hosts@),
                )
                &&& file.groups@ == raw.groups@
                &&& file.path@ == path@
                &&& file.wf()
            },
            Err(e) => file_of(entries_of(raw.hosts@), raw.groups@) == Err::<
                Seq<HostModel>,
                Seq<char>,
            >(e@),
        },
{
    let mut hosts: Vec<Host> = Vec::new();
    let mut owners: StringHashMap<usize> = StringHashMap::new();
    let ghost entries = entries_of(raw.hosts@);
    let ghost mut list: Seq<Declared> = Seq::empty();
    let mut i: usize = 0;
    assert(hosts_of(hosts@) == declared_hosts(list));
    while i < raw.hosts.len()
        invariant
            i <= raw.hosts@.len(),
            entries == entries_of(raw.hosts@),
            declare_entries(entries, i as int) == Ok::<Seq<Declared>, Seq<char>>(list),
            hosts_of(hosts@) == declared_hosts(list),
            owners_match(owners@, list),
            forall|name: Seq<char>|
                #[trigger] owners@.contains_key(name) ==> owners@[name] < raw.hosts@.len(),
        decreases raw.hosts@.len() - i,
    {
        assert(entries[i as int] == raw.hosts@[i as int]@);
        if let Some(user) = &raw.hosts[i].user {
            if let Err(why) = validate_user(user.as_str()) {
                proof {
                    lemma_declare_entries_fails(entries, i + 1, entries.len() as int);
                }
                let label = write_entry_label(raw.hosts.as_slice(), i);
                return Err(labelled(label.as_str(), why.as_str()));
            }
        }
        // An address is a property of one machine, so it cannot be shared by
        // every Host a pattern expands to.
        let name = chars_of(raw.hosts[i].name.as_str());
        if raw.hosts[i].ip.is_some() && contains_char(name.as_slice(), '[') {
            proof {
                lemma_declare_entries_fails(entries, i + 1, entries.len() as int);
            }
            let mut e = write_entry_label(raw.hosts.as_slice(), i);
            e.append(
                ": `ip` cannot be set on a host pattern; an address belongs to one Host, so declare them separately",
            );
            return Err(e);
        }
        let names = match expand(raw.hosts[i].name.as_str()) {
            Ok(names) => names,
            Err(why) => {
                proof {
                    lemma_declare_entries_fails(entries, i + 1, entries.len() as int);
                }
                let label = write_entry_label(raw.hosts.as_slice(), i);
                return Err(labelled(label.as_str(), why.as_str()));
            },
        };
        match add_names(raw.hosts.as_slice(), i, names, &mut hosts, &mut owners, Ghost(list)) {
            Ok(after) => {
                proof {
                    list = after@;
                }
            },
            Err(e) => {
                proof {
                    lemma_declare_entries_fails(entries, i + 1, entries.len() as int);
                }
                return Err(e);
            },
        }
        i += 1;
    }
    proof {
        law_declared_hosts_are_valid_and_unique(entries, entries.len() as int);
        assert forall|k: int| 0 <= k < hosts@.len() implies (#[trigger] hosts@[k])@
            == list[k].host by {
            assert(hosts_of(hosts@)[k] == hosts@[k]@);
            assert(declared_hosts(list)[k] == list[k].host);
        }
        assert(hosts_of(hosts@).len() == declared_hosts(list).len());
    }
    match parse_groups(raw.groups) {
        Ok(groups) => Ok(HostFile { path, hosts, groups }),
        Err(e) => Err(e),
    }
}

/// What `load` reports: the path before whatever is wrong.
pub open spec fn in_file(path: Seq<char>, why: Seq<char>) -> Seq<char> {
    path + ": "@ + why
}

/// Validates what was read from the host file. Whatever is wrong, from the
/// reading on, is reported with the path before it.
pub fn load(path: Vec<u8>, read: Result<RawFile, String>) -> (r: Result<HostFile, String>)
    requires
        read is Ok ==> read->Ok_0.groups.wf(),
    ensures
        match read {
            Err(why) => r is Err && r->Err_0@ == in_file(lossy(path@), why@),
            Ok(raw) => match file_of(entries_of(raw.hosts@), raw.groups@) {
                Err(why) => r is Err && r->Err_0@ == in_file(lossy(path@), why),
                Ok(hosts) => {
                    &&& r is Ok
                    &&& hosts_of(r->Ok_0.hosts@) == hosts
                    &&& r->Ok_0.groups@ == raw.groups@
                    &&& r->Ok_0.path@ == path@
                    &&& r->Ok_0.wf()
                },
            },
        },
{
    let label = read_lossy(path.as_slice());
    let parsed = match read {
        Ok(raw) => parse(path, raw),
        Err(why) => Err(why),
    };
    match parsed {
        Ok(file) => Ok(file),
        Err(why) => Err(labelled(label.as_str(), why.as_str())),
    }
}

// ---------------------------------------------------------------------------
// Where the host file is
// ---------------------------------------------------------------------------

/// A path with one more component.
pub open spec fn path_join(dir: Seq<u8>, name: Seq<u8>) -> Seq<u8> {
    if dir.len() == 0 || dir.last() == 47u8 {
        dir + name
    } else {
        dir.push(47u8) + name
    }
}

/// Adds one component, which does not itself begin at the root.
fn join_path(dir: &[u8], name: &str) -> (r: Vec<u8>)
    ensures
        r@ == path_join(dir@, encode_utf8(name@)),
{
    let mut path: Vec<u8> = Vec::new();
    path.extend_from_slice(dir);
    assert(path@ == dir@);
    if dir.len() > 0 && dir[dir.len() - 1] != 47u8 {
        path.push(47u8);
    }
    let ghost start = path@;
    path.extend_from_slice(name.as_bytes());
    assert(path@ == start + encode_utf8(name@));
    path
}

/// The user's configuration directory: `XDG_CONFIG_HOME`, or `.config` in
/// `HOME`. A variable that is empty counts as unset.
pub open spec fn config_dir_of(xdg: Option<Seq<u8>>, home: Option<Seq<u8>>) -> Option<Seq<u8>> {
    match xdg {
        Some(dir) if dir.len() > 0 => Some(dir),
        _ => match home {
            Some(dir) if dir.len() > 0 => Some(path_join(dir, encode_utf8(".config"@))),
            _ => None,
        },
    }
}

/// The bytes of an optional path.
pub open spec fn opt_bytes(path: Option<Vec<u8>>) -> Option<Seq<u8>> {
    match path {
        Some(p) => Some(p@),
        None => None,
    }
}

/// The configuration directory, given the two environment variables.
pub fn config_dir(xdg: Option<Vec<u8>>, home: Option<Vec<u8>>) -> (r: Option<Vec<u8>>)
    ensures
        opt_bytes(r) == config_dir_of(opt_bytes(xdg), opt_bytes(home)),
{
    if let Some(dir) = xdg {
        if dir.len() > 0 {
            return Some(dir);
        }
    }
    match home {
        Some(dir) => if dir.len() > 0 {
            Some(join_path(dir.as_slice(), ".config"))
        } else {
            None
        },
        None => None,
    }
}

/// The host file in the configuration directory.
pub fn config_path(dir: &[u8]) -> (r: Vec<u8>)
    ensures
        r@ == path_join(
            path_join(dir@, encode_utf8("rshx"@)),
            encode_utf8("hosts.toml"@),
        ),
{
    let inner = join_path(dir, "rshx");
    join_path(inner.as_slice(), "hosts.toml")
}

/// The host file in the current directory.
pub const LOCAL_FILE: &'static str = "rshx.toml";

/// The path of the host file: the one asked for, as it is written; otherwise
/// the current directory's file, then the configuration directory's, as far as
/// each exists.
pub open spec fn chosen_path(
    explicit: Option<Seq<u8>>,
    local_exists: bool,
    config: Option<Seq<u8>>,
    config_exists: bool,
) -> Option<Seq<u8>> {
    if explicit is Some {
        explicit
    } else if local_exists {
        Some(encode_utf8(LOCAL_FILE@))
    } else if config_exists {
        config
    } else {
        None
    }
}

/// Where the host file is, given the command line. An explicit `-H` is used as
/// written, so a typo is reported rather than silently falling back.
pub fn resolve_path(
    explicit: Option<Vec<u8>>,
    local_exists: bool,
    config: Option<Vec<u8>>,
    config_exists: bool,
) -> (r: Result<Vec<u8>, String>)
    ensures
        match r {
            Ok(path) => chosen_path(
                opt_bytes(explicit),
                local_exists,
                opt_bytes(config),
                config_exists,
            ) == Some(path@),
            Err(e) => {
                &&& chosen_path(
                    opt_bytes(explicit),
                    local_exists,
                    opt_bytes(config),
                    config_exists,
                ) is None
                &&& e@ == "no host file: pass --host-file FILE, or create ./rshx.toml"@
            },
        },
{
    if let Some(path) = explicit {
        return Ok(path);
    }
    if local_exists {
        let mut local: Vec<u8> = Vec::new();
        local.extend_from_slice(LOCAL_FILE.as_bytes());
        assert(local@ == encode_utf8(LOCAL_FILE@));
        return Ok(local);
    }
    if let Some(path) = config {
        if config_exists {
            return Ok(path);
        }
    }
    Err("no host file: pass --host-file FILE, or create ./rshx.toml".to_string())
}

/// The host file a run uses.
#[derive(Debug)]
pub struct Located {
    /// Its path.
    pub path: Vec<u8>,
    /// Whether rshx found it for itself, nobody having asked for it.
    pub found: bool,
}

/// Finds the host file as `resolve_path` does, and says whether rshx found it
/// for itself.
pub fn locate(
    explicit: Option<Vec<u8>>,
    local_exists: bool,
    config: Option<Vec<u8>>,
    config_exists: bool,
) -> (r: Result<Located, String>)
    ensures
        match r {
            Ok(located) => {
                &&& chosen_path(
                    opt_bytes(explicit),
                    local_exists,
                    opt_bytes(config),
                    config_exists,
                ) == Some(located.path@)
                &&& located.found == (explicit is None)
            },
            Err(e) => {
                &&& chosen_path(
                    opt_bytes(explicit),
                    local_exists,
                    opt_bytes(config),
                    config_exists,
                ) is None
                &&& e@ == "no host file: pass --host-file FILE, or create ./rshx.toml"@
            },
        },
{
    let found = explicit.is_none();
    match resolve_path(explicit, local_exists, config, config_exists) {
        Ok(path) => Ok(Located { path, found }),
        Err(e) => Err(e),
    }
}

// ---------------------------------------------------------------------------
// What a host file declares
// ---------------------------------------------------------------------------

/// Whether a text may be handed to ssh as a name: letters, digits, `.`, `_` and
/// `-` alone, at least one, and no `-` first.
pub open spec fn is_argument(s: Seq<char>) -> bool {
    &&& s.len() > 0
    &&& s[0] != '-'
    &&& forall|i: int|
        0 <= i < s.len() ==> {
            let c = #[trigger] s[i];
            ('a' <= c <= 'z') || ('A' <= c <= 'Z') || ('0' <= c <= '9') || seq!['.', '_', '-'].contains(
                c,
            )
        }
}

proof fn lemma_plain_text(s: Seq<char>)
    ensures
        first_bad(s) >= s.len() <==> forall|i: int| 0 <= i < s.len() ==> is_plain(#[trigger] s[i]),
    decreases s.len(),
{
    if s.len() > 0 {
        let t = s.drop_first();
        lemma_plain_text(t);
        if forall|i: int| 0 <= i < s.len() ==> is_plain(#[trigger] s[i]) {
            assert(is_plain(s[0]));
            assert forall|i: int| 0 <= i < t.len() implies is_plain(#[trigger] t[i]) by {
                assert(t[i] == s[i + 1]);
            }
        }
        if first_bad(s) >= s.len() {
            lemma_no_bad(s);
        }
    }
}

/// A name or a user is taken exactly when it is an argument ssh can be handed.
pub proof fn law_names_and_users_are_arguments(s: Seq<char>)
    ensures
        name_complaint(s) is None <==> is_argument(s),
        user_complaint(s) is None <==> is_argument(s),
{
    lemma_plain_text(s);
    let marks = seq!['.', '_', '-'];
    assert(marks[0] == '.' && marks[1] == '_' && marks[2] == '-');
    assert forall|i: int| 0 <= i < s.len() implies is_plain(#[trigger] s[i]) == (('a' <= s[i]
        <= 'z') || ('A' <= s[i] <= 'Z') || ('0' <= s[i] <= '9') || marks.contains(s[i])) by {}
}

/// The Hosts an entry declares: one for each name it expands to, each with all
/// that the entry sets.
pub open spec fn hosts_of_entry(entry: HostModel) -> Seq<HostModel> {
    expanded(entry.name)->Ok_0.map_values(|name: Seq<char>| HostModel { name, ..entry })
}

/// The Hosts of all entries, in order.
pub open spec fn every_host(entries: Seq<HostModel>) -> Seq<HostModel> {
    entries.map_values(|entry: HostModel| hosts_of_entry(entry)).flatten()
}

/// Whether an entry may stand in a host file by itself.
pub open spec fn is_fine(entry: HostModel) -> bool {
    &&& entry.user is Some ==> is_argument(entry.user->Some_0)
    &&& entry.ip is Some ==> !entry.name.contains('[')
    &&& expanded(entry.name) is Ok
    &&& forall|i: int|
        0 <= i < expanded(entry.name)->Ok_0.len() ==> is_argument(
            #[trigger] expanded(entry.name)->Ok_0[i],
        )
}

proof fn lemma_owner_iff(list: Seq<Declared>, name: Seq<char>)
    ensures
        owner(list, name) is None <==> !names_of(declared_hosts(list)).contains(name),
    decreases list.len(),
{
    let names = names_of(declared_hosts(list));
    if owner(list, name) is None {
        lemma_owner_none(list, name);
        if names.contains(name) {
            let i = choose|i: int| 0 <= i < names.len() && names[i] == name;
            assert(list[i].host.name != name);
        }
    } else {
        let before = list.drop_last();
        if list.last().host.name == name {
            assert(names[list.len() - 1] == name);
        } else {
            lemma_owner_iff(before, name);
            let shorter = names_of(declared_hosts(before));
            let i = choose|i: int| 0 <= i < shorter.len() && shorter[i] == name;
            assert(names[i] == name);
        }
    }
}

proof fn lemma_no_duplicates_pushed(names: Seq<Seq<char>>, name: Seq<char>)
    ensures
        names.push(name).no_duplicates() <==> names.no_duplicates() && !names.contains(name),
{
    let all = names.push(name);
    if all.no_duplicates() {
        assert forall|i: int, j: int|
            0 <= i < names.len() && 0 <= j < names.len() && i != j implies names[i] != names[j] by {
            assert(all[i] != all[j]);
        }
        if names.contains(name) {
            let i = choose|i: int| 0 <= i < names.len() && names[i] == name;
            assert(all[i] == all[names.len() as int]);
        }
    }
}

proof fn lemma_declare_names_is(
    entries: Seq<HostModel>,
    index: int,
    before: Seq<Declared>,
    names: Seq<Seq<char>>,
)
    requires
        names_of(declared_hosts(before)).no_duplicates(),
    ensures
        ({
            let r = declare_names(entries, index, before, names);
            let made = names.map_values(|name: Seq<char>| HostModel { name, ..entries[index] });
            let all = declared_hosts(before) + made;
            &&& r is Ok <==> names_of(all).no_duplicates() && forall|i: int|
                0 <= i < names.len() ==> is_argument(#[trigger] names[i])
            &&& r is Ok ==> declared_hosts(r->Ok_0) == all
        }),
    decreases names.len(),
{
    let make = |name: Seq<char>| HostModel { name, ..entries[index] };
    let all = declared_hosts(before) + names.map_values(make);
    if names.len() > 0 {
        let fewer = names.drop_last();
        let name = names.last();
        lemma_declare_names_is(entries, index, before, fewer);
        let some = declared_hosts(before) + fewer.map_values(make);
        assert(names.map_values(make) =~= fewer.map_values(make).push(make(name)));
        assert(all =~= some.push(make(name)));
        assert(names_of(all) =~= names_of(some).push(name));
        lemma_no_duplicates_pushed(names_of(some), name);
        law_names_and_users_are_arguments(name);
        assert forall|i: int| 0 <= i < fewer.len() implies fewer[i] == names[i] by {}
        if forall|i: int| 0 <= i < names.len() ==> is_argument(#[trigger] names[i]) {
            assert(is_argument(names[names.len() - 1]));
            assert forall|i: int| 0 <= i < fewer.len() implies is_argument(#[trigger] fewer[i]) by {
                assert(is_argument(names[i]));
            }
        }
        let r = declare_names(entries, index, before, fewer);
        if r is Ok {
            lemma_owner_iff(r->Ok_0, name);
            let list = r->Ok_0;
            let added = Declared { host: HostModel { name, ..entries[index] }, entry: index };
            assert(declared_hosts(list.push(added)) =~= declared_hosts(list).push(make(name)));
            if is_argument(name) {
                assert forall|i: int| 0 <= i < names.len() implies is_argument(
                    #[trigger] names[i],
                ) by {
                    if i < fewer.len() {
                        assert(is_argument(fewer[i]));
                    }
                }
            }
        }
    } else {
        assert(all =~= declared_hosts(before));
    }
}

proof fn lemma_fewer_are_distinct(a: Seq<HostModel>, b: Seq<HostModel>)
    requires
        names_of(a + b).no_duplicates(),
    ensures
        names_of(a).no_duplicates(),
{
    let all = names_of(a + b);
    assert forall|i: int, j: int|
        0 <= i < a.len() && 0 <= j < a.len() && i != j implies names_of(a)[i] != names_of(a)[j] by {
        assert(all[i] == names_of(a)[i] && all[j] == names_of(a)[j]);
        assert(all[i] != all[j]);
    }
}

proof fn lemma_declare_entries_is(entries: Seq<HostModel>, n: int)
    requires
        0 <= n <= entries.len(),
    ensures
        ({
            let r = declare_entries(entries, n);
            let all = every_host(entries.take(n));
            &&& r is Ok <==> names_of(all).no_duplicates() && forall|i: int|
                0 <= i < n ==> is_fine(#[trigger] entries[i])
            &&& r is Ok ==> declared_hosts(r->Ok_0) == all
        }),
    decreases n,
{
    let f = |entry: HostModel| hosts_of_entry(entry);
    let rows = entries.take(n).map_values(f);
    rows.lemma_flatten_and_flatten_alt_are_equivalent();
    if n > 0 {
        lemma_declare_entries_is(entries, n - 1);
        let entry = entries[n - 1];
        let earlier = entries.take(n - 1).map_values(f);
        earlier.lemma_flatten_and_flatten_alt_are_equivalent();
        assert(rows.drop_last() =~= earlier);
        assert(rows.last() == hosts_of_entry(entry));
        let some = every_host(entries.take(n - 1));
        let all = every_host(entries.take(n));
        assert(all =~= some + hosts_of_entry(entry));
        if names_of(all).no_duplicates() {
            lemma_fewer_are_distinct(some, hosts_of_entry(entry));
        }
        if entry.user is Some {
            law_names_and_users_are_arguments(entry.user->Some_0);
        }
        let before = declare_entries(entries, n - 1);
        if before is Ok {
            if expanded(entry.name) is Ok {
                lemma_declare_names_is(
                    entries,
                    n - 1,
                    before->Ok_0,
                    expanded(entry.name)->Ok_0,
                );
                assert(expanded(entry.name)->Ok_0.map_values(
                    |name: Seq<char>| HostModel { name, ..entries[n - 1] },
                ) =~= hosts_of_entry(entry));
            }
        }
        if forall|i: int| 0 <= i < n ==> is_fine(#[trigger] entries[i]) {
            assert(is_fine(entries[n - 1]));
        }
    } else {
        assert(rows.len() == 0);
        assert(every_host(entries.take(n)) =~= Seq::<HostModel>::empty());
        assert(declared_hosts(Seq::<Declared>::empty()) =~= Seq::<HostModel>::empty());
    }
}

/// A host file declares, entry by entry, one Host for each name an entry expands
/// to, with the entry's own user, port, address and password setting. It is
/// refused only where an entry cannot stand, two Hosts share a name, or a group
/// takes the reserved one.
pub proof fn law_a_host_file_declares_what_its_entries_say(
    entries: Seq<HostModel>,
    groups: Seq<GroupModel>,
)
    ensures
        file_of(entries, groups) is Ok <==> {
            &&& !group_names(groups).contains("all"@)
            &&& names_of(every_host(entries)).no_duplicates()
            &&& forall|i: int| 0 <= i < entries.len() ==> is_fine(#[trigger] entries[i])
        },
        file_of(entries, groups) is Ok ==> file_of(entries, groups)->Ok_0 == every_host(entries),
{
    lemma_declare_entries_is(entries, entries.len() as int);
    assert(entries.take(entries.len() as int) =~= entries);
}

/// An explicit host file is the one that is used, whatever else there is; then
/// the one in the current directory, and only then the one in the configuration
/// directory.
pub proof fn law_the_nearest_host_file_is_used(
    asked: Seq<u8>,
    local_exists: bool,
    config: Option<Seq<u8>>,
    config_exists: bool,
)
    ensures
        chosen_path(Some(asked), local_exists, config, config_exists) == Some(asked),
        chosen_path(None, true, config, config_exists) == Some(encode_utf8("rshx.toml"@)),
        chosen_path(None, false, config, true) == config,
        chosen_path(None, false, config, false) is None,
{
}

/// The configuration directory is the one the environment names, or `.config`
/// below the home directory; an empty setting counts as none.
pub proof fn law_the_configuration_directory_is_the_environments(
    xdg: Option<Seq<u8>>,
    home: Seq<u8>,
)
    ensures
        xdg is Some && xdg->Some_0.len() > 0 ==> config_dir_of(xdg, Some(home)) == xdg
            && config_dir_of(xdg, None) == xdg,
        !(xdg is Some && xdg->Some_0.len() > 0) ==> {
            &&& config_dir_of(xdg, None) is None
            &&& home.len() == 0 ==> config_dir_of(xdg, Some(home)) is None
            &&& home.len() > 0 && home.last() != 47 ==> config_dir_of(xdg, Some(home)) == Some(
                home + encode_utf8("/.config"@),
            )
            &&& home.len() > 0 && home.last() == 47 ==> config_dir_of(xdg, Some(home)) == Some(
                home + encode_utf8(".config"@),
            )
        },
{
    if home.len() > 0 && home.last() != 47 {
        reveal_strlit("/.config");
        reveal_strlit(".config");
        vstd::utf8::is_ascii_chars_encode_utf8("/.config"@);
        vstd::utf8::is_ascii_chars_encode_utf8(".config"@);
        assert(encode_utf8("/.config"@) =~= seq![47u8] + encode_utf8(".config"@));
        assert(home.push(47u8) + encode_utf8(".config"@) =~= home + encode_utf8("/.config"@));
    }
}

/// What is wrong with a name or a user is said, and shown: that it is empty,
/// that it begins with a `-`, or the first character that may not be in it.
pub proof fn law_what_is_wrong_with_a_name_is_said(
    start: Seq<char>,
    bad: char,
    rest: Seq<char>,
)
    requires
        start.len() == 0 || is_argument(start),
        !is_argument(seq!['a', bad]),
        start.len() == 0 ==> bad != '-',
    ensures
        name_complaint(Seq::empty()) == Some("a name may not be empty"@),
        user_complaint(Seq::empty()) == Some("`user` may not be empty"@),
        name_complaint(seq!['-'] + rest) == Some(
            "name `"@ + (seq!['-'] + rest) + "` may not begin with `-`"@,
        ),
        user_complaint(seq!['-'] + rest) == Some(
            "user `"@ + (seq!['-'] + rest) + "` may not begin with `-`"@,
        ),
        name_complaint(start.push(bad) + rest) == Some(
            "name `"@ + (start.push(bad) + rest) + "` contains `"@ + seq![bad]
                + "`; a name may contain only letters, digits, `.`, `_` and `-`"@,
        ),
        user_complaint(start.push(bad) + rest) == Some(
            "user `"@ + (start.push(bad) + rest) + "` contains `"@ + seq![bad]
                + "`; a user may contain only letters, digits, `.`, `_` and `-`"@,
        ),
{
    reveal_strlit("`");
    reveal_strlit("name ");
    reveal_strlit("user ");
    reveal_strlit("name `");
    reveal_strlit("user `");
    reveal_strlit(" may not begin with `-`");
    reveal_strlit("` may not begin with `-`");
    reveal_strlit(" contains ");
    reveal_strlit("` contains `");
    reveal_strlit("; a name may contain only letters, digits, `.`, `_` and `-`");
    reveal_strlit("`; a name may contain only letters, digits, `.`, `_` and `-`");
    reveal_strlit("; a user may contain only letters, digits, `.`, `_` and `-`");
    reveal_strlit("`; a user may contain only letters, digits, `.`, `_` and `-`");
    let dashed = seq!['-'] + rest;
    assert(dashed[0] == '-');
    assert("name "@ + quoted(dashed) + " may not begin with `-`"@ =~= "name `"@ + dashed
        + "` may not begin with `-`"@);
    assert("user "@ + quoted(dashed) + " may not begin with `-`"@ =~= "user `"@ + dashed
        + "` may not begin with `-`"@);
    let s = start.push(bad) + rest;
    let n = start.len() as int;
    let marks = seq!['.', '_', '-'];
    assert(marks[0] == '.' && marks[1] == '_' && marks[2] == '-');
    let probe = seq!['a', bad];
    assert(!is_plain(bad)) by {
        if is_plain(bad) {
            assert forall|i: int| 0 <= i < probe.len() implies {
                let c = #[trigger] probe[i];
                ('a' <= c <= 'z') || ('A' <= c <= 'Z') || ('0' <= c <= '9') || marks.contains(c)
            } by {}
            assert(is_argument(probe));
        }
    }
    assert forall|j: int| 0 <= j < n implies is_plain(#[trigger] s[j]) by {
        assert(s[j] == start[j]);
    }
    assert(s[n] == bad);
    lemma_first_bad(s, n);
    if n > 0 {
        assert(s[0] == start[0]);
    }
    assert("name "@ + quoted(s) + " contains "@ + quoted(seq![bad])
        + "; a name may contain only letters, digits, `.`, `_` and `-`"@ =~= "name `"@ + s
        + "` contains `"@ + seq![bad]
        + "`; a name may contain only letters, digits, `.`, `_` and `-`"@);
    assert("user "@ + quoted(s) + " contains "@ + quoted(seq![bad])
        + "; a user may contain only letters, digits, `.`, `_` and `-`"@ =~= "user `"@ + s
        + "` contains `"@ + seq![bad]
        + "`; a user may contain only letters, digits, `.`, `_` and `-`"@);
}

/// How a message names an entry: by its place in the file, counted from one, and
/// by the name as it is written there.
pub open spec fn named_entry(entries: Seq<HostModel>, i: int) -> Seq<char> {
    decimal(i + 1) + " (`"@ + entries[i].name + "`)"@
}

/// What is said where two entries declare one name.
pub open spec fn both_declare(entries: Seq<HostModel>, i: int, j: int, name: Seq<char>) -> Seq<
    char,
> {
    "entries "@ + named_entry(entries, i) + " and "@ + named_entry(entries, j) + " both declare `"@
        + name + "`"@
}

proof fn lemma_declared_by_entry(entries: Seq<HostModel>, n: int, i: int)
    requires
        0 <= n <= entries.len(),
        declare_entries(entries, n) is Ok,
        0 <= i < declare_entries(entries, n)->Ok_0.len(),
    ensures
        ({
            let d = declare_entries(entries, n)->Ok_0[i];
            &&& 0 <= d.entry < n
            &&& expanded(entries[d.entry].name) is Ok
            &&& expanded(entries[d.entry].name)->Ok_0.contains(d.host.name)
        }),
    decreases n,
{
    if n > 0 {
        let before = declare_entries(entries, n - 1)->Ok_0;
        let names = expanded(entries[n - 1].name)->Ok_0;
        lemma_declared_by_names(entries, n - 1, before, names, i);
        if i < before.len() {
            lemma_declared_by_entry(entries, n - 1, i);
        }
    }
}

proof fn lemma_declared_by_names(
    entries: Seq<HostModel>,
    index: int,
    before: Seq<Declared>,
    names: Seq<Seq<char>>,
    i: int,
)
    requires
        declare_names(entries, index, before, names) is Ok,
        0 <= i < declare_names(entries, index, before, names)->Ok_0.len(),
    ensures
        ({
            let d = declare_names(entries, index, before, names)->Ok_0[i];
            if i < before.len() {
                d == before[i]
            } else {
                d.entry == index && names.contains(d.host.name)
            }
        }),
    decreases names.len(),
{
    if names.len() > 0 {
        let fewer = names.drop_last();
        let list = declare_names(entries, index, before, fewer)->Ok_0;
        lemma_names_only_add(entries, index, before, fewer);
        if i < list.len() {
            lemma_declared_by_names(entries, index, before, fewer, i);
            if i >= before.len() {
                let name = list[i].host.name;
                let j = choose|j: int| 0 <= j < fewer.len() && fewer[j] == name;
                assert(names[j] == name);
            }
        } else {
            assert(names[names.len() - 1] == names.last());
        }
    }
}

proof fn lemma_names_only_add(
    entries: Seq<HostModel>,
    index: int,
    before: Seq<Declared>,
    names: Seq<Seq<char>>,
)
    requires
        declare_names(entries, index, before, names) is Ok,
    ensures
        declare_names(entries, index, before, names)->Ok_0.len() == before.len() + names.len(),
    decreases names.len(),
{
    if names.len() > 0 {
        lemma_names_only_add(entries, index, before, names.drop_last());
    }
}

proof fn lemma_owner_declared(list: Seq<Declared>, name: Seq<char>) -> (i: int)
    requires
        owner(list, name) is Some,
    ensures
        0 <= i < list.len(),
        list[i].host.name == name,
        owner(list, name) == Some(list[i].entry),
    decreases list.len(),
{
    if list.last().host.name == name {
        list.len() - 1
    } else {
        lemma_owner_declared(list.drop_last(), name)
    }
}

proof fn lemma_entry_is_named(entries: Seq<HostModel>, n: int, why: Seq<char>)
    ensures
        entry_label(entries, n) + ": "@ + why == "entry "@ + named_entry(entries, n) + ": "@ + why,
        entry_label(entries, n)
            + ": `ip` cannot be set on a host pattern; an address belongs to one Host, so declare them separately"@
            == "entry "@ + named_entry(entries, n) + ": "@
            + "`ip` cannot be set on a host pattern; an address belongs to one Host, so declare them separately"@,
{
    reveal_strlit("`");
    reveal_strlit(" (");
    reveal_strlit(" (`");
    reveal_strlit(")");
    reveal_strlit("`)");
    reveal_strlit(": ");
    reveal_strlit(
        ": `ip` cannot be set on a host pattern; an address belongs to one Host, so declare them separately",
    );
    reveal_strlit(
        "`ip` cannot be set on a host pattern; an address belongs to one Host, so declare them separately",
    );
    assert(entry_label(entries, n) =~= "entry "@ + named_entry(entries, n));
    let ip = "`ip` cannot be set on a host pattern; an address belongs to one Host, so declare them separately"@;
    assert(": "@ + ip
        =~= ": `ip` cannot be set on a host pattern; an address belongs to one Host, so declare them separately"@);
    assert(entry_label(entries, n) + (": "@ + ip) =~= entry_label(entries, n) + ": "@ + ip);
}

proof fn lemma_clash_is_named(entries: Seq<HostModel>, k: int, n: int, name: Seq<char>)
    ensures
        clash(entries, k, n, name) == both_declare(entries, k, n, name),
{
    reveal_strlit("`");
    reveal_strlit("entries ");
    reveal_strlit(" (");
    reveal_strlit(" (`");
    reveal_strlit("`)");
    reveal_strlit(") and ");
    reveal_strlit(" and ");
    reveal_strlit(") both declare ");
    reveal_strlit(" both declare `");
    assert(clash(entries, k, n, name) =~= both_declare(entries, k, n, name));
}

/// The first entry that is wrong decides what is said of the file, and is named:
/// for its user, for an address on a pattern, for a pattern that cannot be
/// expanded, for a name that may not be, or, with the entry it clashes with, for
/// a name that is declared already.
pub proof fn law_the_first_wrong_entry_is_named(
    entries: Seq<HostModel>,
    groups: Seq<GroupModel>,
    n: int,
)
    requires
        0 <= n < entries.len(),
        names_of(every_host(entries.take(n))).no_duplicates(),
        forall|i: int| 0 <= i < n ==> is_fine(#[trigger] entries[i]),
    ensures
        ({
            let said = file_of(entries, groups);
            let entry = entries[n];
            let label = "entry "@ + named_entry(entries, n) + ": "@;
            let user_fine = entry.user is Some ==> is_argument(entry.user->Some_0);
            let ip_fine = entry.ip is Some ==> !entry.name.contains('[');
            &&& !user_fine ==> said == Err::<Seq<HostModel>, Seq<char>>(
                label + user_complaint(entry.user->Some_0)->Some_0,
            )
            &&& user_fine && !ip_fine ==> said == Err::<Seq<HostModel>, Seq<char>>(
                label
                    + "`ip` cannot be set on a host pattern; an address belongs to one Host, so declare them separately"@,
            )
            &&& user_fine && ip_fine && expanded(entry.name) is Err ==> said == Err::<
                Seq<HostModel>,
                Seq<char>,
            >(label + expanded(entry.name)->Err_0)
            &&& user_fine && no_bracket(entry.name) && !is_argument(entry.name) ==> said == Err::<
                Seq<HostModel>,
                Seq<char>,
            >(label + name_complaint(entry.name)->Some_0)
            &&& user_fine && no_bracket(entry.name) && is_argument(entry.name) && names_of(
                every_host(entries.take(n)),
            ).contains(entry.name) ==> exists|k: int|
                #![trigger entries[k]]
                {
                    &&& 0 <= k < n
                    &&& expanded(entries[k].name)->Ok_0.contains(entry.name)
                    &&& said == Err::<Seq<HostModel>, Seq<char>>(
                        both_declare(entries, k, n, entry.name),
                    )
                }
        }),
{
    lemma_declare_entries_is(entries, n);
    let entry = entries[n];
    let before = declare_entries(entries, n)->Ok_0;
    if entry.user is Some {
        law_names_and_users_are_arguments(entry.user->Some_0);
        lemma_entry_is_named(entries, n, user_complaint(entry.user->Some_0)->Some_0);
    }
    lemma_entry_is_named(entries, n, expanded(entry.name)->Err_0);
    lemma_entry_is_named(entries, n, name_complaint(entry.name)->Some_0);
    let after = declare_entries(entries, n + 1);
    assert(after == declare_entry(entries, n, before));
    if after is Err {
        lemma_declare_entries_fails(entries, n + 1, entries.len() as int);
    }
    if no_bracket(entry.name) {
        law_plain_name_is_itself(entry.name);
        let names = seq![entry.name];
        assert(names.drop_last() =~= Seq::<Seq<char>>::empty());
        assert(declare_names(entries, n, before, names.drop_last()) == Ok::<
            Seq<Declared>,
            Seq<char>,
        >(before));
        law_names_and_users_are_arguments(entry.name);
        lemma_owner_iff(before, entry.name);
        let user_fine = entry.user is Some ==> is_argument(entry.user->Some_0);
        if user_fine && is_argument(entry.name) && owner(before, entry.name) is Some {
            let i = lemma_owner_declared(before, entry.name);
            lemma_declared_by_entry(entries, n, i);
            let k = before[i].entry;
            lemma_clash_is_named(entries, k, n, entry.name);
            assert(expanded(entries[k].name)->Ok_0.contains(entry.name));
        }
    }
}

/// A file whose entries can all stand is refused for a group that takes the
/// reserved name, and for nothing else.
pub proof fn law_the_reserved_group_cannot_be_declared(
    entries: Seq<HostModel>,
    groups: Seq<GroupModel>,
)
    requires
        names_of(every_host(entries)).no_duplicates(),
        forall|i: int| 0 <= i < entries.len() ==> is_fine(#[trigger] entries[i]),
        group_names(groups).contains("all"@),
    ensures
        file_of(entries, groups) == Err::<Seq<HostModel>, Seq<char>>(
            "`all` is reserved and cannot be declared as a group"@,
        ),
{
    lemma_declare_entries_is(entries, entries.len() as int);
    assert(entries.take(entries.len() as int) =~= entries);
}

/// What is wrong with a file is said of that file.
pub proof fn law_a_file_is_named_with_what_is_wrong(path: Seq<char>, why: Seq<char>)
    ensures
        in_file(path, why) == path + seq![':', ' '] + why,
{
    reveal_strlit(": ");
    assert(": "@ =~= seq![':', ' ']);
}

/// The host file of the configuration directory is `rshx/hosts.toml` in it.
pub proof fn law_a_path_is_joined_by_one_slash(dir: Seq<u8>, name: Seq<u8>)
    ensures
        dir.len() > 0 && dir.last() != 47 ==> path_join(dir, name) == dir + seq![47u8] + name,
        dir.len() > 0 && dir.last() == 47 ==> path_join(dir, name) == dir + name,
        dir.len() == 0 ==> path_join(dir, name) == name,
{
    assert(dir.push(47u8) + name =~= dir + seq![47u8] + name);
    if dir.len() == 0 {
        assert(dir + name =~= name);
    }
}

/// Hosts and entries are taken one by one, with everything that is set for them.
pub proof fn law_hosts_are_taken_as_they_are_declared(
    hosts: Seq<Host>,
    raw: Seq<RawEntry>,
    models: Seq<HostModel>,
    i: int,
)
    ensures
        hosts_of(hosts).len() == hosts.len(),
        entries_of(raw).len() == raw.len(),
        names_of(models).len() == models.len(),
        0 <= i < models.len() ==> names_of(models)[i] == models[i].name,
        0 <= i < hosts.len() ==> {
            let m = hosts_of(hosts)[i];
            &&& m.name == hosts[i].name@
            &&& m.user == opt_text(hosts[i].user)
            &&& m.port == hosts[i].port
            &&& m.ip == opt_text(hosts[i].ip)
            &&& m.unique_privilege_pass == hosts[i].unique_privilege_pass
        },
        0 <= i < raw.len() ==> {
            let m = entries_of(raw)[i];
            &&& m.name == raw[i].name@
            &&& m.user == opt_text(raw[i].user)
            &&& m.port == raw[i].port
            &&& m.ip == opt_text(raw[i].ip)
            &&& m.unique_privilege_pass == raw[i].unique_privilege_pass
        },
{
}

} // verus!
