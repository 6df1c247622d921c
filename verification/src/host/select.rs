//! Selection: the Hosts a run touches, given the groups it names.

use vstd::hash_set::StringHashSet;
use vstd::prelude::*;

use crate::host::group::{group_names, GroupModel, ALL};
use crate::host::pattern::{expand, expanded, quote, quoted};
use crate::host::{hosts_of, labelled, names_of, Host, HostFile, HostModel};
use crate::text::{
    chars_of, contains_char, first_place, join, joined, lemma_first_place, place, same, texts,
};

verus! {

/// The declared names that a selector other than a group's name matches: a
/// literal name, or every Host a host pattern expands to.
pub open spec fn matched(names: Seq<Seq<char>>, selector: Seq<char>) -> Result<
    Set<Seq<char>>,
    Seq<char>,
> {
    if !selector.contains('[') {
        Ok(set![selector].intersect(names.to_set()))
    } else {
        match expanded(selector) {
            Err(why) => Err(why),
            Ok(all) => Ok(all.to_set().intersect(names.to_set())),
        }
    }
}

/// No group of this name.
pub open spec fn unknown_group(groups: Seq<GroupModel>, group: Seq<char>) -> Seq<char> {
    if groups.len() == 0 {
        "no group "@ + quoted(group) + ": the host file declares no groups"@
    } else {
        "no group "@ + quoted(group) + "; the host file declares "@ + joined(
            group_names(groups),
            ", "@,
        )
    }
}

/// The groups that lead back to themselves.
pub open spec fn cycle(visiting: Seq<Seq<char>>, group: Seq<char>) -> Seq<char> {
    "groups form a cycle: "@ + joined(
        visiting.skip(first_place(visiting, group)).push(group),
        " -> "@,
    )
}

/// How messages name a selector of a group.
pub open spec fn selects(group: Seq<char>, selector: Seq<char>) -> Seq<char> {
    "group "@ + quoted(group) + " selects "@ + quoted(selector)
}

/// The groups that are not being expanded already.
pub open spec fn unvisited(groups: Seq<GroupModel>, visiting: Seq<Seq<char>>) -> nat {
    group_names(groups).to_set().difference(visiting.to_set()).len()
}

proof fn lemma_unvisited(groups: Seq<GroupModel>, visiting: Seq<Seq<char>>, group: Seq<char>)
    requires
        group_names(groups).contains(group),
        !visiting.contains(group),
    ensures
        unvisited(groups, visiting.push(group)) < unvisited(groups, visiting),
{
    let all = group_names(groups).to_set();
    vstd::seq_lib::seq_to_set_is_finite(group_names(groups));
    let open = all.difference(visiting.to_set());
    assert(open.contains(group));
    visiting.lemma_push_to_set_commute(group);
    assert(all.difference(visiting.push(group).to_set()) == open.remove(group));
}

/// The names a group selects, following child groups. `visiting` holds the
/// groups on the way to this one.
pub open spec fn group_selection(
    groups: Seq<GroupModel>,
    names: Seq<Seq<char>>,
    group: Seq<char>,
    visiting: Seq<Seq<char>>,
) -> Result<Set<Seq<char>>, Seq<char>>
    decreases unvisited(groups, visiting), 0nat,
    via group_selection_shrinks
{
    let k = first_place(group_names(groups), group);
    if group == ALL@ {
        Ok(names.to_set())
    } else if k >= groups.len() {
        Err(unknown_group(groups, group))
    } else if visiting.contains(group) {
        Err(cycle(visiting, group))
    } else {
        selectors_selection(groups, names, group, groups[k].selectors, visiting.push(group))
    }
}

#[via_fn]
proof fn group_selection_shrinks(
    groups: Seq<GroupModel>,
    names: Seq<Seq<char>>,
    group: Seq<char>,
    visiting: Seq<Seq<char>>,
) {
    lemma_first_place(group_names(groups), group);
    if group_names(groups).contains(group) && !visiting.contains(group) {
        lemma_unvisited(groups, visiting, group);
    }
}

/// The names these selectors of a group select. The first selector that is
/// wrong decides the error.
pub open spec fn selectors_selection(
    groups: Seq<GroupModel>,
    names: Seq<Seq<char>>,
    group: Seq<char>,
    selectors: Seq<Seq<char>>,
    visiting: Seq<Seq<char>>,
) -> Result<Set<Seq<char>>, Seq<char>>
    decreases unvisited(groups, visiting), 1 + selectors.len(),
{
    if selectors.len() == 0 {
        Ok(Set::empty())
    } else {
        match selectors_selection(groups, names, group, selectors.drop_last(), visiting) {
            Err(e) => Err(e),
            Ok(before) => {
                let selector = selectors.last();
                if group_names(groups).contains(selector) {
                    match group_selection(groups, names, selector, visiting) {
                        Err(e) => Err(e),
                        Ok(more) => Ok(before.union(more)),
                    }
                } else {
                    match matched(names, selector) {
                        Err(why) => Err(selects(group, selector) + ": "@ + why),
                        Ok(more) => if more.is_empty() {
                            Err(
                                selects(group, selector)
                                    + ", which matches no Host in the host file; a group that silently selects nothing is a typo"@,
                            )
                        } else {
                            Ok(before.union(more))
                        },
                    }
                }
            },
        }
    }
}

/// The names these groups select together. The first group that is wrong
/// decides the error.
pub open spec fn union_selection(
    groups: Seq<GroupModel>,
    names: Seq<Seq<char>>,
    wanted: Seq<Seq<char>>,
) -> Result<Set<Seq<char>>, Seq<char>>
    decreases wanted.len(),
{
    if wanted.len() == 0 {
        Ok(Set::empty())
    } else {
        match union_selection(groups, names, wanted.drop_last()) {
            Err(e) => Err(e),
            Ok(before) => match group_selection(groups, names, wanted.last(), Seq::empty()) {
                Err(e) => Err(e),
                Ok(more) => Ok(before.union(more)),
            },
        }
    }
}

/// The Hosts whose names are in the set, in the order they stand.
pub open spec fn only(hosts: Seq<HostModel>, wanted: Set<Seq<char>>) -> Seq<HostModel>
    decreases hosts.len(),
{
    if hosts.len() == 0 {
        Seq::empty()
    } else if wanted.contains(hosts.last().name) {
        only(hosts.drop_last(), wanted).push(hosts.last())
    } else {
        only(hosts.drop_last(), wanted)
    }
}

/// The Hosts a run touches, given its groups: every Host where it names none.
pub open spec fn selection(
    hosts: Seq<HostModel>,
    groups: Seq<GroupModel>,
    wanted: Seq<Seq<char>>,
) -> Result<Seq<HostModel>, Seq<char>> {
    if wanted.len() == 0 {
        Ok(hosts)
    } else {
        match union_selection(groups, names_of(hosts), wanted) {
            Err(e) => Err(e),
            Ok(names) => Ok(only(hosts, names)),
        }
    }
}

fn write_selects(group: &str, selector: &str) -> (r: String)
    ensures
        r@ == selects(group@, selector@),
{
    let mut s = "group ".to_string();
    let q = quote(group);
    s.append(q.as_str());
    s.append(" selects ");
    let q = quote(selector);
    s.append(q.as_str());
    s
}

proof fn lemma_selectors_fail(
    groups: Seq<GroupModel>,
    names: Seq<Seq<char>>,
    group: Seq<char>,
    selectors: Seq<Seq<char>>,
    visiting: Seq<Seq<char>>,
    n: int,
)
    requires
        0 <= n <= selectors.len(),
        selectors_selection(groups, names, group, selectors.take(n), visiting) is Err,
    ensures
        selectors_selection(groups, names, group, selectors, visiting) == selectors_selection(
            groups,
            names,
            group,
            selectors.take(n),
            visiting,
        ),
    decreases selectors.len(),
{
    if n == selectors.len() {
        assert(selectors.take(n) == selectors);
    } else {
        assert(selectors.drop_last().take(n) == selectors.take(n));
        lemma_selectors_fail(groups, names, group, selectors.drop_last(), visiting, n);
    }
}

proof fn lemma_union_fails(
    groups: Seq<GroupModel>,
    names: Seq<Seq<char>>,
    wanted: Seq<Seq<char>>,
    n: int,
)
    requires
        0 <= n <= wanted.len(),
        union_selection(groups, names, wanted.take(n)) is Err,
    ensures
        union_selection(groups, names, wanted) == union_selection(groups, names, wanted.take(n)),
    decreases wanted.len(),
{
    if n == wanted.len() {
        assert(wanted.take(n) == wanted);
    } else {
        assert(wanted.drop_last().take(n) == wanted.take(n));
        lemma_union_fails(groups, names, wanted.drop_last(), n);
    }
}

impl HostFile {
    /// The names of the file's Hosts.
    pub open spec fn names(&self) -> Seq<Seq<char>> {
        names_of(hosts_of(self.hosts@))
    }

    /// Whether a Host of this name is declared.
    fn knows(&self, name: &str) -> (r: bool)
        ensures
            r == self.names().contains(name@),
    {
        let mut i: usize = 0;
        while i < self.hosts.len()
            invariant
                i <= self.hosts@.len(),
                forall|j: int| 0 <= j < i ==> #[trigger] self.names()[j] != name@,
            decreases self.hosts@.len() - i,
        {
            assert(self.names()[i as int] == self.hosts@[i as int].name@);
            if same(self.hosts[i].name.as_str(), name) {
                return true;
            }
            i += 1;
        }
        assert(self.names().len() == self.hosts@.len());
        false
    }

    /// Adds the declared Host names a selector matches, and says whether there
    /// are any.
    fn match_selector(&self, selector: &str, found: &mut StringHashSet) -> (r: Result<bool, String>)
        ensures
            match r {
                Ok(any) => {
                    &&& matched(self.names(), selector@) is Ok
                    &&& final(found)@ == old(found)@.union(matched(self.names(), selector@)->Ok_0)
                    &&& any == !matched(self.names(), selector@)->Ok_0.is_empty()
                },
                Err(e) => matched(self.names(), selector@) == Err::<Set<Seq<char>>, Seq<char>>(e@),
            },
    {
        let ghost names = self.names().to_set();
        let ghost start = found@;
        let cs = chars_of(selector);
        if !contains_char(cs.as_slice(), '[') {
            let known = self.knows(selector);
            let ghost more = set![selector@].intersect(names);
            if known {
                found.insert(selector.to_string());
                assert(more.contains(selector@));
            }
            assert(found@ == start.union(more));
            assert(known == !more.is_empty()) by {
                if !known {
                    assert(more == Set::<Seq<char>>::empty());
                }
            }
            return Ok(known);
        }
        let all = match expand(selector) {
            Ok(all) => all,
            Err(why) => {
                return Err(why);
            },
        };
        let ghost every = texts(all@);
        let mut any = false;
        let mut i: usize = 0;
        assert(every.take(0).to_set().intersect(names) == Set::<Seq<char>>::empty());
        assert(start.union(Set::<Seq<char>>::empty()) == start);
        while i < all.len()
            invariant
                i <= all@.len(),
                every == texts(all@),
                names == self.names().to_set(),
                found@ == start.union(every.take(i as int).to_set().intersect(names)),
                any == !every.take(i as int).to_set().intersect(names).is_empty(),
            decreases all@.len() - i,
        {
            let ghost before = every.take(i as int).to_set().intersect(names);
            let ghost after = every.take(i + 1).to_set().intersect(names);
            let known = self.knows(all[i].as_str());
            proof {
                assert(every[i as int] == all@[i as int]@);
                assert(every.take(i + 1) == every.take(i as int).push(every[i as int]));
                every.take(i as int).lemma_push_to_set_commute(every[i as int]);
                if known {
                    assert(after == before.insert(every[i as int]));
                    assert(after.contains(every[i as int]));
                } else {
                    assert(after == before);
                }
            }
            if known {
                found.insert(all[i].clone());
                any = true;
                assert(found@ == start.union(after));
            }
            i += 1;
        }
        assert(every.take(every.len() as int) == every);
        Ok(any)
    }

    /// Adds the names one group selects, following child groups.
    fn expand_group(
        &self,
        group: &str,
        visiting: &mut Vec<String>,
        found: &mut StringHashSet,
    ) -> (r: Result<(), String>)
        ensures
            match r {
                Ok(_) => {
                    let all = group_selection(
                        self.groups@,
                        self.names(),
                        group@,
                        texts(old(visiting)@),
                    );
                    &&& all is Ok
                    &&& final(found)@ == old(found)@.union(all->Ok_0)
                    &&& final(visiting)@ == old(visiting)@
                },
                Err(e) => group_selection(
                    self.groups@,
                    self.names(),
                    group@,
                    texts(old(visiting)@),
                ) == Err::<Set<Seq<char>>, Seq<char>>(e@),
            },
        decreases unvisited(self.groups@, texts(old(visiting)@)), 0nat,
    {
        let ghost names = self.names();
        let ghost path = texts(visiting@);
        if same(group, ALL) {
            self.add_every(found);
            return Ok(());
        }
        let k = self.groups.position(group);
        if k >= self.groups.len() {
            let mut e = "no group ".to_string();
            let q = quote(group);
            e.append(q.as_str());
            if self.groups.len() == 0 {
                e.append(": the host file declares no groups");
            } else {
                e.append("; the host file declares ");
                let known = self.groups.names();
                let list = join(known.as_slice(), ", ");
                e.append(list.as_str());
            }
            return Err(e);
        }
        proof {
            lemma_first_place(path, group@);
            lemma_first_place(group_names(self.groups@), group@);
        }
        let start = place(visiting.as_slice(), group);
        if start < visiting.len() {
            let mut e = "groups form a cycle: ".to_string();
            let mut way: Vec<String> = Vec::new();
            let mut i: usize = start;
            while i < visiting.len()
                invariant
                    start <= i <= visiting@.len(),
                    path == texts(visiting@),
                    texts(way@) == path.subrange(start as int, i as int),
                decreases visiting@.len() - i,
            {
                let ghost before = way@;
                way.push(visiting[i].clone());
                i += 1;
                proof {
                    assert(texts(way@) == texts(before).push(path[i - 1]));
                    assert(path.subrange(start as int, i as int) == path.subrange(
                        start as int,
                        i - 1,
                    ).push(path[i - 1]));
                }
            }
            let ghost before = way@;
            way.push(group.to_string());
            proof {
                assert(texts(way@) == texts(before).push(group@));
                assert(texts(before) == path.skip(start as int));
            }
            let list = join(way.as_slice(), " -> ");
            e.append(list.as_str());
            return Err(e);
        }
        proof {
            lemma_unvisited(self.groups@, path, group@);
        }
        visiting.push(group.to_string());
        assert(texts(visiting@) == path.push(group@));
        match self.expand_selectors(group, k, visiting, found) {
            Ok(_) => {},
            Err(e) => {
                return Err(e);
            },
        }
        visiting.pop();
        assert(visiting@ == old(visiting)@);
        Ok(())
    }

    /// Adds the names the selectors of group number `k` select.
    fn expand_selectors(
        &self,
        group: &str,
        k: usize,
        visiting: &mut Vec<String>,
        found: &mut StringHashSet,
    ) -> (r: Result<(), String>)
        requires
            k < self.groups@.len(),
        ensures
            match r {
                Ok(_) => {
                    let all = selectors_selection(
                        self.groups@,
                        self.names(),
                        group@,
                        self.groups@[k as int].selectors,
                        texts(old(visiting)@),
                    );
                    &&& all is Ok
                    &&& final(found)@ == old(found)@.union(all->Ok_0)
                    &&& final(visiting)@ == old(visiting)@
                },
                Err(e) => selectors_selection(
                    self.groups@,
                    self.names(),
                    group@,
                    self.groups@[k as int].selectors,
                    texts(old(visiting)@),
                ) == Err::<Set<Seq<char>>, Seq<char>>(e@),
            },
        decreases
            unvisited(self.groups@, texts(old(visiting)@)),
            1 + self.groups@[k as int].selectors.len(),
    {
        let ghost groups = self.groups@;
        let ghost names = self.names();
        let ghost path = texts(visiting@);
        let ghost start = found@;
        let ghost all = groups[k as int].selectors;
        let selectors = self.groups.selectors(k);
        let mut i: usize = 0;
        assert(start.union(Set::<Seq<char>>::empty()) == start);
        assert(all.take(0).len() == 0);
        while i < selectors.len()
            invariant
                i <= selectors@.len(),
                k < self.groups@.len(),
                groups == self.groups@,
                names == self.names(),
                all == texts(selectors@),
                all == self.groups@[k as int].selectors,
                path == texts(old(visiting)@),
                visiting@ == old(visiting)@,
                selectors_selection(groups, names, group@, all.take(i as int), path) is Ok,
                found@ == start.union(
                    selectors_selection(groups, names, group@, all.take(i as int), path)->Ok_0,
                ),
            decreases selectors@.len() - i,
        {
            let ghost before = selectors_selection(
                groups,
                names,
                group@,
                all.take(i as int),
                path,
            )->Ok_0;
            let selector = selectors[i].as_str();
            proof {
                assert(all.take(i + 1).drop_last() == all.take(i as int));
                assert(all.take(i + 1).last() == selector@);
                lemma_first_place(group_names(groups), selector@);
            }
            // A child group is a selector that names a group rather than a Host.
            if self.groups.position(selector) < self.groups.len() {
                match self.expand_group(selector, visiting, found) {
                    Ok(_) => {
                        proof {
                            let more = group_selection(groups, names, selector@, path)->Ok_0;
                            assert(start.union(before).union(more) == start.union(
                                before.union(more),
                            ));
                        }
                    },
                    Err(e) => {
                        proof {
                            lemma_selectors_fail(groups, names, group@, all, path, i + 1);
                        }
                        return Err(e);
                    },
                }
            } else {
                match self.match_selector(selector, found) {
                    Ok(any) => {
                        if !any {
                            proof {
                                lemma_selectors_fail(groups, names, group@, all, path, i + 1);
                            }
                            let mut e = write_selects(group, selector);
                            e.append(
                                ", which matches no Host in the host file; a group that silently selects nothing is a typo",
                            );
                            return Err(e);
                        }
                        proof {
                            let more = matched(names, selector@)->Ok_0;
                            assert(start.union(before).union(more) == start.union(
                                before.union(more),
                            ));
                        }
                    },
                    Err(why) => {
                        proof {
                            lemma_selectors_fail(groups, names, group@, all, path, i + 1);
                        }
                        let label = write_selects(group, selector);
                        return Err(labelled(label.as_str(), why.as_str()));
                    },
                }
            }
            i += 1;
        }
        assert(all.take(all.len() as int) == all);
        Ok(())
    }

    /// Adds every declared name.
    fn add_every(&self, found: &mut StringHashSet)
        ensures
            final(found)@ == old(found)@.union(self.names().to_set()),
    {
        let ghost names = self.names();
        let ghost start = found@;
        let mut i: usize = 0;
        assert(start.union(names.take(0).to_set()) == start);
        while i < self.hosts.len()
            invariant
                i <= self.hosts@.len(),
                names == self.names(),
                found@ == start.union(names.take(i as int).to_set()),
            decreases self.hosts@.len() - i,
        {
            found.insert(self.hosts[i].name.clone());
            proof {
                assert(names[i as int] == self.hosts@[i as int].name@);
                assert(names.take(i + 1) == names.take(i as int).push(names[i as int]));
                names.take(i as int).lemma_push_to_set_commute(names[i as int]);
                assert(found@ == start.union(names.take(i + 1).to_set()));
            }
            i += 1;
        }
        assert(names.take(names.len() as int) == names);
    }

    /// The Host names the given groups select.
    fn selected_names(&self, groups: &[String]) -> (r: Result<StringHashSet, String>)
        ensures
            match r {
                Ok(found) => union_selection(self.groups@, self.names(), texts(groups@)) == Ok::<
                    Set<Seq<char>>,
                    Seq<char>,
                >(found@),
                Err(e) => union_selection(self.groups@, self.names(), texts(groups@)) == Err::<
                    Set<Seq<char>>,
                    Seq<char>,
                >(e@),
            },
    {
        let ghost all = texts(groups@);
        let mut found = StringHashSet::new();
        let mut i: usize = 0;
        while i < groups.len()
            invariant
                i <= groups@.len(),
                all == texts(groups@),
                union_selection(self.groups@, self.names(), all.take(i as int)) == Ok::<
                    Set<Seq<char>>,
                    Seq<char>,
                >(found@),
            decreases groups@.len() - i,
        {
            let mut visiting: Vec<String> = Vec::new();
            proof {
                assert(texts(visiting@) == Seq::<Seq<char>>::empty());
                assert(all.take(i + 1).drop_last() == all.take(i as int));
                assert(all.take(i + 1).last() == groups@[i as int]@);
            }
            match self.expand_group(groups[i].as_str(), &mut visiting, &mut found) {
                Ok(_) => {},
                Err(e) => {
                    proof {
                        lemma_union_fails(self.groups@, self.names(), all, i + 1);
                    }
                    return Err(e);
                },
            }
            i += 1;
        }
        assert(all.take(all.len() as int) == all);
        Ok(found)
    }

    /// The Hosts a run should touch, given the `-g` values. No groups means
    /// every Host; several groups mean their union, each Host once, in
    /// host-file order whatever order the groups were named in.
    pub fn select(&self, groups: &[String]) -> (r: Result<Vec<&Host>, String>)
        ensures
            match r {
                Ok(hosts) => selection(hosts_of(self.hosts@), self.groups@, texts(groups@)) == Ok::<
                    Seq<HostModel>,
                    Seq<char>,
                >(hosts@.map_values(|h: &Host| h@)),
                Err(e) => selection(hosts_of(self.hosts@), self.groups@, texts(groups@)) == Err::<
                    Seq<HostModel>,
                    Seq<char>,
                >(e@),
            },
    {
        let ghost all = hosts_of(self.hosts@);
        let ghost model = |h: &Host| h@;
        let mut chosen: Vec<&Host> = Vec::new();
        let mut i: usize = 0;
        if groups.len() == 0 {
            while i < self.hosts.len()
                invariant
                    i <= self.hosts@.len(),
                    all == hosts_of(self.hosts@),
                    model == (|h: &Host| h@),
                    chosen@.map_values(model) == all.take(i as int),
                decreases self.hosts@.len() - i,
            {
                let ghost before = chosen@;
                chosen.push(&self.hosts[i]);
                i += 1;
                proof {
                    assert(chosen@.map_values(model) == before.map_values(model).push(all[i - 1]));
                    assert(all.take(i as int) == all.take(i - 1).push(all[i - 1]));
                }
            }
            assert(all.take(all.len() as int) == all);
            return Ok(chosen);
        }
        let wanted = match self.selected_names(groups) {
            Ok(wanted) => wanted,
            Err(e) => {
                return Err(e);
            },
        };
        assert(chosen@.map_values(model) == only(all.take(0), wanted@));
        while i < self.hosts.len()
            invariant
                i <= self.hosts@.len(),
                all == hosts_of(self.hosts@),
                model == (|h: &Host| h@),
                chosen@.map_values(model) == only(all.take(i as int), wanted@),
            decreases self.hosts@.len() - i,
        {
            let ghost before = chosen@;
            if wanted.contains(self.hosts[i].name.as_str()) {
                chosen.push(&self.hosts[i]);
                assert(chosen@.map_values(model) == before.map_values(model).push(all[i as int]));
            }
            i += 1;
            proof {
                assert(all.take(i as int).drop_last() == all.take(i - 1));
                assert(all.take(i as int).last() == self.hosts@[i - 1]@);
            }
        }
        assert(all.take(all.len() as int) == all);
        Ok(chosen)
    }
}

/// A run that names no group touches every Host.
pub proof fn law_no_groups_means_every_host(hosts: Seq<HostModel>, groups: Seq<GroupModel>)
    ensures
        selection(hosts, groups, Seq::empty()) == Ok::<Seq<HostModel>, Seq<char>>(hosts),
{
}

proof fn lemma_only_all(hosts: Seq<HostModel>, wanted: Set<Seq<char>>)
    requires
        forall|i: int| 0 <= i < hosts.len() ==> wanted.contains((#[trigger] hosts[i]).name),
    ensures
        only(hosts, wanted) == hosts,
    decreases hosts.len(),
{
    if hosts.len() > 0 {
        let before = hosts.drop_last();
        assert forall|i: int| 0 <= i < before.len() implies wanted.contains(
            (#[trigger] before[i]).name,
        ) by {
            assert(before[i] == hosts[i]);
        }
        lemma_only_all(before, wanted);
        assert(wanted.contains(hosts[hosts.len() - 1].name));
        assert(before.push(hosts.last()) == hosts);
    }
}

/// The reserved group is every Host in the file.
pub proof fn law_all_means_every_host(hosts: Seq<HostModel>, groups: Seq<GroupModel>)
    ensures
        selection(hosts, groups, seq![ALL@]) == Ok::<Seq<HostModel>, Seq<char>>(hosts),
{
    let names = names_of(hosts);
    let wanted = seq![ALL@];
    assert(wanted.drop_last() == Seq::<Seq<char>>::empty());
    assert(union_selection(groups, names, wanted.drop_last()) == Ok::<Set<Seq<char>>, Seq<char>>(
        Set::empty(),
    ));
    assert(Set::<Seq<char>>::empty().union(names.to_set()) == names.to_set());
    assert forall|i: int| 0 <= i < hosts.len() implies names.to_set().contains(
        (#[trigger] hosts[i]).name,
    ) by {
        assert(names[i] == hosts[i].name);
    }
    lemma_only_all(hosts, names.to_set());
}

/// The places in the file that the selected Hosts come from.
pub open spec fn chosen_places(hosts: Seq<HostModel>, wanted: Set<Seq<char>>) -> Seq<int>
    decreases hosts.len(),
{
    if hosts.len() == 0 {
        Seq::empty()
    } else if wanted.contains(hosts.last().name) {
        chosen_places(hosts.drop_last(), wanted).push(hosts.len() - 1)
    } else {
        chosen_places(hosts.drop_last(), wanted)
    }
}

/// Selected Hosts come out in host-file order, each place of the file at most
/// once, and a place is taken exactly when its name is wanted.
pub proof fn law_selection_keeps_file_order(hosts: Seq<HostModel>, wanted: Set<Seq<char>>)
    ensures
        only(hosts, wanted).len() == chosen_places(hosts, wanted).len(),
        forall|i: int|
            0 <= i < only(hosts, wanted).len() ==> 0 <= #[trigger] chosen_places(hosts, wanted)[i]
                < hosts.len() && only(hosts, wanted)[i] == hosts[chosen_places(hosts, wanted)[i]],
        forall|i: int, j: int|
            0 <= i < j < only(hosts, wanted).len() ==> #[trigger] chosen_places(hosts, wanted)[i]
                < #[trigger] chosen_places(hosts, wanted)[j],
        forall|k: int|
            0 <= k < hosts.len() ==> chosen_places(hosts, wanted).contains(k) == wanted.contains(
                (#[trigger] hosts[k]).name,
            ),
    decreases hosts.len(),
{
    if hosts.len() > 0 {
        let before = hosts.drop_last();
        law_selection_keeps_file_order(before, wanted);
        let places = chosen_places(hosts, wanted);
        let earlier = chosen_places(before, wanted);
        assert forall|i: int| 0 <= i < earlier.len() implies places[i] == earlier[i] by {}
        assert forall|k: int| 0 <= k < hosts.len() implies places.contains(k) == wanted.contains(
            (#[trigger] hosts[k]).name,
        ) by {
            if k < before.len() {
                assert(before[k] == hosts[k]);
                if earlier.contains(k) {
                    let i = choose|i: int| 0 <= i < earlier.len() && earlier[i] == k;
                    assert(places[i] == k);
                }
                if places.contains(k) {
                    let i = choose|i: int| 0 <= i < places.len() && places[i] == k;
                    assert(earlier[i] == k);
                }
            } else {
                if wanted.contains(hosts[k].name) {
                    assert(places[places.len() - 1] == k);
                } else if places.contains(k) {
                    let i = choose|i: int| 0 <= i < places.len() && places[i] == k;
                    assert(earlier[i] < before.len());
                }
            }
        }
        assert forall|i: int| 0 <= i < only(hosts, wanted).len() implies 0 <= #[trigger] places[i]
            < hosts.len() && only(hosts, wanted)[i] == hosts[places[i]] by {
            if i < earlier.len() {
                assert(only(hosts, wanted)[i] == only(before, wanted)[i]);
                assert(before[earlier[i]] == hosts[earlier[i]]);
            }
        }
    }
}

/// Whether some of the groups, expanded on its own, selects the name.
pub open spec fn some_selects(
    groups: Seq<GroupModel>,
    names: Seq<Seq<char>>,
    wanted: Seq<Seq<char>>,
    name: Seq<char>,
) -> bool {
    exists|i: int|
        0 <= i < wanted.len() && group_selection(
            groups,
            names,
            #[trigger] wanted[i],
            Seq::empty(),
        )->Ok_0.contains(name)
}

/// Several groups together stand exactly where each stands on its own, and
/// select what at least one of them selects.
pub proof fn law_groups_select_their_union(
    groups: Seq<GroupModel>,
    names: Seq<Seq<char>>,
    wanted: Seq<Seq<char>>,
)
    ensures
        union_selection(groups, names, wanted) is Ok <==> (forall|i: int|
            0 <= i < wanted.len() ==> group_selection(
                groups,
                names,
                #[trigger] wanted[i],
                Seq::empty(),
            ) is Ok),
        union_selection(groups, names, wanted) is Ok ==> forall|name: Seq<char>| #[trigger]
            union_selection(groups, names, wanted)->Ok_0.contains(name) <==> some_selects(
                groups,
                names,
                wanted,
                name,
            ),
    decreases wanted.len(),
{
    if wanted.len() > 0 {
        let before = wanted.drop_last();
        law_groups_select_their_union(groups, names, before);
        let last = wanted[wanted.len() - 1];
        assert forall|i: int| 0 <= i < before.len() implies before[i] == wanted[i] by {}
        if union_selection(groups, names, wanted) is Ok {
            assert forall|i: int| 0 <= i < wanted.len() implies group_selection(
                groups,
                names,
                #[trigger] wanted[i],
                Seq::empty(),
            ) is Ok by {
                if i < before.len() {
                    assert(group_selection(groups, names, before[i], Seq::empty()) is Ok);
                }
            }
            assert forall|name: Seq<char>| #[trigger]
                union_selection(groups, names, wanted)->Ok_0.contains(name) <==> some_selects(
                    groups,
                    names,
                    wanted,
                    name,
                ) by {
                if some_selects(groups, names, before, name) {
                    let i = choose|i: int|
                        0 <= i < before.len() && group_selection(
                            groups,
                            names,
                            #[trigger] before[i],
                            Seq::empty(),
                        )->Ok_0.contains(name);
                    assert(group_selection(groups, names, wanted[i], Seq::empty())->Ok_0.contains(
                        name,
                    ));
                }
                if group_selection(groups, names, last, Seq::empty())->Ok_0.contains(name) {
                    assert(some_selects(groups, names, wanted, name));
                }
                if some_selects(groups, names, wanted, name) {
                    let i = choose|i: int|
                        0 <= i < wanted.len() && group_selection(
                            groups,
                            names,
                            #[trigger] wanted[i],
                            Seq::empty(),
                        )->Ok_0.contains(name);
                    if i < before.len() {
                        assert(group_selection(
                            groups,
                            names,
                            before[i],
                            Seq::empty(),
                        )->Ok_0.contains(name));
                        assert(some_selects(groups, names, before, name));
                    }
                }
            }
        } else {
            if union_selection(groups, names, before) is Err {
                let i = choose|i: int|
                    0 <= i < before.len() && !(group_selection(
                        groups,
                        names,
                        #[trigger] before[i],
                        Seq::empty(),
                    ) is Ok);
                assert(!(group_selection(groups, names, wanted[i], Seq::empty()) is Ok));
            } else {
                assert(!(group_selection(groups, names, last, Seq::empty()) is Ok));
            }
        }
    }
}

/// The order in which groups are named, and naming one twice, changes nothing
/// of what is selected.
pub proof fn law_group_order_changes_nothing(
    hosts: Seq<HostModel>,
    groups: Seq<GroupModel>,
    a: Seq<Seq<char>>,
    b: Seq<Seq<char>>,
)
    requires
        a.to_set() == b.to_set(),
    ensures
        selection(hosts, groups, a) is Ok <==> selection(hosts, groups, b) is Ok,
        selection(hosts, groups, a) is Ok ==> selection(hosts, groups, a) == selection(
            hosts,
            groups,
            b,
        ),
{
    let names = names_of(hosts);
    lemma_same_groups(groups, names, a, b);
    lemma_same_groups(groups, names, b, a);
    if a.len() == 0 {
        if b.len() > 0 {
            assert(b.to_set().contains(b[0]));
            assert(a.contains(b[0]));
        }
        assert(a == b);
    } else {
        assert(a.to_set().contains(a[0]));
        assert(b.contains(a[0]));
        if union_selection(groups, names, a) is Ok {
            assert(union_selection(groups, names, a)->Ok_0 =~= union_selection(
                groups,
                names,
                b,
            )->Ok_0);
        }
    }
}

proof fn lemma_same_groups(
    groups: Seq<GroupModel>,
    names: Seq<Seq<char>>,
    a: Seq<Seq<char>>,
    b: Seq<Seq<char>>,
)
    requires
        a.to_set() == b.to_set(),
    ensures
        union_selection(groups, names, a) is Ok ==> union_selection(groups, names, b) is Ok,
        union_selection(groups, names, a) is Ok ==> union_selection(
            groups,
            names,
            a,
        )->Ok_0.subset_of(union_selection(groups, names, b)->Ok_0),
{
    law_groups_select_their_union(groups, names, a);
    law_groups_select_their_union(groups, names, b);
    if union_selection(groups, names, a) is Ok {
        assert forall|i: int| 0 <= i < b.len() implies group_selection(
            groups,
            names,
            #[trigger] b[i],
            Seq::empty(),
        ) is Ok by {
            assert(b.to_set().contains(b[i]));
            assert(a.contains(b[i]));
            let j = choose|j: int| 0 <= j < a.len() && a[j] == b[i];
            assert(group_selection(groups, names, a[j], Seq::empty()) is Ok);
        }
        assert forall|name: Seq<char>|
            union_selection(groups, names, a)->Ok_0.contains(name) implies union_selection(
            groups,
            names,
            b,
        )->Ok_0.contains(name) by {
            assert(some_selects(groups, names, a, name));
            let i = choose|i: int|
                0 <= i < a.len() && group_selection(
                    groups,
                    names,
                    #[trigger] a[i],
                    Seq::empty(),
                )->Ok_0.contains(name);
            assert(a.to_set().contains(a[i]));
            assert(b.contains(a[i]));
            let j = choose|j: int| 0 <= j < b.len() && b[j] == a[i];
            assert(group_selection(groups, names, b[j], Seq::empty())->Ok_0.contains(name));
            assert(some_selects(groups, names, b, name));
        }
    }
}

/// Whether the first group names the second among its selectors.
pub open spec fn is_child(groups: Seq<GroupModel>, group: Seq<char>, child: Seq<char>) -> bool {
    let k = first_place(group_names(groups), group);
    &&& k < groups.len()
    &&& groups[k].selectors.contains(child)
    &&& group_names(groups).contains(child)
}

/// A way from group to group, each naming the next among its selectors.
pub open spec fn is_way(groups: Seq<GroupModel>, way: Seq<Seq<char>>) -> bool {
    &&& way.len() > 0
    &&& forall|i: int| 0 <= i < way.len() - 1 ==> #[trigger] is_child(groups, way[i], way[i + 1])
}

/// Where selectors stand together, every child group among them stands.
proof fn lemma_child_stands(
    groups: Seq<GroupModel>,
    names: Seq<Seq<char>>,
    group: Seq<char>,
    selectors: Seq<Seq<char>>,
    visiting: Seq<Seq<char>>,
    child: Seq<char>,
)
    requires
        selectors_selection(groups, names, group, selectors, visiting) is Ok,
        selectors.contains(child),
        group_names(groups).contains(child),
    ensures
        group_selection(groups, names, child, visiting) is Ok,
        group_selection(groups, names, child, visiting)->Ok_0.subset_of(
            selectors_selection(groups, names, group, selectors, visiting)->Ok_0,
        ),
    decreases selectors.len(),
{
    if selectors.last() != child {
        let i = choose|i: int| 0 <= i < selectors.len() && selectors[i] == child;
        assert(selectors.drop_last()[i] == child);
        lemma_child_stands(groups, names, group, selectors.drop_last(), visiting, child);
    }
}

/// Where a group stands, every group on a way from it stands too, with the
/// groups before it on the way being expanded.
proof fn lemma_way_stands(
    groups: Seq<GroupModel>,
    names: Seq<Seq<char>>,
    way: Seq<Seq<char>>,
    n: int,
)
    requires
        !group_names(groups).contains(ALL@),
        is_way(groups, way),
        0 <= n < way.len(),
        group_selection(groups, names, way[0], Seq::empty()) is Ok,
    ensures
        group_selection(groups, names, way[n], way.take(n)) is Ok,
        group_selection(groups, names, way[n], way.take(n))->Ok_0.subset_of(
            group_selection(groups, names, way[0], Seq::empty())->Ok_0,
        ),
    decreases n,
{
    if n == 0 {
        assert(way.take(0) == Seq::<Seq<char>>::empty());
    } else {
        lemma_way_stands(groups, names, way, n - 1);
        let group = way[n - 1];
        assert(is_child(groups, way[n - 1], way[n - 1 + 1]));
        lemma_first_place(group_names(groups), group);
        let k = first_place(group_names(groups), group);
        assert(way.take(n) == way.take(n - 1).push(group));
        lemma_child_stands(groups, names, group, groups[k].selectors, way.take(n), way[n]);
    }
}

/// Groups that lead back to themselves are refused: no group from which such
/// a circle can be reached selects anything.
pub proof fn law_cycles_are_refused(
    groups: Seq<GroupModel>,
    names: Seq<Seq<char>>,
    way: Seq<Seq<char>>,
    i: int,
    j: int,
)
    requires
        !group_names(groups).contains(ALL@),
        is_way(groups, way),
        0 <= i < j < way.len(),
        way[i] == way[j],
    ensures
        group_selection(groups, names, way[0], Seq::empty()) is Err,
{
    if group_selection(groups, names, way[0], Seq::empty()) is Ok {
        lemma_way_stands(groups, names, way, j);
        assert(way.take(j)[i] == way[j]);
        assert(way.take(j).contains(way[j]));
        assert(is_child(groups, way[j - 1], way[j - 1 + 1]));
        lemma_first_place(group_names(groups), way[j]);
    }
}

/// One of the group's own selectors, not a child group, matches the name.
pub open spec fn matches_directly(
    groups: Seq<GroupModel>,
    names: Seq<Seq<char>>,
    group: Seq<char>,
    name: Seq<char>,
) -> bool {
    let k = first_place(group_names(groups), group);
    &&& k < groups.len()
    &&& exists|selector: Seq<char>|
        {
            &&& #[trigger] groups[k].selectors.contains(selector)
            &&& !group_names(groups).contains(selector)
            &&& matched(names, selector) is Ok
            &&& matched(names, selector)->Ok_0.contains(name)
        }
}

/// Some way from the group leads to a group one of whose own selectors matches
/// the name.
pub open spec fn reaches(
    groups: Seq<GroupModel>,
    names: Seq<Seq<char>>,
    group: Seq<char>,
    name: Seq<char>,
) -> bool {
    exists|way: Seq<Seq<char>>|
        {
            &&& #[trigger] is_way(groups, way)
            &&& way[0] == group
            &&& matches_directly(groups, names, way.last(), name)
        }
}

/// Where selectors stand together, those that match directly match something,
/// and it is among what they select.
proof fn lemma_direct_is_selected(
    groups: Seq<GroupModel>,
    names: Seq<Seq<char>>,
    group: Seq<char>,
    selectors: Seq<Seq<char>>,
    visiting: Seq<Seq<char>>,
    selector: Seq<char>,
)
    requires
        selectors_selection(groups, names, group, selectors, visiting) is Ok,
        selectors.contains(selector),
        !group_names(groups).contains(selector),
    ensures
        matched(names, selector) is Ok,
        !matched(names, selector)->Ok_0.is_empty(),
        matched(names, selector)->Ok_0.subset_of(
            selectors_selection(groups, names, group, selectors, visiting)->Ok_0,
        ),
    decreases selectors.len(),
{
    if selectors.last() != selector {
        let i = choose|i: int| 0 <= i < selectors.len() && selectors[i] == selector;
        assert(selectors.drop_last()[i] == selector);
        lemma_direct_is_selected(groups, names, group, selectors.drop_last(), visiting, selector);
    }
}

/// Every selector must match at least one declared Host: a group is refused
/// where some way from it leads to a group with a selector that names no group
/// and matches no Host, or that cannot be read at all.
pub proof fn law_a_selector_that_matches_nothing_is_refused(
    groups: Seq<GroupModel>,
    names: Seq<Seq<char>>,
    way: Seq<Seq<char>>,
    selector: Seq<char>,
)
    requires
        !group_names(groups).contains(ALL@),
        is_way(groups, way),
        group_names(groups).contains(way.last()),
        groups[first_place(group_names(groups), way.last())].selectors.contains(selector),
        !group_names(groups).contains(selector),
        matched(names, selector) is Err || matched(names, selector)->Ok_0.is_empty(),
    ensures
        group_selection(groups, names, way[0], Seq::empty()) is Err,
{
    if group_selection(groups, names, way[0], Seq::empty()) is Ok {
        let n = way.len() - 1;
        lemma_way_stands(groups, names, way, n);
        let last = way[n];
        let k = first_place(group_names(groups), last);
        lemma_first_place(group_names(groups), last);
        lemma_direct_is_selected(
            groups,
            names,
            last,
            groups[k].selectors,
            way.take(n).push(last),
            selector,
        );
    }
}

/// What a group selects comes from a selector on some way from it.
proof fn lemma_selected_is_reached(
    groups: Seq<GroupModel>,
    names: Seq<Seq<char>>,
    group: Seq<char>,
    visiting: Seq<Seq<char>>,
    name: Seq<char>,
)
    requires
        group != ALL@,
        !group_names(groups).contains(ALL@),
        group_selection(groups, names, group, visiting) is Ok,
        group_selection(groups, names, group, visiting)->Ok_0.contains(name),
    ensures
        reaches(groups, names, group, name),
    decreases unvisited(groups, visiting), 0nat,
{
    let k = first_place(group_names(groups), group);
    lemma_first_place(group_names(groups), group);
    lemma_unvisited(groups, visiting, group);
    lemma_selected_by_selectors(
        groups,
        names,
        group,
        groups[k].selectors,
        visiting.push(group),
        name,
    );
}

proof fn lemma_selected_by_selectors(
    groups: Seq<GroupModel>,
    names: Seq<Seq<char>>,
    group: Seq<char>,
    selectors: Seq<Seq<char>>,
    visiting: Seq<Seq<char>>,
    name: Seq<char>,
)
    requires
        !group_names(groups).contains(ALL@),
        group_names(groups).contains(group),
        forall|s: Seq<char>| #[trigger]
            selectors.contains(s) ==> groups[first_place(
                group_names(groups),
                group,
            )].selectors.contains(s),
        selectors_selection(groups, names, group, selectors, visiting) is Ok,
        selectors_selection(groups, names, group, selectors, visiting)->Ok_0.contains(name),
    ensures
        reaches(groups, names, group, name),
    decreases unvisited(groups, visiting), 1 + selectors.len(),
{
    lemma_first_place(group_names(groups), group);
    let before = selectors.drop_last();
    let selector = selectors.last();
    assert(selectors[selectors.len() - 1] == selector);
    assert(selectors.contains(selector));
    if selectors_selection(groups, names, group, before, visiting)->Ok_0.contains(name) {
        assert forall|s: Seq<char>| #[trigger] before.contains(s) implies groups[first_place(
            group_names(groups),
            group,
        )].selectors.contains(s) by {
            let i = choose|i: int| 0 <= i < before.len() && before[i] == s;
            assert(selectors[i] == s);
            assert(selectors.contains(s));
        }
        lemma_selected_by_selectors(groups, names, group, before, visiting, name);
    } else if group_names(groups).contains(selector) {
        lemma_selected_is_reached(groups, names, selector, visiting, name);
        let rest = choose|way: Seq<Seq<char>>|
            {
                &&& #[trigger] is_way(groups, way)
                &&& way[0] == selector
                &&& matches_directly(groups, names, way.last(), name)
            };
        let way = seq![group] + rest;
        assert forall|i: int| 0 <= i < way.len() - 1 implies #[trigger] is_child(
            groups,
            way[i],
            way[i + 1],
        ) by {
            if i > 0 {
                assert(is_child(groups, rest[i - 1], rest[i - 1 + 1]));
            }
        }
        assert(is_way(groups, way));
        assert(way.last() == rest.last());
    } else {
        let way = seq![group];
        assert(is_way(groups, way));
        assert(matches_directly(groups, names, way.last(), name));
    }
}

/// A group that stands selects a name exactly when some way from it, group to
/// child group, leads to a selector that matches the name.
pub proof fn law_selection_is_what_selectors_reach(
    groups: Seq<GroupModel>,
    names: Seq<Seq<char>>,
    group: Seq<char>,
    name: Seq<char>,
)
    requires
        group != ALL@,
        !group_names(groups).contains(ALL@),
        group_selection(groups, names, group, Seq::empty()) is Ok,
    ensures
        group_selection(groups, names, group, Seq::empty())->Ok_0.contains(name) <==> reaches(
            groups,
            names,
            group,
            name,
        ),
{
    if group_selection(groups, names, group, Seq::empty())->Ok_0.contains(name) {
        lemma_selected_is_reached(groups, names, group, Seq::empty(), name);
    }
    if reaches(groups, names, group, name) {
        let way = choose|way: Seq<Seq<char>>|
            {
                &&& #[trigger] is_way(groups, way)
                &&& way[0] == group
                &&& matches_directly(groups, names, way.last(), name)
            };
        let n = way.len() - 1;
        lemma_way_stands(groups, names, way, n);
        let last = way[n];
        let k = first_place(group_names(groups), last);
        lemma_first_place(group_names(groups), last);
        let selector = choose|selector: Seq<char>|
            {
                &&& #[trigger] groups[k].selectors.contains(selector)
                &&& !group_names(groups).contains(selector)
                &&& matched(names, selector) is Ok
                &&& matched(names, selector)->Ok_0.contains(name)
            };
        lemma_direct_is_selected(
            groups,
            names,
            last,
            groups[k].selectors,
            way.take(n).push(last),
            selector,
        );
    }
}

/// Only declared Hosts are ever selected.
pub proof fn law_only_declared_hosts_are_selected(
    groups: Seq<GroupModel>,
    names: Seq<Seq<char>>,
    group: Seq<char>,
    name: Seq<char>,
)
    requires
        !group_names(groups).contains(ALL@),
        group_selection(groups, names, group, Seq::empty()) is Ok,
        group_selection(groups, names, group, Seq::empty())->Ok_0.contains(name),
    ensures
        names.contains(name),
{
    if group != ALL@ {
        law_selection_is_what_selectors_reach(groups, names, group, name);
    }
}

// ---------------------------------------------------------------------------
// What a run touches
// ---------------------------------------------------------------------------

/// Whether a selector stands for a name: a pattern for each name it expands to,
/// any other text for itself.
pub open spec fn stands_for(selector: Seq<char>, name: Seq<char>) -> bool {
    if selector.contains('[') {
        expanded(selector) is Ok && expanded(selector)->Ok_0.contains(name)
    } else {
        name == selector
    }
}

/// A selector matches a declared name exactly when it stands for it, however
/// many others it stands for.
pub proof fn law_a_selector_matches_every_name_it_stands_for(
    names: Seq<Seq<char>>,
    selector: Seq<char>,
    name: Seq<char>,
)
    ensures
        selector.contains('[') && expanded(selector) is Err ==> matched(names, selector) is Err,
        !(selector.contains('[') && expanded(selector) is Err) ==> {
            &&& matched(names, selector) is Ok
            &&& matched(names, selector)->Ok_0.contains(name) <==> names.contains(name)
                && stands_for(selector, name)
        },
{
    if selector.contains('[') {
        if expanded(selector) is Ok {
            let all = expanded(selector)->Ok_0;
            assert(all.to_set().contains(name) == all.contains(name));
        }
    }
    assert(names.to_set().contains(name) == names.contains(name));
}

/// One of the group's own selectors, not a child group, stands for the name.
pub open spec fn names_directly(
    groups: Seq<GroupModel>,
    group: Seq<char>,
    selector: Seq<char>,
    name: Seq<char>,
) -> bool {
    &&& group_names(groups).contains(group)
    &&& groups[first_place(group_names(groups), group)].selectors.contains(selector)
    &&& !group_names(groups).contains(selector)
    &&& stands_for(selector, name)
}

/// Whether a group is every Host, or leads, by way of child groups, to a
/// selector that stands for the name.
pub open spec fn leads_to(groups: Seq<GroupModel>, group: Seq<char>, name: Seq<char>) -> bool {
    ||| group == "all"@
    ||| exists|way: Seq<Seq<char>>, selector: Seq<char>|
        {
            &&& #[trigger] is_way(groups, way)
            &&& way[0] == group
            &&& #[trigger] names_directly(groups, way.last(), selector, name)
        }
}

/// Whether one of the groups a run names leads to the name.
pub open spec fn is_touched(
    groups: Seq<GroupModel>,
    wanted: Seq<Seq<char>>,
    name: Seq<char>,
) -> bool {
    exists|i: int| 0 <= i < wanted.len() && leads_to(groups, #[trigger] wanted[i], name)
}

proof fn lemma_only_is_a_filter(
    hosts: Seq<HostModel>,
    wanted: Set<Seq<char>>,
    pred: spec_fn(HostModel) -> bool,
)
    requires
        forall|i: int|
            0 <= i < hosts.len() ==> wanted.contains((#[trigger] hosts[i]).name) == pred(hosts[i]),
    ensures
        only(hosts, wanted) == hosts.filter(pred),
    decreases hosts.len(),
{
    reveal(Seq::filter);
    if hosts.len() > 0 {
        let before = hosts.drop_last();
        assert forall|i: int| 0 <= i < before.len() implies wanted.contains(
            (#[trigger] before[i]).name,
        ) == pred(before[i]) by {
            assert(before[i] == hosts[i]);
        }
        lemma_only_is_a_filter(before, wanted, pred);
        assert(wanted.contains(hosts[hosts.len() - 1].name) == pred(hosts[hosts.len() - 1]));
    }
}

proof fn lemma_group_leads(
    groups: Seq<GroupModel>,
    names: Seq<Seq<char>>,
    group: Seq<char>,
    name: Seq<char>,
)
    requires
        !group_names(groups).contains("all"@),
        group_selection(groups, names, group, Seq::empty()) is Ok,
        names.contains(name),
    ensures
        group_selection(groups, names, group, Seq::empty())->Ok_0.contains(name) == leads_to(
            groups,
            group,
            name,
        ),
{
    if group == ALL@ {
        assert(names.to_set().contains(name));
    } else {
        law_selection_is_what_selectors_reach(groups, names, group, name);
        if reaches(groups, names, group, name) {
            let way = choose|way: Seq<Seq<char>>|
                {
                    &&& #[trigger] is_way(groups, way)
                    &&& way[0] == group
                    &&& matches_directly(groups, names, way.last(), name)
                };
            let k = first_place(group_names(groups), way.last());
            lemma_first_place(group_names(groups), way.last());
            let selector = choose|selector: Seq<char>|
                {
                    &&& #[trigger] groups[k].selectors.contains(selector)
                    &&& !group_names(groups).contains(selector)
                    &&& matched(names, selector) is Ok
                    &&& matched(names, selector)->Ok_0.contains(name)
                };
            law_a_selector_matches_every_name_it_stands_for(names, selector, name);
            assert(names_directly(groups, way.last(), selector, name));
        }
        if leads_to(groups, group, name) {
            let (way, selector) = choose|way: Seq<Seq<char>>, selector: Seq<char>|
                {
                    &&& #[trigger] is_way(groups, way)
                    &&& way[0] == group
                    &&& #[trigger] names_directly(groups, way.last(), selector, name)
                };
            lemma_first_place(group_names(groups), way.last());
            law_a_selector_matches_every_name_it_stands_for(names, selector, name);
            assert(matches_directly(groups, names, way.last(), name));
        }
    }
}

/// A run that names groups touches exactly the declared Hosts that one of them
/// leads to, each once, in the order the host file declares them.
pub proof fn law_a_run_touches_what_its_groups_lead_to(
    hosts: Seq<HostModel>,
    groups: Seq<GroupModel>,
    wanted: Seq<Seq<char>>,
)
    requires
        wanted.len() > 0,
        !group_names(groups).contains("all"@),
        selection(hosts, groups, wanted) is Ok,
    ensures
        selection(hosts, groups, wanted)->Ok_0 == hosts.filter(
            |h: HostModel| is_touched(groups, wanted, h.name),
        ),
{
    let names = names_of(hosts);
    let chosen = union_selection(groups, names, wanted)->Ok_0;
    let pred = |h: HostModel| is_touched(groups, wanted, h.name);
    law_groups_select_their_union(groups, names, wanted);
    assert forall|i: int| 0 <= i < hosts.len() implies chosen.contains((#[trigger] hosts[i]).name)
        == pred(hosts[i]) by {
        let name = hosts[i].name;
        assert(names[i] == name);
        assert(names.contains(name));
        if chosen.contains(name) {
            let j = choose|j: int|
                0 <= j < wanted.len() && group_selection(
                    groups,
                    names,
                    #[trigger] wanted[j],
                    Seq::empty(),
                )->Ok_0.contains(name);
            lemma_group_leads(groups, names, wanted[j], name);
            assert(leads_to(groups, wanted[j], name));
        }
        if is_touched(groups, wanted, name) {
            let j = choose|j: int|
                0 <= j < wanted.len() && leads_to(groups, #[trigger] wanted[j], name);
            assert(group_selection(groups, names, wanted[j], Seq::empty()) is Ok);
            lemma_group_leads(groups, names, wanted[j], name);
            assert(some_selects(groups, names, wanted, name));
        }
    }
    lemma_only_is_a_filter(hosts, chosen, pred);
}

/// Whether a selector stands for no declared name.
pub open spec fn stands_for_nothing(names: Seq<Seq<char>>, selector: Seq<char>) -> bool {
    forall|name: Seq<char>| #[trigger] names.contains(name) ==> !stands_for(selector, name)
}

/// Whether a way comes back to a group it has been to, or ends at a group with
/// a selector that is no group and stands for no declared name.
pub open spec fn is_faulty(
    groups: Seq<GroupModel>,
    names: Seq<Seq<char>>,
    way: Seq<Seq<char>>,
) -> bool {
    ||| !way.no_duplicates()
    ||| exists|selector: Seq<char>|
        {
            &&& #[trigger] groups[first_place(
                group_names(groups),
                way.last(),
            )].selectors.contains(selector)
            &&& !group_names(groups).contains(selector)
            &&& stands_for_nothing(names, selector)
        }
}

/// Whether a group may be named: it is every Host, or it is declared and no way
/// from it is faulty.
pub open spec fn is_sound(
    groups: Seq<GroupModel>,
    names: Seq<Seq<char>>,
    group: Seq<char>,
) -> bool {
    ||| group == "all"@
    ||| {
        &&& group_names(groups).contains(group)
        &&& forall|way: Seq<Seq<char>>| #[trigger]
            is_way(groups, way) && way[0] == group ==> !is_faulty(groups, names, way)
    }
}

proof fn lemma_sound_group_stands(
    groups: Seq<GroupModel>,
    names: Seq<Seq<char>>,
    path: Seq<Seq<char>>,
)
    requires
        !group_names(groups).contains("all"@),
        is_way(groups, path),
        group_names(groups).contains(path.last()),
        forall|way: Seq<Seq<char>>| #[trigger]
            is_way(groups, way) && path.is_prefix_of(way) ==> !is_faulty(groups, names, way),
    ensures
        group_selection(groups, names, path.last(), path.drop_last()) is Ok,
    decreases unvisited(groups, path.drop_last()), 0nat,
{
    let group = path.last();
    let visiting = path.drop_last();
    assert(path.is_prefix_of(path)) by {
        assert(path.take(path.len() as int) =~= path);
    }
    assert(!visiting.contains(group)) by {
        if visiting.contains(group) {
            let i = choose|i: int| 0 <= i < visiting.len() && visiting[i] == group;
            assert(path[i] == path[path.len() - 1]);
        }
    }
    assert(visiting.push(group) =~= path);
    lemma_first_place(group_names(groups), group);
    lemma_unvisited(groups, visiting, group);
    let k = first_place(group_names(groups), group);
    lemma_sound_selectors_stand(groups, names, path, groups[k].selectors);
}

proof fn lemma_sound_selectors_stand(
    groups: Seq<GroupModel>,
    names: Seq<Seq<char>>,
    path: Seq<Seq<char>>,
    selectors: Seq<Seq<char>>,
)
    requires
        !group_names(groups).contains("all"@),
        is_way(groups, path),
        group_names(groups).contains(path.last()),
        forall|way: Seq<Seq<char>>| #[trigger]
            is_way(groups, way) && path.is_prefix_of(way) ==> !is_faulty(groups, names, way),
        forall|s: Seq<char>| #[trigger]
            selectors.contains(s) ==> groups[first_place(
                group_names(groups),
                path.last(),
            )].selectors.contains(s),
    ensures
        selectors_selection(groups, names, path.last(), selectors, path) is Ok,
    decreases unvisited(groups, path), 1 + selectors.len(),
{
    if selectors.len() > 0 {
        let before = selectors.drop_last();
        let selector = selectors.last();
        assert forall|s: Seq<char>| #[trigger] before.contains(s) implies groups[first_place(
            group_names(groups),
            path.last(),
        )].selectors.contains(s) by {
            let i = choose|i: int| 0 <= i < before.len() && before[i] == s;
            assert(selectors[i] == s);
            assert(selectors.contains(s));
        }
        lemma_sound_selectors_stand(groups, names, path, before);
        assert(selectors[selectors.len() - 1] == selector);
        assert(selectors.contains(selector));
        assert(path.is_prefix_of(path)) by {
            assert(path.take(path.len() as int) =~= path);
        }
        lemma_first_place(group_names(groups), path.last());
        if group_names(groups).contains(selector) {
            let longer = path.push(selector);
            assert(is_child(groups, path.last(), selector));
            assert forall|i: int| 0 <= i < longer.len() - 1 implies #[trigger] is_child(
                groups,
                longer[i],
                longer[i + 1],
            ) by {
                if i < path.len() - 1 {
                    assert(is_child(groups, path[i], path[i + 1]));
                }
            }
            assert(is_way(groups, longer));
            assert forall|way: Seq<Seq<char>>| #[trigger]
                is_way(groups, way) && longer.is_prefix_of(way) implies !is_faulty(
                groups,
                names,
                way,
            ) by {
                assert(path =~= way.take(path.len() as int)) by {
                    assert(longer =~= way.take(longer.len() as int));
                    assert forall|i: int| 0 <= i < path.len() implies path[i] == way[i] by {
                        assert(longer[i] == way[i]);
                    }
                }
                assert(path.is_prefix_of(way));
            }
            assert(longer.drop_last() =~= path);
            lemma_sound_group_stands(groups, names, longer);
        } else {
            assert(!is_faulty(groups, names, path));
            assert(!stands_for_nothing(names, selector));
            let name = choose|name: Seq<char>| #[trigger]
                names.contains(name) && stands_for(selector, name);
            law_a_selector_matches_every_name_it_stands_for(names, selector, name);
        }
    }
}

proof fn lemma_group_stands_iff_sound(
    groups: Seq<GroupModel>,
    names: Seq<Seq<char>>,
    group: Seq<char>,
)
    requires
        !group_names(groups).contains("all"@),
    ensures
        group_selection(groups, names, group, Seq::empty()) is Ok <==> is_sound(
            groups,
            names,
            group,
        ),
{
    let ok = group_selection(groups, names, group, Seq::empty()) is Ok;
    lemma_first_place(group_names(groups), group);
    if group != ALL@ && ok {
        assert forall|way: Seq<Seq<char>>| #[trigger]
            is_way(groups, way) && way[0] == group implies !is_faulty(groups, names, way) by {
            if !way.no_duplicates() {
                let (i, j) = choose|i: int, j: int|
                    0 <= i < way.len() && 0 <= j < way.len() && i != j && way[i] == way[j];
                if i < j {
                    law_cycles_are_refused(groups, names, way, i, j);
                } else {
                    law_cycles_are_refused(groups, names, way, j, i);
                }
            }
            if is_faulty(groups, names, way) {
                let last = way.last();
                let selector = choose|selector: Seq<char>|
                    {
                        &&& #[trigger] groups[first_place(
                            group_names(groups),
                            last,
                        )].selectors.contains(selector)
                        &&& !group_names(groups).contains(selector)
                        &&& stands_for_nothing(names, selector)
                    };
                assert(group_names(groups).contains(last)) by {
                    if way.len() > 1 {
                        assert(is_child(groups, way[way.len() - 2], way[way.len() - 2 + 1]));
                    }
                }
                if matched(names, selector) is Ok {
                    let all = matched(names, selector)->Ok_0;
                    assert forall|name: Seq<char>| !(#[trigger] all.contains(name)) by {
                        law_a_selector_matches_every_name_it_stands_for(names, selector, name);
                    }
                    assert(all =~= Set::empty());
                }
                law_a_selector_that_matches_nothing_is_refused(groups, names, way, selector);
            }
        }
    }
    if group != ALL@ && is_sound(groups, names, group) {
        let path = seq![group];
        assert(is_way(groups, path));
        assert forall|way: Seq<Seq<char>>| #[trigger]
            is_way(groups, way) && path.is_prefix_of(way) implies !is_faulty(groups, names, way) by {
            assert(path =~= way.take(1));
            assert(way[0] == way.take(1)[0]);
        }
        lemma_sound_group_stands(groups, names, path);
        assert(path.drop_last() =~= Seq::empty());
    }
}

/// A run's groups are refused only for cause: they stand together exactly where
/// each is every Host, or is declared, leads back to no group it has passed, and
/// leads to no selector that stands for no declared Host.
pub proof fn law_groups_are_refused_only_for_cause(
    hosts: Seq<HostModel>,
    groups: Seq<GroupModel>,
    wanted: Seq<Seq<char>>,
)
    requires
        !group_names(groups).contains("all"@),
    ensures
        selection(hosts, groups, wanted) is Ok <==> forall|i: int|
            0 <= i < wanted.len() ==> is_sound(groups, names_of(hosts), #[trigger] wanted[i]),
{
    let names = names_of(hosts);
    law_groups_select_their_union(groups, names, wanted);
    assert forall|i: int| 0 <= i < wanted.len() implies is_sound(groups, names, #[trigger] wanted[i])
        == (group_selection(groups, names, wanted[i], Seq::empty()) is Ok) by {
        lemma_group_stands_iff_sound(groups, names, wanted[i]);
    }
}

/// The first group of a run that is not declared is named, with the groups that
/// are.
pub proof fn law_the_first_unknown_group_is_named(
    hosts: Seq<HostModel>,
    groups: Seq<GroupModel>,
    wanted: Seq<Seq<char>>,
    n: int,
)
    requires
        !group_names(groups).contains("all"@),
        0 <= n < wanted.len(),
        forall|i: int| 0 <= i < n ==> is_sound(groups, names_of(hosts), #[trigger] wanted[i]),
        wanted[n] != "all"@,
        !group_names(groups).contains(wanted[n]),
    ensures
        selection(hosts, groups, wanted) == Err::<Seq<HostModel>, Seq<char>>(
            "no group `"@ + wanted[n] + (if groups.len() == 0 {
                "`: the host file declares no groups"@
            } else {
                "`; the host file declares "@ + joined(group_names(groups), ", "@)
            }),
        ),
{
    reveal_strlit("`");
    reveal_strlit("no group ");
    reveal_strlit("no group `");
    reveal_strlit(": the host file declares no groups");
    reveal_strlit("`: the host file declares no groups");
    reveal_strlit("; the host file declares ");
    reveal_strlit("`; the host file declares ");
    let names = names_of(hosts);
    let group = wanted[n];
    lemma_first_place(group_names(groups), group);
    lemma_union_stands(groups, names, wanted.take(n));
    let some = wanted.take(n + 1);
    assert(some.drop_last() =~= wanted.take(n));
    assert(some.last() == group);
    lemma_union_fails(groups, names, wanted, n + 1);
    let list = joined(group_names(groups), ", "@);
    assert("no group "@ + quoted(group) + ": the host file declares no groups"@ =~= "no group `"@
        + group + "`: the host file declares no groups"@);
    assert("no group "@ + quoted(group) + "; the host file declares "@ + list =~= "no group `"@
        + group + ("`; the host file declares "@ + list));
}

proof fn lemma_union_stands(
    groups: Seq<GroupModel>,
    names: Seq<Seq<char>>,
    wanted: Seq<Seq<char>>,
)
    requires
        !group_names(groups).contains("all"@),
        forall|i: int| 0 <= i < wanted.len() ==> is_sound(groups, names, #[trigger] wanted[i]),
    ensures
        union_selection(groups, names, wanted) is Ok,
{
    law_groups_select_their_union(groups, names, wanted);
    assert forall|i: int| 0 <= i < wanted.len() implies group_selection(
        groups,
        names,
        #[trigger] wanted[i],
        Seq::empty(),
    ) is Ok by {
        lemma_group_stands_iff_sound(groups, names, wanted[i]);
    }
}

/// The first of a group's selectors that stands for no declared Host is named,
/// with the group, and with what is wrong with it where it cannot be read.
#[verifier::spinoff_prover]
#[verifier::rlimit(40)]
pub proof fn law_the_first_idle_selector_is_named(
    groups: Seq<GroupModel>,
    names: Seq<Seq<char>>,
    group: Seq<char>,
    n: int,
)
    requires
        group != "all"@,
        group_names(groups).contains(group),
        0 <= n < groups[first_place(group_names(groups), group)].selectors.len(),
        forall|i: int|
            0 <= i <= n ==> !group_names(groups).contains(
                #[trigger] groups[first_place(group_names(groups), group)].selectors[i],
            ),
        forall|i: int|
            0 <= i < n ==> !stands_for_nothing(
                names,
                #[trigger] groups[first_place(group_names(groups), group)].selectors[i],
            ),
        stands_for_nothing(
            names,
            groups[first_place(group_names(groups), group)].selectors[n],
        ),
    ensures
        ({
            let selector = groups[first_place(group_names(groups), group)].selectors[n];
            group_selection(groups, names, group, Seq::empty()) == Err::<
                Set<Seq<char>>,
                Seq<char>,
            >(
                "group `"@ + group + "` selects `"@ + selector + (if selector.contains('[')
                    && expanded(selector) is Err {
                    "`: "@ + expanded(selector)->Err_0
                } else {
                    "`, which matches no Host in the host file; a group that silently selects nothing is a typo"@
                }),
            )
        }),
{
    reveal_strlit("`");
    reveal_strlit("group ");
    reveal_strlit("group `");
    reveal_strlit(" selects ");
    reveal_strlit("` selects `");
    reveal_strlit(": ");
    reveal_strlit("`: ");
    reveal_strlit(
        ", which matches no Host in the host file; a group that silently selects nothing is a typo",
    );
    reveal_strlit(
        "`, which matches no Host in the host file; a group that silently selects nothing is a typo",
    );
    let k = first_place(group_names(groups), group);
    lemma_first_place(group_names(groups), group);
    let selectors = groups[k].selectors;
    let selector = selectors[n];
    let visiting = Seq::<Seq<char>>::empty().push(group);
    lemma_direct_selectors_stand(groups, names, group, selectors.take(n), visiting);
    let some = selectors.take(n + 1);
    assert(some.drop_last() =~= selectors.take(n));
    assert(some.last() == selector);
    if matched(names, selector) is Ok {
        let all = matched(names, selector)->Ok_0;
        assert forall|name: Seq<char>| !(#[trigger] all.contains(name)) by {
            law_a_selector_matches_every_name_it_stands_for(names, selector, name);
        }
        assert(all =~= Set::empty());
    }
    lemma_selectors_fail(groups, names, group, selectors, visiting, n + 1);
    let what = ", which matches no Host in the host file; a group that silently selects nothing is a typo"@;
    assert(selects(group, selector) + what =~= "group `"@ + group + "` selects `"@ + selector
        + ("`"@ + what));
    assert("`"@ + what
        =~= "`, which matches no Host in the host file; a group that silently selects nothing is a typo"@);
    if selector.contains('[') && expanded(selector) is Err {
        let why = expanded(selector)->Err_0;
        assert(selects(group, selector) + ": "@ + why =~= "group `"@ + group + "` selects `"@
            + selector + ("`: "@ + why));
    }
    assert(!Seq::<Seq<char>>::empty().contains(group));
}

proof fn lemma_direct_selectors_stand(
    groups: Seq<GroupModel>,
    names: Seq<Seq<char>>,
    group: Seq<char>,
    selectors: Seq<Seq<char>>,
    visiting: Seq<Seq<char>>,
)
    requires
        forall|i: int|
            0 <= i < selectors.len() ==> !group_names(groups).contains(#[trigger] selectors[i]),
        forall|i: int|
            0 <= i < selectors.len() ==> !stands_for_nothing(names, #[trigger] selectors[i]),
    ensures
        selectors_selection(groups, names, group, selectors, visiting) is Ok,
    decreases selectors.len(),
{
    if selectors.len() > 0 {
        let before = selectors.drop_last();
        let selector = selectors.last();
        assert forall|i: int| 0 <= i < before.len() implies !group_names(groups).contains(
            #[trigger] before[i],
        ) && !stands_for_nothing(names, before[i]) by {
            assert(before[i] == selectors[i]);
        }
        lemma_direct_selectors_stand(groups, names, group, before, visiting);
        assert(!stands_for_nothing(names, selectors[selectors.len() - 1]));
        let name = choose|name: Seq<char>| #[trigger]
            names.contains(name) && stands_for(selector, name);
        law_a_selector_matches_every_name_it_stands_for(names, selector, name);
        assert(!group_names(groups).contains(selectors[selectors.len() - 1]));
    }
}

/// A circle of groups is spelled out from the group it comes back to, where each
/// group of the way names the next one first.
pub proof fn law_a_circle_is_spelled_out(
    groups: Seq<GroupModel>,
    names: Seq<Seq<char>>,
    way: Seq<Seq<char>>,
    back: int,
    i: int,
)
    requires
        !group_names(groups).contains("all"@),
        way.no_duplicates(),
        0 <= back < way.len(),
        0 <= i < way.len(),
        forall|j: int|
            0 <= j < way.len() ==> {
                &&& group_names(groups).contains(#[trigger] way[j])
                &&& groups[first_place(group_names(groups), way[j])].selectors.len() > 0
                &&& groups[first_place(group_names(groups), way[j])].selectors[0] == (if j
                    < way.len() - 1 {
                    way[j + 1]
                } else {
                    way[back]
                })
            },
    ensures
        group_selection(groups, names, way[i], way.take(i)) == Err::<Set<Seq<char>>, Seq<char>>(
            "groups form a cycle: "@ + joined(way.skip(back).push(way[back]), " -> "@),
        ),
    decreases way.len() - i,
{
    let group = way[i];
    let visiting = way.take(i);
    let k = first_place(group_names(groups), group);
    assert(group_names(groups).contains(way[i]));
    lemma_first_place(group_names(groups), group);
    assert(!visiting.contains(group)) by {
        if visiting.contains(group) {
            let j = choose|j: int| 0 <= j < visiting.len() && visiting[j] == group;
            assert(way[j] == way[i]);
        }
    }
    let longer = visiting.push(group);
    assert(longer =~= way.take(i + 1));
    let selectors = groups[k].selectors;
    let first = selectors[0];
    let some = selectors.take(1);
    assert(some.drop_last() =~= Seq::<Seq<char>>::empty());
    assert(some.last() == first);
    assert(selectors_selection(groups, names, group, some.drop_last(), longer) == Ok::<
        Set<Seq<char>>,
        Seq<char>,
    >(Set::empty()));
    assert(group_selection(groups, names, group, visiting) == selectors_selection(
        groups,
        names,
        group,
        selectors,
        longer,
    ));
    if i < way.len() - 1 {
        assert(group_names(groups).contains(way[i + 1]));
        law_a_circle_is_spelled_out(groups, names, way, back, i + 1);
    } else {
        assert(group_names(groups).contains(way[back]));
        assert(way.take(i + 1) =~= way);
        assert(way.contains(way[back]));
        lemma_first_place(way, way[back]);
        let at = first_place(way, way[back]);
        assert(at == back) by {
            if at != back {
                assert(way[at] == way[back]);
            }
        }
        lemma_first_place(group_names(groups), way[back]);
        assert(longer =~= way);
        assert(group_selection(groups, names, first, longer) == Err::<Set<Seq<char>>, Seq<char>>(
            cycle(way, way[back]),
        ));
    }
    assert(group_names(groups).contains(first));
    assert(group_selection(groups, names, first, longer) is Err);
    assert(selectors_selection(groups, names, group, some, longer) == group_selection(
        groups,
        names,
        first,
        longer,
    ));
    lemma_selectors_fail(groups, names, group, selectors, longer, 1);
}

} // verus!
