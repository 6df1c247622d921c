//! Host groups by name, as the host file declares them.

use vstd::prelude::*;

use crate::text::{
    first_place, is_before, lemma_first_place_is, lemma_precedes_chain, lemma_precedes_total,
    precedes, same, texts,
};

verus! {

/// A group as it is declared: its name, and the selectors that pick its Hosts.
/// A selector is a Host name, a host pattern, or another group's name.
#[derive(Debug)]
pub struct Group {
    pub name: String,
    pub selectors: Vec<String>,
}

/// What a group is.
pub ghost struct GroupModel {
    pub name: Seq<char>,
    pub selectors: Seq<Seq<char>>,
}

impl View for Group {
    type V = GroupModel;

    open spec fn view(&self) -> GroupModel {
        GroupModel { name: self.name@, selectors: texts(self.selectors@) }
    }
}

/// The reserved group name meaning "every Host in the file".
pub const ALL: &'static str = "all";

/// Host groups by name, in the order of their names, each name once.
#[derive(Debug)]
pub struct Groups {
    entries: Vec<Group>,
}

/// The names of the groups.
pub open spec fn group_names(groups: Seq<GroupModel>) -> Seq<Seq<char>> {
    groups.map_values(|g: GroupModel| g.name)
}

/// Whether the groups stand in the order of their names, each name once.
pub open spec fn ascending(groups: Seq<GroupModel>) -> bool {
    forall|i: int, j: int|
        0 <= i < j < groups.len() ==> precedes(#[trigger] groups[i].name, #[trigger] groups[j].name)
}

/// Where a name stands or belongs among the groups.
pub open spec fn group_slot(groups: Seq<GroupModel>, name: Seq<char>) -> int
    decreases groups.len(),
{
    if groups.len() == 0 || !precedes(groups[0].name, name) {
        0
    } else {
        1 + group_slot(groups.drop_first(), name)
    }
}

/// The groups with this one put in its place. A group of the same name gives
/// way to it.
pub open spec fn with_group(groups: Seq<GroupModel>, group: GroupModel) -> Seq<GroupModel> {
    let k = group_slot(groups, group.name);
    if k < groups.len() && groups[k].name == group.name {
        groups.update(k, group)
    } else {
        groups.insert(k, group)
    }
}

proof fn lemma_group_slot(groups: Seq<GroupModel>, name: Seq<char>, k: int)
    requires
        0 <= k <= groups.len(),
        forall|j: int| 0 <= j < k ==> precedes((#[trigger] groups[j]).name, name),
        k < groups.len() ==> !precedes(groups[k].name, name),
    ensures
        group_slot(groups, name) == k,
    decreases groups.len(),
{
    if k > 0 {
        assert(precedes(groups[0].name, name));
        let t = groups.drop_first();
        assert forall|j: int| 0 <= j < k - 1 implies precedes((#[trigger] t[j]).name, name) by {
            assert(t[j] == groups[j + 1]);
        }
        lemma_group_slot(t, name, k - 1);
    }
}

impl View for Groups {
    type V = Seq<GroupModel>;

    closed spec fn view(&self) -> Seq<GroupModel> {
        self.entries@.map_values(|g: Group| g@)
    }
}

impl Groups {
    /// The names ascend.
    pub open spec fn wf(&self) -> bool {
        ascending(self@)
    }

    /// No groups.
    pub fn new() -> (r: Groups)
        ensures
            r@ == Seq::<GroupModel>::empty(),
            r.wf(),
    {
        let r = Groups { entries: Vec::new() };
        assert(r@ == Seq::<GroupModel>::empty());
        r
    }

    /// Adds a group. One of the same name is replaced.
    pub fn insert(&mut self, name: String, selectors: Vec<String>)
        requires
            old(self).wf(),
        ensures
            final(self)@ == with_group(
                old(self)@,
                GroupModel { name: name@, selectors: texts(selectors@) },
            ),
            final(self).wf(),
    {
        let ghost before = self@;
        let group = Group { name, selectors };
        let ghost made = group@;
        let mut k: usize = 0;
        while k < self.entries.len() && is_before(
            self.entries[k].name.as_str(),
            group.name.as_str(),
        )
            invariant
                k <= self.entries@.len(),
                self@ == before,
                before.len() == self.entries@.len(),
                group@ == made,
                made.name == group.name@,
                forall|j: int| 0 <= j < self.entries@.len() ==> #[trigger] before[j]
                    == self.entries@[j]@,
                forall|j: int| 0 <= j < k ==> precedes((#[trigger] before[j]).name, made.name),
            decreases self.entries@.len() - k,
        {
            assert(before[k as int].name == self.entries@[k as int].name@);
            k += 1;
        }
        proof {
            if k < before.len() {
                assert(before[k as int].name == self.entries@[k as int].name@);
            }
            lemma_group_slot(before, made.name, k as int);
            lemma_with_group_ascends(before, made);
        }
        if k < self.entries.len() && same(self.entries[k].name.as_str(), group.name.as_str()) {
            self.entries.set(k, group);
            assert(self@ == before.update(k as int, made));
        } else {
            self.entries.insert(k, group);
            assert(self@ == before.insert(k as int, made));
        }
    }

    /// How many groups there are.
    pub(crate) fn len(&self) -> (r: usize)
        ensures
            r == self@.len(),
    {
        self.entries.len()
    }

    /// The selectors of group number `k`.
    pub(crate) fn selectors(&self, k: usize) -> (r: &Vec<String>)
        requires
            k < self@.len(),
        ensures
            texts(r@) == self@[k as int].selectors,
    {
        assert(self@[k as int] == self.entries@[k as int]@);
        &self.entries[k].selectors
    }

    /// Finds the group of this name.
    pub(crate) fn position(&self, name: &str) -> (r: usize)
        ensures
            r == first_place(group_names(self@), name@),
            r <= self@.len(),
    {
        let mut i: usize = 0;
        while i < self.entries.len()
            invariant
                i <= self.entries@.len(),
                forall|j: int| 0 <= j < i ==> #[trigger] group_names(self@)[j] != name@,
            decreases self.entries@.len() - i,
        {
            assert(group_names(self@)[i as int] == self.entries@[i as int].name@);
            if same(self.entries[i].name.as_str(), name) {
                proof {
                    lemma_first_place_is(group_names(self@), name@, i as int);
                }
                return i;
            }
            i += 1;
        }
        proof {
            lemma_first_place_is(group_names(self@), name@, i as int);
        }
        i
    }

    /// The names, in order.
    pub(crate) fn names(&self) -> (r: Vec<String>)
        ensures
            texts(r@) == group_names(self@),
    {
        let mut names: Vec<String> = Vec::new();
        let mut i: usize = 0;
        while i < self.entries.len()
            invariant
                i <= self.entries@.len(),
                texts(names@) == group_names(self@).take(i as int),
            decreases self.entries@.len() - i,
        {
            let ghost before = names@;
            names.push(self.entries[i].name.clone());
            i += 1;
            proof {
                assert(texts(names@) == texts(before).push(self.entries@[i - 1].name@));
                assert(group_names(self@).take(i as int) == group_names(self@).take(i - 1).push(
                    self.entries@[i - 1].name@,
                ));
            }
        }
        assert(group_names(self@).take(self.entries@.len() as int) == group_names(self@));
        names
    }
}

/// Putting a group in its place keeps the names in order, each once.
proof fn lemma_with_group_ascends(groups: Seq<GroupModel>, group: GroupModel)
    requires
        ascending(groups),
    ensures
        ascending(with_group(groups, group)),
{
    let k = group_slot(groups, group.name);
    lemma_group_slot_is(groups, group.name);
    let after = with_group(groups, group);
    assert forall|i: int, j: int| 0 <= i < j < after.len() implies precedes(
        #[trigger] after[i].name,
        #[trigger] after[j].name,
    ) by {
        if k < groups.len() && groups[k].name == group.name {
            assert(precedes(groups[i].name, groups[j].name));
        } else {
            if k < groups.len() {
                lemma_precedes_total(groups[k].name, group.name);
            }
            if i == k {
                assert(after[j] == groups[j - 1]);
                if j - 1 > k {
                    lemma_precedes_chain(group.name, groups[k].name, groups[j - 1].name);
                }
            } else if j == k {
                assert(after[i] == groups[i]);
            } else {
                let a = if i < k {
                    i
                } else {
                    i - 1
                };
                let b = if j < k {
                    j
                } else {
                    j - 1
                };
                assert(after[i] == groups[a] && after[j] == groups[b]);
            }
        }
    }
}

proof fn lemma_group_slot_is(groups: Seq<GroupModel>, name: Seq<char>)
    ensures
        0 <= group_slot(groups, name) <= groups.len(),
        forall|j: int|
            0 <= j < group_slot(groups, name) ==> precedes((#[trigger] groups[j]).name, name),
        group_slot(groups, name) < groups.len() ==> !precedes(
            groups[group_slot(groups, name)].name,
            name,
        ),
    decreases groups.len(),
{
    if groups.len() > 0 && precedes(groups[0].name, name) {
        let t = groups.drop_first();
        lemma_group_slot_is(t, name);
        let k = group_slot(groups, name);
        assert forall|j: int| 0 <= j < k implies precedes((#[trigger] groups[j]).name, name) by {
            if j > 0 {
                assert(t[j - 1] == groups[j]);
            }
        }
        if k < groups.len() {
            assert(t[k - 1] == groups[k]);
        }
    }
}

/// Declaring a group puts it among the groups under its name, in place of one
/// declared before, and leaves every other group as it was.
pub proof fn law_a_group_is_kept_as_it_was_declared_last(
    groups: Seq<GroupModel>,
    group: GroupModel,
    other: GroupModel,
)
    requires
        ascending(groups),
    ensures
        with_group(groups, group).contains(group),
        other.name != group.name ==> with_group(groups, group).contains(other) == groups.contains(
            other,
        ),
        other.name == group.name && with_group(groups, group).contains(other) ==> other == group,
        ascending(with_group(groups, group)),
{
    let k = group_slot(groups, group.name);
    let after = with_group(groups, group);
    lemma_group_slot_is(groups, group.name);
    lemma_with_group_ascends(groups, group);
    assert(after[k] == group);
    let replaced = k < groups.len() && groups[k].name == group.name;
    if other.name != group.name && groups.contains(other) {
        let i = choose|i: int| 0 <= i < groups.len() && groups[i] == other;
        if replaced || i < k {
            assert(after[i] == other);
        } else {
            assert(after[i + 1] == other);
        }
    }
    if after.contains(other) {
        let i = choose|i: int| 0 <= i < after.len() && after[i] == other;
        if other.name != group.name {
            if replaced || i < k {
                assert(groups[i] == other);
            } else {
                assert(groups[i - 1] == other);
            }
        } else if i < k {
            lemma_precedes_total(after[i].name, after[k].name);
        } else if i > k {
            lemma_precedes_total(after[k].name, after[i].name);
        }
    }
}

/// Groups are known by their names, one for each, in the order of the names.
pub proof fn law_groups_are_known_by_their_names(groups: Seq<GroupModel>, i: int, j: int)
    ensures
        group_names(groups).len() == groups.len(),
        0 <= i < groups.len() ==> group_names(groups)[i] == groups[i].name,
        ascending(groups) && 0 <= i < j < groups.len() ==> precedes(
            group_names(groups)[i],
            group_names(groups)[j],
        ) && groups[i].name != groups[j].name,
{
    if ascending(groups) && 0 <= i < j < groups.len() {
        assert(precedes(groups[i].name, groups[j].name));
        lemma_precedes_total(groups[i].name, groups[j].name);
    }
}

} // verus!
