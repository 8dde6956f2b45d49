//! The group table: named, reusable folder sequences.
//!
//! Every string-keyed, list-valued entry at the top level of the
//! configuration defines a group.  The table is an ordered association list
//! with unique keys, abstracted as a map from group name to the views of
//! its folder nodes.  A later entry for an existing name replaces the
//! earlier one in place, so the table behaves like an insertion-ordered
//! map.

use vstd::prelude::*;

use crate::config::{ConfigError, ConfigValue};
use crate::folder::{fviews, nodes_of, Folder, FolderView};

verus! {

/// No two entries share a key (compared as character sequences).
pub open spec fn unique_keys(entries: Seq<(String, Vec<Folder>)>) -> bool {
    forall|i: int, j: int|
        0 <= i < j < entries.len() ==> entries[i].0@ != entries[j].0@
}

/// The map abstraction of an association list; a later entry for a key
/// wins over an earlier one.
pub open spec fn map_of_entries(entries: Seq<(String, Vec<Folder>)>) -> Map<
    Seq<char>,
    Seq<FolderView>,
>
    decreases entries.len(),
{
    if entries.len() == 0 {
        Map::empty()
    } else {
        map_of_entries(entries.drop_last()).insert(
            entries.last().0@,
            fviews(entries.last().1@),
        )
    }
}

proof fn lemma_unique_drop_last(entries: Seq<(String, Vec<Folder>)>)
    requires
        entries.len() > 0,
        unique_keys(entries),
    ensures
        unique_keys(entries.drop_last()),
{
    assert forall|i: int, j: int|
        0 <= i < j < entries.drop_last().len() implies entries.drop_last()[i].0@
        != entries.drop_last()[j].0@ by {
        assert(entries.drop_last()[i] == entries[i]);
        assert(entries.drop_last()[j] == entries[j]);
    }
}

/// A key that appears in no entry is not in the map.
proof fn lemma_lookup_absent(entries: Seq<(String, Vec<Folder>)>, k: Seq<char>)
    requires
        forall|i: int| 0 <= i < entries.len() ==> entries[i].0@ != k,
    ensures
        !map_of_entries(entries).contains_key(k),
    decreases entries.len(),
{
    if entries.len() > 0 {
        assert forall|i: int|
            0 <= i < entries.drop_last().len() implies entries.drop_last()[i].0@ != k by {
            assert(entries.drop_last()[i] == entries[i]);
        }
        lemma_lookup_absent(entries.drop_last(), k);
    }
}

/// With unique keys, the map sends each entry's key to that entry's value.
proof fn lemma_lookup_found(entries: Seq<(String, Vec<Folder>)>, i: int)
    requires
        0 <= i < entries.len(),
        unique_keys(entries),
    ensures
        map_of_entries(entries).contains_key(entries[i].0@),
        map_of_entries(entries)[entries[i].0@] == fviews(entries[i].1@),
    decreases entries.len(),
{
    if i == entries.len() - 1 {
    } else {
        lemma_unique_drop_last(entries);
        assert(entries.drop_last()[i] == entries[i]);
        lemma_lookup_found(entries.drop_last(), i);
        assert(entries.last().0@ != entries[i].0@);
    }
}

/// Replacing the entry at `i` with one of the same key updates the map at
/// that key.
proof fn lemma_map_of_entries_update(
    entries: Seq<(String, Vec<Folder>)>,
    i: int,
    x: (String, Vec<Folder>),
)
    requires
        0 <= i < entries.len(),
        entries[i].0@ == x.0@,
        unique_keys(entries),
    ensures
        map_of_entries(entries.update(i, x)) == map_of_entries(entries).insert(
            x.0@,
            fviews(x.1@),
        ),
    decreases entries.len(),
{
    let e2 = entries.update(i, x);
    if i == entries.len() - 1 {
        assert(e2.drop_last() =~= entries.drop_last());
        assert(e2.last() == x);
        assert(map_of_entries(e2) =~= map_of_entries(entries).insert(x.0@, fviews(x.1@)));
    } else {
        assert(e2.drop_last() =~= entries.drop_last().update(i, x));
        assert(e2.last() == entries.last());
        lemma_unique_drop_last(entries);
        assert(entries.drop_last()[i] == entries[i]);
        lemma_map_of_entries_update(entries.drop_last(), i, x);
        assert(entries.last().0@ != x.0@);
        assert(map_of_entries(e2) =~= map_of_entries(entries).insert(x.0@, fviews(x.1@)));
    }
}

/// Removing the entry at `i` removes exactly its key from the map.
proof fn lemma_map_of_entries_remove(entries: Seq<(String, Vec<Folder>)>, i: int)
    requires
        0 <= i < entries.len(),
        unique_keys(entries),
    ensures
        map_of_entries(entries.remove(i)) == map_of_entries(entries).remove(entries[i].0@),
    decreases entries.len(),
{
    let k = entries[i].0@;
    if i == entries.len() - 1 {
        assert(entries.remove(i) =~= entries.drop_last());
        lemma_unique_drop_last(entries);
        assert forall|j: int|
            0 <= j < entries.drop_last().len() implies entries.drop_last()[j].0@ != k by {
            assert(entries.drop_last()[j] == entries[j]);
        }
        lemma_lookup_absent(entries.drop_last(), k);
        assert(map_of_entries(entries.remove(i)) =~= map_of_entries(entries).remove(k));
    } else {
        assert(entries.remove(i).drop_last() =~= entries.drop_last().remove(i));
        assert(entries.remove(i).last() == entries.last());
        lemma_unique_drop_last(entries);
        assert(entries.drop_last()[i] == entries[i]);
        lemma_map_of_entries_remove(entries.drop_last(), i);
        assert(entries.last().0@ != k);
        assert(map_of_entries(entries.remove(i)) =~= map_of_entries(entries).remove(k));
    }
}

/// With unique keys, the map has exactly one key per entry.
proof fn lemma_dom_len(entries: Seq<(String, Vec<Folder>)>)
    requires
        unique_keys(entries),
    ensures
        map_of_entries(entries).dom().finite(),
        map_of_entries(entries).dom().len() == entries.len(),
    decreases entries.len(),
{
    broadcast use vstd::set::group_set_axioms;

    if entries.len() == 0 {
        assert(map_of_entries(entries).dom() =~= Set::<Seq<char>>::empty());
    } else {
        lemma_unique_drop_last(entries);
        lemma_dom_len(entries.drop_last());
        let k = entries.last().0@;
        assert forall|j: int|
            0 <= j < entries.drop_last().len() implies entries.drop_last()[j].0@ != k by {
            assert(entries.drop_last()[j] == entries[j]);
        }
        lemma_lookup_absent(entries.drop_last(), k);
        assert(map_of_entries(entries).dom() =~= map_of_entries(entries.drop_last()).dom().insert(
            k,
        ));
    }
}

/// A mapping from group name to the ordered folder nodes the group stands
/// for, kept in insertion order with unique names.
pub struct GroupTable {
    entries: Vec<(String, Vec<Folder>)>,
}

impl View for GroupTable {
    type V = Map<Seq<char>, Seq<FolderView>>;

    closed spec fn view(&self) -> Map<Seq<char>, Seq<FolderView>> {
        map_of_entries(self.entries@)
    }
}

impl GroupTable {
    /// The table's invariant: no two entries share a name.
    pub closed spec fn wf(&self) -> bool {
        unique_keys(self.entries@)
    }

    /// An empty table.
    pub fn new() -> (t: GroupTable)
        ensures
            t@ == Map::<Seq<char>, Seq<FolderView>>::empty(),
            t.wf(),
    {
        GroupTable { entries: Vec::new() }
    }

    /// Binds `name` to `folders`, replacing in place whatever the name was
    /// bound to before.
    pub fn insert(&mut self, name: String, folders: Vec<Folder>)
        requires
            old(self).wf(),
        ensures
            final(self).wf(),
            final(self)@ == old(self)@.insert(name@, fviews(folders@)),
    {
        let ghost entries0 = self.entries@;
        let mut i: usize = 0;
        while i < self.entries.len()
            invariant
                i <= self.entries.len(),
                self.entries@ == entries0,
                old(self).entries@ == entries0,
                unique_keys(entries0),
                forall|j: int| 0 <= j < i ==> self.entries@[j].0@ != name@,
            decreases self.entries.len() - i,
        {
            if self.entries[i].0 == name {
                let ghost x = (name, folders);
                self.entries[i] = (name, folders);
                proof {
                    assert(self.entries@ == entries0.update(i as int, x));
                    lemma_map_of_entries_update(entries0, i as int, x);
                    assert forall|a: int, b: int|
                        0 <= a < b < self.entries@.len() implies self.entries@[a].0@
                        != self.entries@[b].0@ by {
                        if a != i && b != i {
                            assert(self.entries@[a] == entries0[a]);
                            assert(self.entries@[b] == entries0[b]);
                        }
                    }
                }
                return ;
            }
            i += 1;
        }
        self.entries.push((name, folders));
        proof {
            assert(self.entries@.drop_last() =~= entries0);
            lemma_lookup_absent(entries0, name@);
            assert forall|a: int, b: int|
                0 <= a < b < self.entries@.len() implies self.entries@[a].0@
                != self.entries@[b].0@ by {
                if b != entries0.len() {
                    assert(self.entries@[a] == entries0[a]);
                    assert(self.entries@[b] == entries0[b]);
                } else {
                    assert(self.entries@[a] == entries0[a]);
                }
            }
        }
    }

    /// Looks a name up; `Some` exactly when the name is bound, with the
    /// folders the name stands for.
    pub fn get(&self, name: &String) -> (r: Option<&Vec<Folder>>)
        requires
            self.wf(),
        ensures
            match r {
                Some(v) => self@.contains_key(name@) && fviews(v@) == self@[name@],
                None => !self@.contains_key(name@),
            },
    {
        let mut i: usize = 0;
        while i < self.entries.len()
            invariant
                i <= self.entries.len(),
                self.wf(),
                forall|j: int| 0 <= j < i ==> self.entries@[j].0@ != name@,
            decreases self.entries.len() - i,
        {
            if self.entries[i].0 == *name {
                proof {
                    lemma_lookup_found(self.entries@, i as int);
                }
                return Some(&self.entries[i].1);
            }
            i += 1;
        }
        proof {
            lemma_lookup_absent(self.entries@, name@);
        }
        None
    }

    /// Unbinds a name, handing back what it was bound to, if anything.
    pub fn remove(&mut self, name: &String) -> (r: Option<Vec<Folder>>)
        requires
            old(self).wf(),
        ensures
            final(self).wf(),
            final(self)@ == old(self)@.remove(name@),
            match r {
                Some(v) => old(self)@.contains_key(name@) && fviews(v@) == old(self)@[name@],
                None => !old(self)@.contains_key(name@) && *final(self) == *old(self),
            },
    {
        let ghost entries0 = self.entries@;
        let mut i: usize = 0;
        while i < self.entries.len()
            invariant
                i <= self.entries.len(),
                *self == *old(self),
                self.entries@ == entries0,
                unique_keys(entries0),
                forall|j: int| 0 <= j < i ==> self.entries@[j].0@ != name@,
            decreases self.entries.len() - i,
        {
            if self.entries[i].0 == *name {
                proof {
                    lemma_lookup_found(entries0, i as int);
                    lemma_map_of_entries_remove(entries0, i as int);
                }
                let pair = self.entries.remove(i);
                proof {
                    assert forall|a: int, b: int|
                        0 <= a < b < self.entries@.len() implies self.entries@[a].0@
                        != self.entries@[b].0@ by {
                        if a < i {
                            assert(self.entries@[a] == entries0[a]);
                        } else {
                            assert(self.entries@[a] == entries0[a + 1]);
                        }
                        if b < i {
                            assert(self.entries@[b] == entries0[b]);
                        } else {
                            assert(self.entries@[b] == entries0[b + 1]);
                        }
                    }
                }
                return Some(pair.1);
            }
            i += 1;
        }
        proof {
            lemma_lookup_absent(self.entries@, name@);
            assert(self@.remove(name@) =~= self@);
        }
        None
    }

    /// How many groups the table holds; equals the size of the map's
    /// domain because names are unique.
    pub fn len(&self) -> (n: usize)
        requires
            self.wf(),
        ensures
            n == self@.dom().len(),
            self@.dom().finite(),
    {
        proof {
            lemma_dom_len(self.entries@);
        }
        self.entries.len()
    }
}

/// What the top level of the configuration defines as groups: every
/// string-keyed, list-valued entry, in order, later entries winning;
/// entries of any other shape are ignored; the leftmost fatal entry wins.
pub open spec fn groups_of(entries: Seq<(ConfigValue, ConfigValue)>) -> Result<
    Map<Seq<char>, Seq<FolderView>>,
    Seq<char>,
>
    decreases entries.len(),
{
    if entries.len() == 0 {
        Ok(Map::empty())
    } else {
        match groups_of(entries.drop_last()) {
            Err(e) => Err(e),
            Ok(m) => match entries.last().0 {
                ConfigValue::Str(name) => match entries.last().1 {
                    ConfigValue::List(items) => match nodes_of(items@) {
                        Ok(ns) => Ok(m.insert(name@, ns)),
                        Err(e) => Err(e),
                    },
                    _ => Ok(m),
                },
                _ => Ok(m),
            },
        }
    }
}

/// Once a prefix of the entries is fatal, the whole entry list is.
proof fn lemma_groups_of_err_extends(entries: Seq<(ConfigValue, ConfigValue)>, n: int)
    requires
        0 <= n <= entries.len(),
        groups_of(entries.take(n)) matches Err(_),
    ensures
        groups_of(entries) == groups_of(entries.take(n)),
    decreases entries.len() - n,
{
    if n < entries.len() {
        assert(entries.take(n + 1).drop_last() =~= entries.take(n));
        lemma_groups_of_err_extends(entries, n + 1);
    } else {
        assert(entries.take(n) =~= entries);
    }
}

/// Builds the group table from the top-level entries of the configuration
/// mapping.
pub fn build_groups(entries: &Vec<(ConfigValue, ConfigValue)>) -> (r: Result<
    GroupTable,
    ConfigError,
>)
    ensures
        match groups_of(entries@) {
            Ok(m) => r matches Ok(t) && t@ == m && t.wf(),
            Err(name) => r matches Err(e) && e@ == crate::config::ConfigErrorView::GroupNotList(
                name,
            ),
        },
{
    let mut table = GroupTable::new();
    let mut i: usize = 0;
    while i < entries.len()
        invariant
            i <= entries.len(),
            table.wf(),
            groups_of(entries@.take(i as int)) matches Ok(m) && table@ == m,
        decreases entries.len() - i,
    {
        proof {
            assert(entries@.take(i as int + 1).drop_last() =~= entries@.take(i as int));
            assert(entries@.take(i as int + 1).last() == entries@[i as int]);
        }
        let (key, value) = &entries[i];
        match key {
            ConfigValue::Str(name) => match value {
                ConfigValue::List(items) => match Folder::from_array(items) {
                    Ok(folders) => {
                        table.insert(name.clone(), folders);
                    },
                    Err(e) => {
                        proof {
                            lemma_groups_of_err_extends(entries@, i as int + 1);
                        }
                        return Err(e);
                    },
                },
                _ => {},
            },
            _ => {},
        }
        i += 1;
    }
    proof {
        assert(entries@.take(entries@.len() as int) =~= entries@);
    }
    Ok(table)
}

} // verus!
