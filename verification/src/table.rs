//! A table keyed by endpoint and workspace, kept in the order of its keys.

use crate::order::{asymmetric, increasing, total, transitive};
use crate::order::{lemma_increasing_exists, lemma_increasing_unique};
use crate::text::{before, precedes, same, Text};
use crate::text::{lemma_precedes_irreflexive, lemma_precedes_total, lemma_precedes_transitive};
use vstd::prelude::*;

verus! {

/// Storage key of an endpoint, and the id of a workspace on it.
pub type WorkspaceKey = (String, String);

/// What a [`WorkspaceKey`] holds.
pub type KeyText = (Text, Text);

/// Keys are ordered by endpoint first.
pub open spec fn key_precedes(a: KeyText, b: KeyText) -> bool {
    precedes(a.0, b.0) || (a.0 == b.0 && precedes(a.1, b.1))
}

/// The order of keys.
pub open spec fn key_order() -> spec_fn(KeyText, KeyText) -> bool {
    |a: KeyText, b: KeyText| key_precedes(a, b)
}

/// `key_precedes` is transitive.
proof fn lemma_key_transitive(a: KeyText, b: KeyText, c: KeyText)
    requires
        key_precedes(a, b),
        key_precedes(b, c),
    ensures
        key_precedes(a, c),
{
    lemma_precedes_irreflexive(a.0);
    lemma_precedes_irreflexive(c.0);
    if precedes(a.0, b.0) && precedes(b.0, c.0) {
        lemma_precedes_transitive(a.0, b.0, c.0);
    } else if a.0 == b.0 && b.0 == c.0 {
        lemma_precedes_transitive(a.1, b.1, c.1);
    }
}

/// No key precedes itself.
proof fn lemma_key_irreflexive(a: KeyText)
    ensures
        !key_precedes(a, a),
{
    lemma_precedes_irreflexive(a.0);
    lemma_precedes_irreflexive(a.1);
}

/// Of two different keys one precedes the other.
proof fn lemma_key_total(a: KeyText, b: KeyText)
    ensures
        a == b || key_precedes(a, b) || key_precedes(b, a),
{
    lemma_precedes_total(a.0, b.0);
    lemma_precedes_total(a.1, b.1);
}

/// No two keys precede each other.
pub proof fn lemma_key_order_asymmetric()
    ensures
        asymmetric(key_order()),
{
    let lt = key_order();
    assert forall|a: KeyText, b: KeyText| #[trigger] lt(a, b) implies !lt(b, a) by {
        if key_precedes(b, a) {
            lemma_key_transitive(a, b, a);
            lemma_key_irreflexive(a);
        }
    }
}

/// The keys of a list of entries.
pub open spec fn keys_of<W>(entries: Seq<(KeyText, W)>) -> Seq<KeyText> {
    entries.map_values(|entry: (KeyText, W)| entry.0)
}

/// The map that a list of entries stands for.
pub open spec fn map_of<W>(entries: Seq<(KeyText, W)>) -> Map<KeyText, W> {
    Map::new(
        |key: KeyText| keys_of(entries).contains(key),
        |key: KeyText| entries[keys_of(entries).index_of(key)].1,
    )
}

/// The entries are in the order of their keys, and no key occurs twice.
pub open spec fn ordered<W>(entries: Seq<(KeyText, W)>) -> bool {
    increasing(key_order(), keys_of(entries))
}

/// The entries of a map, in the order of their keys.
pub open spec fn entries_in_order<W>(map: Map<KeyText, W>) -> Seq<(KeyText, W)> {
    choose|entries: Seq<(KeyText, W)>| ordered(entries) && #[trigger] map_of(entries) == map
}

/// Each entry of an ordered list is what its map holds under its key.
pub proof fn lemma_entry<W>(entries: Seq<(KeyText, W)>, i: int)
    requires
        ordered(entries),
        0 <= i < entries.len(),
    ensures
        map_of(entries).contains_key(entries[i].0),
        map_of(entries)[entries[i].0] == entries[i].1,
{
    let keys = keys_of(entries);
    let key = entries[i].0;
    assert(keys[i] == key);
    assert(keys.contains(key));
    let j = keys.index_of(key);
    lemma_key_irreflexive(key);
    let lt = key_order();
    if i < j {
        assert(lt(keys[i], keys[j]));
    }
    if j < i {
        assert(lt(keys[j], keys[i]));
    }
}

/// Each key of the map is the key of an entry.
pub proof fn lemma_key<W>(entries: Seq<(KeyText, W)>, key: KeyText) -> (i: int)
    requires
        map_of(entries).contains_key(key),
    ensures
        0 <= i < entries.len(),
        entries[i].0 == key,
{
    let keys = keys_of(entries);
    let i = keys.index_of(key);
    assert(keys[i] == key);
    i
}

/// An ordered list is the ordered form of its map.
pub proof fn lemma_entries_in_order<W>(entries: Seq<(KeyText, W)>)
    requires
        ordered(entries),
    ensures
        entries_in_order(map_of(entries)) == entries,
{
    let other = entries_in_order(map_of(entries));
    lemma_key_order_asymmetric();
    assert(keys_of(other).to_set() =~= map_of(other).dom());
    assert(keys_of(entries).to_set() =~= map_of(entries).dom());
    lemma_increasing_unique(key_order(), keys_of(other), keys_of(entries));
    assert(other.len() == keys_of(other).len());
    assert forall|i: int| 0 <= i < entries.len() implies other[i] == entries[i] by {
        lemma_entry(other, i);
        lemma_entry(entries, i);
        assert(keys_of(other)[i] == other[i].0);
        assert(keys_of(entries)[i] == entries[i].0);
    }
    assert(other =~= entries);
}

/// The entries of a finite map in order: one for each of its keys.
pub proof fn lemma_map_in_order<W>(map: Map<KeyText, W>)
    requires
        map.dom().finite(),
    ensures
        ordered(entries_in_order(map)),
        map_of(entries_in_order(map)) == map,
{
    let lt = key_order();
    assert forall|a: KeyText, b: KeyText, c: KeyText| #[trigger] lt(a, b) && #[trigger] lt(
        b,
        c,
    ) implies lt(a, c) by {
        lemma_key_transitive(a, b, c);
    }
    assert forall|a: KeyText, b: KeyText| a != b implies #[trigger] lt(a, b) || lt(b, a) by {
        lemma_key_total(a, b);
    }
    assert(transitive(lt) && total(lt));
    let keys = lemma_increasing_exists(lt, map.dom());
    let entries = keys.map_values(|key: KeyText| (key, map[key]));
    assert(keys_of(entries) =~= keys);
    assert forall|key: KeyText| map_of(entries).contains_key(key) == map.contains_key(key) by {
        assert(keys.to_set().contains(key) == map.contains_key(key));
    }
    assert forall|key: KeyText| map_of(entries).contains_key(key) implies map_of(entries)[key]
        == map[key] by {
        let i = lemma_key(entries, key);
        lemma_entry(entries, i);
    }
    assert(map_of(entries) =~= map);
    assert(ordered(entries));
}

/// The empty list stands for the empty map.
pub proof fn lemma_empty<W>()
    ensures
        ordered(Seq::<(KeyText, W)>::empty()),
        map_of(Seq::<(KeyText, W)>::empty()) == Map::<KeyText, W>::empty(),
{
    assert(keys_of(Seq::<(KeyText, W)>::empty()) =~= Seq::empty());
    assert(map_of(Seq::<(KeyText, W)>::empty()) =~= Map::<KeyText, W>::empty());
}

/// Mapping the values of ordered entries maps the values of the map.
pub proof fn lemma_map_values<W>(
    before: Seq<(KeyText, W)>,
    after: Seq<(KeyText, W)>,
    f: spec_fn(W) -> W,
)
    requires
        ordered(before),
        after.len() == before.len(),
        forall|i: int|
            0 <= i < before.len() ==> (#[trigger] after[i]).0 == before[i].0 && after[i].1 == f(
                before[i].1,
            ),
    ensures
        ordered(after),
        map_of(after) == map_of(before).map_values(f),
{
    assert(keys_of(after) =~= keys_of(before));
    let left = map_of(after);
    let right = map_of(before).map_values(f);
    assert forall|key: KeyText| left.contains_key(key) implies left[key] == right[key] by {
        let i = lemma_key(after, key);
        lemma_entry(after, i);
        lemma_entry(before, i);
    }
    assert(left =~= right);
}

/// The part of a map that a test on key and value keeps.
pub open spec fn kept<W>(map: Map<KeyText, W>, test: spec_fn(KeyText, W) -> bool) -> Map<
    KeyText,
    W,
> {
    Map::new(
        |key: KeyText| map.contains_key(key) && test(key, map[key]),
        |key: KeyText| map[key],
    )
}

/// A table of values by endpoint and workspace.
#[derive(Clone, Debug, PartialEq, Eq)]
pub struct WorkspaceTable<V> {
    entries: Vec<(WorkspaceKey, V)>,
}

impl<V: DeepView> WorkspaceTable<V> {
    /// The entries in the order of their keys.
    pub closed spec fn list(&self) -> Seq<(KeyText, V::V)> {
        self.entries.deep_view()
    }

    /// The table as a map.
    pub open spec fn map(&self) -> Map<KeyText, V::V> {
        map_of(self.list())
    }

    /// The entries are in order, and no key occurs twice.
    pub open spec fn wf(&self) -> bool {
        ordered(self.list())
    }

    /// The table without entries.
    pub fn new() -> (r: Self)
        ensures
            r.wf(),
            r.map() == Map::<KeyText, V::V>::empty(),
    {
        let r = WorkspaceTable { entries: Vec::new() };
        proof {
            assert(r.list() =~= Seq::empty());
            lemma_empty::<V::V>();
        }
        r
    }

    /// Where a key stands, or where it would be put.
    fn position(&self, endpoint: &str, workspace_id: &str) -> (i: usize)
        requires
            self.wf(),
        ensures
            i <= self.list().len(),
            forall|j: int|
                0 <= j < i ==> key_precedes(
                    (#[trigger] self.list()[j]).0,
                    (endpoint@, workspace_id@),
                ),
            forall|j: int|
                i <= j < self.list().len() ==> !key_precedes(
                    (#[trigger] self.list()[j]).0,
                    (endpoint@, workspace_id@),
                ),
            self.map().contains_key((endpoint@, workspace_id@)) <==> i < self.list().len()
                && self.list()[i as int].0 == (endpoint@, workspace_id@),
    {
        let ghost key = (endpoint@, workspace_id@);
        let mut i: usize = 0;
        while i < self.entries.len() && (before(self.entries[i].0.0.as_str(), endpoint) || (same(
            self.entries[i].0.0.as_str(),
            endpoint,
        ) && before(self.entries[i].0.1.as_str(), workspace_id)))
            invariant
                i <= self.entries@.len(),
                key == (endpoint@, workspace_id@),
                self.list().len() == self.entries@.len(),
                forall|j: int|
                    0 <= j < self.entries@.len() ==> (#[trigger] self.list()[j]).0 == (
                        self.entries@[j].0.0@,
                        self.entries@[j].0.1@,
                    ),
                forall|j: int| 0 <= j < i ==> key_precedes((#[trigger] self.list()[j]).0, key),
            decreases self.entries.len() - i,
        {
            i += 1;
        }
        proof {
            let lt = key_order();
            let list = self.list();
            let keys = keys_of(list);
            assert forall|j: int| i <= j < list.len() implies !key_precedes(
                (#[trigger] list[j]).0,
                key,
            ) by {
                if i < j && key_precedes(list[j].0, key) {
                    assert(lt(keys[i as int], keys[j]));
                    lemma_key_transitive(list[i as int].0, list[j].0, key);
                }
            }
            if self.map().contains_key(key) {
                let k = lemma_key(list, key);
                lemma_key_irreflexive(key);
                if k > i {
                    assert(lt(keys[i as int], keys[k]));
                }
            }
            if i < list.len() && list[i as int].0 == key {
                lemma_entry(list, i as int);
            }
        }
        i
    }

    /// Whether the entry at `i` has this key.
    fn has_key(&self, i: usize, endpoint: &str, workspace_id: &str) -> (r: bool)
        ensures
            r == (i < self.list().len() && self.list()[i as int].0 == (endpoint@, workspace_id@)),
    {
        i < self.entries.len() && same(self.entries[i].0.0.as_str(), endpoint) && same(
            self.entries[i].0.1.as_str(),
            workspace_id,
        )
    }

    /// What the table holds under a key.
    pub fn get(&self, endpoint: &str, workspace_id: &str) -> (r: Option<&V>)
        requires
            self.wf(),
        ensures
            r.deep_view() == self.map().get((endpoint@, workspace_id@)),
    {
        let i = self.position(endpoint, workspace_id);
        if self.has_key(i, endpoint, workspace_id) {
            proof {
                lemma_entry(self.list(), i as int);
            }
            Some(&self.entries[i].1)
        } else {
            None
        }
    }

    /// Puts a value under a key, in place of one that was there.
    pub fn insert(&mut self, key: WorkspaceKey, value: V)
        requires
            old(self).wf(),
        ensures
            final(self).wf(),
            final(self).map() == old(self).map().insert(key.deep_view(), value.deep_view()),
    {
        let i = self.position(key.0.as_str(), key.1.as_str());
        let ghost list = self.list();
        let ghost k = key.deep_view();
        let ghost v = value.deep_view();
        if self.has_key(i, key.0.as_str(), key.1.as_str()) {
            self.entries[i] = (key, value);
            proof {
                assert(self.list() =~= list.update(i as int, (k, v)));
                lemma_update(list, i as int, v);
            }
        } else {
            self.entries.insert(i, (key, value));
            proof {
                assert(self.list() =~= list.insert(i as int, (k, v)));
                lemma_insert(list, i as int, (k, v));
            }
        }
    }

    /// Takes the entry of a key out, if there is one.
    pub fn remove(&mut self, endpoint: &str, workspace_id: &str)
        requires
            old(self).wf(),
        ensures
            final(self).wf(),
            final(self).map() == old(self).map().remove((endpoint@, workspace_id@)),
    {
        let i = self.position(endpoint, workspace_id);
        let ghost list = self.list();
        if self.has_key(i, endpoint, workspace_id) {
            self.entries.remove(i);
            proof {
                assert(self.list() =~= list.remove(i as int));
                lemma_remove(list, i as int);
            }
        } else {
            proof {
                assert(self.map().remove((endpoint@, workspace_id@)) =~= self.map());
            }
        }
    }

    /// Number of entries.
    pub fn len(&self) -> (r: usize)
        ensures
            r == self.list().len(),
    {
        self.entries.len()
    }

    /// Whether the table has no entries.
    pub fn is_empty(&self) -> (r: bool)
        ensures
            r == (self.map() == Map::<KeyText, V::V>::empty()),
    {
        proof {
            if self.list().len() == 0 {
                assert(self.list() =~= Seq::empty());
                lemma_empty::<V::V>();
            } else {
                assert(keys_of(self.list())[0] == self.list()[0].0);
                assert(self.map().contains_key(self.list()[0].0));
            }
        }
        self.entries.len() == 0
    }

    /// The entry at one place of the order.
    pub fn entry(&self, i: usize) -> (r: &(WorkspaceKey, V))
        requires
            i < self.list().len(),
        ensures
            r.deep_view() == self.list()[i as int],
    {
        &self.entries[i]
    }

    /// Puts another value at one place of the order.
    pub fn set_value(&mut self, i: usize, value: V)
        requires
            i < old(self).list().len(),
        ensures
            final(self).list() == old(self).list().update(
                i as int,
                (old(self).list()[i as int].0, value.deep_view()),
            ),
    {
        let ghost list = self.list();
        self.entries[i].1 = value;
        proof {
            assert(self.list() =~= list.update(i as int, (list[i as int].0, value.deep_view())));
        }
    }

    /// Takes out the entry at one place of the order.
    pub fn remove_entry(&mut self, i: usize)
        requires
            old(self).wf(),
            i < old(self).list().len(),
        ensures
            final(self).wf(),
            final(self).list() == old(self).list().remove(i as int),
            final(self).map() == old(self).map().remove(old(self).list()[i as int].0),
    {
        let ghost list = self.list();
        self.entries.remove(i);
        proof {
            assert(self.list() =~= list.remove(i as int));
            lemma_remove(list, i as int);
        }
    }

    /// The list of a well-formed table is the ordered form of its map.
    pub proof fn lemma_list(&self)
        requires
            self.wf(),
        ensures
            self.list() == entries_in_order(self.map()),
    {
        lemma_entries_in_order(self.list());
    }
}

/// Another value under a key that is there.
proof fn lemma_update<W>(list: Seq<(KeyText, W)>, i: int, value: W)
    requires
        ordered(list),
        0 <= i < list.len(),
    ensures
        ordered(list.update(i, (list[i].0, value))),
        map_of(list.update(i, (list[i].0, value))) == map_of(list).insert(list[i].0, value),
{
    let new = list.update(i, (list[i].0, value));
    assert(keys_of(new) =~= keys_of(list));
    lemma_entry(list, i);
    let left = map_of(new);
    let right = map_of(list).insert(list[i].0, value);
    assert forall|key: KeyText| left.contains_key(key) implies left[key] == right[key] by {
        let j = lemma_key(new, key);
        lemma_entry(new, j);
        lemma_entry(list, j);
        if key == list[i].0 {
            lemma_entry(new, i);
        }
    }
    assert(left =~= right);
}

/// A new key at its place in the order.
proof fn lemma_insert<W>(list: Seq<(KeyText, W)>, i: int, entry: (KeyText, W))
    requires
        ordered(list),
        0 <= i <= list.len(),
        forall|j: int| 0 <= j < i ==> key_precedes((#[trigger] list[j]).0, entry.0),
        forall|j: int| i <= j < list.len() ==> !key_precedes((#[trigger] list[j]).0, entry.0),
        !map_of(list).contains_key(entry.0),
    ensures
        ordered(list.insert(i, entry)),
        map_of(list.insert(i, entry)) == map_of(list).insert(entry.0, entry.1),
{
    let new = list.insert(i, entry);
    let lt = key_order();
    let keys = keys_of(list);
    assert forall|j: int| i <= j < list.len() implies key_precedes(
        entry.0,
        (#[trigger] list[j]).0,
    ) by {
        lemma_key_total(list[j].0, entry.0);
        lemma_entry(list, j);
    }
    assert forall|a: int, b: int| 0 <= a < b < keys_of(new).len() implies #[trigger] lt(
        keys_of(new)[a],
        keys_of(new)[b],
    ) by {
        if a < i && b > i {
            assert(lt(keys[a], keys[b - 1]));
        } else if b < i {
            assert(lt(keys[a], keys[b]));
        } else if a > i {
            assert(lt(keys[a - 1], keys[b - 1]));
        } else if b == i {
            assert(new[a] == list[a]);
        } else {
            assert(new[b] == list[b - 1]);
        }
    }
    let left = map_of(new);
    let right = map_of(list).insert(entry.0, entry.1);
    lemma_entry(new, i);
    assert forall|key: KeyText| left.contains_key(key) == right.contains_key(key) by {
        if left.contains_key(key) {
            let j = lemma_key(new, key);
            if j < i {
                lemma_entry(list, j);
            } else if j > i {
                lemma_entry(list, j - 1);
            }
        }
        if map_of(list).contains_key(key) {
            let j = lemma_key(list, key);
            if j < i {
                lemma_entry(new, j);
            } else {
                lemma_entry(new, j + 1);
            }
        }
    }
    assert forall|key: KeyText| left.contains_key(key) implies left[key] == right[key] by {
        let j = lemma_key(new, key);
        lemma_entry(new, j);
        if j < i {
            lemma_entry(list, j);
        } else if j > i {
            lemma_entry(list, j - 1);
        }
    }
    assert(left =~= right);
}

/// An entry taken out of the order.
proof fn lemma_remove<W>(list: Seq<(KeyText, W)>, i: int)
    requires
        ordered(list),
        0 <= i < list.len(),
    ensures
        ordered(list.remove(i)),
        map_of(list.remove(i)) == map_of(list).remove(list[i].0),
{
    let new = list.remove(i);
    let lt = key_order();
    let keys = keys_of(list);
    assert forall|a: int, b: int| 0 <= a < b < keys_of(new).len() implies #[trigger] lt(
        keys_of(new)[a],
        keys_of(new)[b],
    ) by {
        let a0 = if a < i { a } else { a + 1 };
        let b0 = if b < i { b } else { b + 1 };
        assert(lt(keys[a0], keys[b0]));
    }
    let left = map_of(new);
    let right = map_of(list).remove(list[i].0);
    assert forall|key: KeyText| left.contains_key(key) == right.contains_key(key) by {
        if left.contains_key(key) {
            let j = lemma_key(new, key);
            let j0 = if j < i { j } else { j + 1 };
            lemma_entry(list, j0);
            lemma_key_irreflexive(key);
            if j0 < i {
                assert(lt(keys[j0], keys[i]));
            } else {
                assert(lt(keys[i], keys[j0]));
            }
        }
        if right.contains_key(key) {
            let j = lemma_key(list, key);
            if j < i {
                lemma_entry(new, j);
            } else {
                lemma_entry(new, j - 1);
            }
        }
    }
    assert forall|key: KeyText| left.contains_key(key) implies left[key] == right[key] by {
        let j = lemma_key(new, key);
        lemma_entry(new, j);
        lemma_entry(list, if j < i { j } else { j + 1 });
    }
    assert(left =~= right);
}

} // verus!
