//! A small keyed table: a list of entries in which no key occurs twice,
//! specified as a map.

use vstd::prelude::*;
use vstd::string::*;

use crate::text::{bytes_eq, str_eq};

verus! {

/// A type whose values can stand as keys of a [`Table`].
pub trait TableKey: Sized {
    /// What identifies a key.
    type Id;

    /// What identifies this key.
    spec fn id(&self) -> Self::Id;

    /// Whether two keys are the same.
    fn same(&self, other: &Self) -> (r: bool)
        ensures
            r == (self.id() == other.id()),
    ;
}

impl TableKey for [u8; 16] {
    type Id = Seq<u8>;

    open spec fn id(&self) -> Seq<u8> {
        self@
    }

    fn same(&self, other: &Self) -> (r: bool) {
        bytes_eq(self.as_slice(), other.as_slice())
    }
}

impl TableKey for [u8; 32] {
    type Id = Seq<u8>;

    open spec fn id(&self) -> Seq<u8> {
        self@
    }

    fn same(&self, other: &Self) -> (r: bool) {
        bytes_eq(self.as_slice(), other.as_slice())
    }
}

impl TableKey for String {
    type Id = Seq<char>;

    open spec fn id(&self) -> Seq<char> {
        self@
    }

    fn same(&self, other: &Self) -> (r: bool) {
        str_eq(self.as_str(), other.as_str())
    }
}

/// The map that a list of entries stands for.
pub open spec fn map_of<K: TableKey, V>(entries: Seq<(K, V)>) -> Map<K::Id, V>
    decreases entries.len(),
{
    if entries.len() == 0 {
        Map::empty()
    } else {
        map_of(entries.drop_last()).insert(entries.last().0.id(), entries.last().1)
    }
}

/// No key occurs twice.
pub open spec fn unique_keys<K: TableKey, V>(entries: Seq<(K, V)>) -> bool {
    forall|i: int, j: int|
        0 <= i < j < entries.len() ==> (#[trigger] entries[i]).0.id() != (#[trigger] entries[j]).0.id()
}

proof fn lemma_map_of<K: TableKey, V>(entries: Seq<(K, V)>)
    requires
        unique_keys(entries),
    ensures
        forall|k: K::Id| #[trigger]
            map_of(entries).contains_key(k) ==> exists|i: int|
                0 <= i < entries.len() && (#[trigger] entries[i]).0.id() == k,
        forall|i: int|
            0 <= i < entries.len() ==> map_of(entries).contains_key((#[trigger] entries[i]).0.id())
                && map_of(entries)[entries[i].0.id()] == entries[i].1,
    decreases entries.len(),
{
    if entries.len() > 0 {
        let init = entries.drop_last();
        assert forall|i: int, j: int| 0 <= i < j < init.len() implies (#[trigger] init[i]).0.id()
            != (#[trigger] init[j]).0.id() by {
            assert(init[i] == entries[i] && init[j] == entries[j]);
        }
        lemma_map_of(init);
        assert forall|k: K::Id| #[trigger] map_of(entries).contains_key(k) implies exists|i: int|
            0 <= i < entries.len() && (#[trigger] entries[i]).0.id() == k by {
            if k == entries.last().0.id() {
                assert(entries[entries.len() - 1].0.id() == k);
            } else {
                assert(map_of(init).contains_key(k));
                let i = choose|i: int| 0 <= i < init.len() && (#[trigger] init[i]).0.id() == k;
                assert(entries[i].0.id() == k);
            }
        }
        assert forall|i: int| 0 <= i < entries.len() implies map_of(entries).contains_key(
            (#[trigger] entries[i]).0.id(),
        ) && map_of(entries)[entries[i].0.id()] == entries[i].1 by {
            if i < entries.len() - 1 {
                assert(init[i] == entries[i]);
                assert(entries[i].0.id() != entries[entries.len() - 1].0.id());
            }
        }
    }
}

proof fn lemma_map_of_len<K: TableKey, V>(entries: Seq<(K, V)>)
    requires
        unique_keys(entries),
    ensures
        map_of(entries).dom().finite(),
        map_of(entries).dom().len() == entries.len(),
    decreases entries.len(),
{
    if entries.len() > 0 {
        let init = entries.drop_last();
        assert forall|i: int, j: int| 0 <= i < j < init.len() implies (#[trigger] init[i]).0.id()
            != (#[trigger] init[j]).0.id() by {
            assert(init[i] == entries[i] && init[j] == entries[j]);
        }
        lemma_map_of_len(init);
        lemma_map_of(init);
        let last = entries.last().0.id();
        if map_of(init).contains_key(last) {
            let i = choose|i: int| 0 <= i < init.len() && (#[trigger] init[i]).0.id() == last;
            assert(entries[i].0.id() != entries[entries.len() - 1].0.id());
        }
        assert(!map_of(init).dom().contains(last));
        assert(map_of(entries).dom() =~= map_of(init).dom().insert(last));
    } else {
        assert(map_of(entries).dom() =~= Set::<K::Id>::empty());
    }
}

/// A keyed table.
pub struct Table<K: TableKey, V> {
    entries: Vec<(K, V)>,
}

impl<K: TableKey, V> View for Table<K, V> {
    type V = Map<K::Id, V>;

    closed spec fn view(&self) -> Map<K::Id, V> {
        map_of(self.entries@)
    }
}

impl<K: TableKey, V> Table<K, V> {
    /// The entries in the order they were added.
    pub closed spec fn entries(&self) -> Seq<(K, V)> {
        self.entries@
    }

    /// No key occurs twice.
    pub closed spec fn wf(&self) -> bool {
        unique_keys(self.entries@)
    }

    /// The entries and the map say the same.
    pub proof fn entries_are_map(&self)
        requires
            self.wf(),
        ensures
            unique_keys(self.entries()),
            self@.dom().finite(),
            self@.dom().len() == self.entries().len(),
            forall|k: K::Id| #[trigger]
                self@.contains_key(k) ==> exists|i: int|
                    0 <= i < self.entries().len() && (#[trigger] self.entries()[i]).0.id() == k,
            forall|i: int|
                0 <= i < self.entries().len() ==> self@.contains_key(
                    (#[trigger] self.entries()[i]).0.id(),
                ) && self@[self.entries()[i].0.id()] == self.entries()[i].1,
    {
        lemma_map_of(self.entries@);
        lemma_map_of_len(self.entries@);
    }

    /// An empty table.
    pub fn new() -> (r: Self)
        ensures
            r.wf(),
            r@ == Map::<K::Id, V>::empty(),
            r.entries() == Seq::<(K, V)>::empty(),
    {
        Table { entries: Vec::new() }
    }

    /// Number of entries.
    pub fn len(&self) -> (r: usize)
        ensures
            r == self.entries().len(),
    {
        self.entries.len()
    }

    /// The key of the entry at a position.
    pub fn key_at(&self, i: usize) -> (r: &K)
        requires
            i < self.entries().len(),
        ensures
            *r == self.entries()[i as int].0,
    {
        &self.entries[i].0
    }

    /// The value of the entry at a position.
    pub fn value_at(&self, i: usize) -> (r: &V)
        requires
            i < self.entries().len(),
        ensures
            *r == self.entries()[i as int].1,
    {
        &self.entries[i].1
    }

    fn position(&self, key: &K) -> (r: Option<usize>)
        ensures
            match r {
                Some(i) => i < self.entries@.len() && self.entries@[i as int].0.id() == key.id(),
                None => forall|i: int|
                    0 <= i < self.entries@.len() ==> (#[trigger] self.entries@[i]).0.id()
                        != key.id(),
            },
    {
        let mut i: usize = 0;
        while i < self.entries.len()
            invariant
                i <= self.entries@.len(),
                forall|j: int| 0 <= j < i ==> (#[trigger] self.entries@[j]).0.id() != key.id(),
            decreases self.entries@.len() - i,
        {
            if self.entries[i].0.same(key) {
                return Some(i);
            }
            i += 1;
        }
        None
    }

    /// Whether there is an entry for a key.
    pub fn contains(&self, key: &K) -> (r: bool)
        requires
            self.wf(),
        ensures
            r == self@.contains_key(key.id()),
    {
        proof {
            lemma_map_of(self.entries@);
        }
        self.position(key).is_some()
    }

    /// The value for a key.
    pub fn get(&self, key: &K) -> (r: Option<&V>)
        requires
            self.wf(),
        ensures
            match r {
                Some(v) => self@.contains_key(key.id()) && *v == self@[key.id()],
                None => !self@.contains_key(key.id()),
            },
    {
        proof {
            lemma_map_of(self.entries@);
        }
        match self.position(key) {
            Some(i) => Some(&self.entries[i].1),
            None => None,
        }
    }

    /// Takes the entry for a key out.
    pub fn remove(&mut self, key: &K) -> (r: Option<V>)
        requires
            old(self).wf(),
        ensures
            final(self).wf(),
            final(self)@ == old(self)@.remove(key.id()),
            match r {
                Some(v) => old(self)@.contains_key(key.id()) && v == old(self)@[key.id()],
                None => !old(self)@.contains_key(key.id()),
            },
    {
        proof {
            lemma_map_of(self.entries@);
        }
        match self.position(key) {
            Some(i) => {
                let ghost before = self.entries@;
                let (_, v) = self.entries.remove(i);
                proof {
                    let after = self.entries@;
                    assert forall|a: int, b: int| 0 <= a < b < after.len() implies (
                    #[trigger] after[a]).0.id() != (#[trigger] after[b]).0.id() by {
                        let a2 = if a < i {
                            a
                        } else {
                            a + 1
                        };
                        let b2 = if b < i {
                            b
                        } else {
                            b + 1
                        };
                        assert(after[a] == before[a2] && after[b] == before[b2]);
                    }
                    lemma_map_of(after);
                    assert forall|k: K::Id| #[trigger]
                        map_of(after).contains_key(k) <==> map_of(before).remove(
                            key.id(),
                        ).contains_key(k) by {
                        if map_of(after).contains_key(k) {
                            let a = choose|a: int|
                                0 <= a < after.len() && (#[trigger] after[a]).0.id() == k;
                            let a2 = if a < i {
                                a
                            } else {
                                a + 1
                            };
                            assert(after[a] == before[a2]);
                            assert(before[i as int].0.id() == key.id());
                            if a2 < i {
                                assert(before[a2].0.id() != before[i as int].0.id());
                            } else {
                                assert(before[i as int].0.id() != before[a2].0.id());
                            }
                        }
                        if map_of(before).remove(key.id()).contains_key(k) {
                            let b = choose|b: int|
                                0 <= b < before.len() && (#[trigger] before[b]).0.id() == k;
                            let b2 = if b < i {
                                b
                            } else {
                                b - 1
                            };
                            assert(after[b2] == before[b]);
                        }
                    }
                    assert forall|k: K::Id| #[trigger] map_of(after).contains_key(k) implies map_of(
                        after,
                    )[k] == map_of(before)[k] by {
                        let a = choose|a: int|
                            0 <= a < after.len() && (#[trigger] after[a]).0.id() == k;
                        let a2 = if a < i {
                            a
                        } else {
                            a + 1
                        };
                        assert(after[a] == before[a2]);
                    }
                    assert(map_of(after) =~= map_of(before).remove(key.id()));
                }
                Some(v)
            },
            None => {
                assert(self@ =~= self@.remove(key.id()));
                None
            },
        }
    }

    /// Puts an entry in, in place of an earlier one with the same key.
    pub fn insert(&mut self, key: K, value: V)
        requires
            old(self).wf(),
        ensures
            final(self).wf(),
            final(self)@ == old(self)@.insert(key.id(), value),
    {
        self.remove(&key);
        let ghost before = self.entries@;
        let ghost id = key.id();
        self.entries.push((key, value));
        proof {
            let after = self.entries@;
            lemma_map_of(before);
            assert(after.drop_last() =~= before);
            assert forall|a: int, b: int| 0 <= a < b < after.len() implies (
            #[trigger] after[a]).0.id() != (#[trigger] after[b]).0.id() by {
                assert(after[a] == before[a]);
                if b == before.len() {
                    assert(map_of(before).contains_key(before[a].0.id()));
                } else {
                    assert(after[b] == before[b]);
                }
            }
            assert(self@ =~= old(self)@.insert(id, value));
        }
    }
}

} // verus!
