//! A table keyed by strings that keeps its entries in numbered slots.
//!
//! A hash map finds the slot of a key in constant time; the slots themselves
//! are plain vectors, so entries can be walked in order and changed in place.

use vstd::hash_map::StringHashMap;
use vstd::prelude::*;

verus! {

/// A table from strings to values of type `V`. Entry `i` has the key
/// `keys()[i]` and the value `values()[i]`; no key occurs twice.
pub struct StrTable<V> {
    slots: StringHashMap<usize>,
    keys: Vec<String>,
    values: Vec<V>,
}

impl<V> StrTable<V> {
    /// The keys, by slot.
    pub closed spec fn keys(&self) -> Seq<Seq<char>> {
        self.keys.deep_view()
    }

    /// The values, by slot.
    pub closed spec fn values(&self) -> Seq<V> {
        self.values@
    }

    /// The hash map sends each key to its slot and holds nothing else.
    pub closed spec fn slots_agree(&self) -> bool {
        &&& forall|i: int|
            0 <= i < self.keys().len() ==> self.slots@.contains_key(#[trigger] self.keys()[i])
                && self.slots@[self.keys()[i]] == i
        &&& forall|k: Seq<char>| #[trigger]
            self.slots@.contains_key(k) ==> self.slots@[k] < self.keys().len()
                && self.keys()[self.slots@[k] as int] == k
    }

    /// The table's invariant.
    pub open spec fn wf(&self) -> bool {
        &&& self.keys().len() == self.values().len()
        &&& self.keys().no_duplicates()
        &&& self.slots_agree()
    }

    /// The set of keys.
    pub open spec fn key_set(&self) -> Set<Seq<char>> {
        self.keys().to_set()
    }

    /// The table as a map from keys to values.
    pub open spec fn as_map(&self) -> Map<Seq<char>, V> {
        Map::new(
            |k: Seq<char>| self.keys().contains(k),
            |k: Seq<char>| self.values()[self.keys().index_of(k)],
        )
    }

    /// In a table without repeated keys, `index_of` gives each key's slot.
    pub proof fn lemma_index_of(&self, i: int)
        requires
            self.keys().no_duplicates(),
            0 <= i < self.keys().len(),
        ensures
            self.keys().index_of(self.keys()[i]) == i,
            self.keys().contains(self.keys()[i]),
    {
        let j = self.keys().index_of(self.keys()[i]);
        assert(0 <= j < self.keys().len() && self.keys()[j] == self.keys()[i]);
    }

    /// An empty table.
    pub fn new() -> (table: Self)
        ensures
            table.wf(),
            table.keys() == Seq::<Seq<char>>::empty(),
            table.values() == Seq::<V>::empty(),
    {
        let table = StrTable { slots: StringHashMap::new(), keys: Vec::new(), values: Vec::new() };
        assert(table.keys() =~= Seq::<Seq<char>>::empty());
        table
    }

    /// The number of entries.
    pub fn len(&self) -> (n: usize)
        requires
            self.wf(),
        ensures
            n == self.keys().len(),
            n == self.values().len(),
    {
        self.keys.len()
    }

    /// The slot of `key`, if the table holds it.
    pub fn find(&self, key: &str) -> (slot: Option<usize>)
        requires
            self.wf(),
        ensures
            match slot {
                Some(i) => i < self.keys().len() && self.keys()[i as int] == key@,
                None => !self.keys().contains(key@),
            },
    {
        match self.slots.get(key) {
            Some(i) => Some(*i),
            None => None,
        }
    }

    /// The key in slot `i`.
    pub fn key_at(&self, i: usize) -> (key: &String)
        requires
            i < self.keys().len(),
        ensures
            key@ == self.keys()[i as int],
    {
        &self.keys[i]
    }

    /// The value in slot `i`.
    pub fn value_at(&self, i: usize) -> (value: &V)
        requires
            i < self.values().len(),
        ensures
            *value == self.values()[i as int],
    {
        &self.values[i]
    }

    /// Adds an entry for a key that the table does not hold yet, in a new
    /// last slot, and returns that slot.
    pub fn push(&mut self, key: String, value: V) -> (slot: usize)
        requires
            old(self).wf(),
            !old(self).keys().contains(key@),
        ensures
            final(self).wf(),
            final(self).keys() == old(self).keys().push(key@),
            final(self).values() == old(self).values().push(value),
            slot == old(self).keys().len(),
    {
        let slot = self.keys.len();
        self.slots.insert(key.clone(), slot);
        self.keys.push(key);
        self.values.push(value);
        proof {
            assert(self.keys() =~= old(self).keys().push(key@));
            assert forall|i: int| 0 <= i < self.keys().len() implies self.slots@.contains_key(
                #[trigger] self.keys()[i],
            ) && self.slots@[self.keys()[i]] == i by {
                if i < slot {
                    assert(old(self).keys()[i] == self.keys()[i]);
                    assert(old(self).keys().contains(old(self).keys()[i]));
                }
            }
        }
        slot
    }

    /// Puts `value` into slot `i` and returns the value that was there.
    pub fn replace_value(&mut self, i: usize, value: V) -> (previous: V)
        requires
            old(self).wf(),
            i < old(self).values().len(),
        ensures
            final(self).wf(),
            final(self).keys() == old(self).keys(),
            final(self).values() == old(self).values().update(i as int, value),
            previous == old(self).values()[i as int],
    {
        self.values.push(value);
        let previous = self.values.swap_remove(i);
        assert(self.values@ =~= old(self).values@.update(i as int, value));
        previous
    }

    /// Removes the entry in slot `i` and returns its value. The last entry
    /// moves into the freed slot; all other entries stay where they are.
    pub fn remove_at(&mut self, i: usize) -> (removed: V)
        requires
            old(self).wf(),
            i < old(self).keys().len(),
        ensures
            final(self).wf(),
            final(self).keys() == old(self).keys().update(
                i as int,
                old(self).keys().last(),
            ).drop_last(),
            final(self).values() == old(self).values().update(
                i as int,
                old(self).values().last(),
            ).drop_last(),
            removed == old(self).values()[i as int],
            final(self).key_set() == old(self).key_set().remove(old(self).keys()[i as int]),
    {
        let ghost before = self.keys();
        let key = self.keys.swap_remove(i);
        let removed = self.values.swap_remove(i);
        self.slots.remove(key.as_str());
        if i < self.keys.len() {
            self.slots.insert(self.keys[i].clone(), i);
        }
        proof {
            let after = self.keys();
            assert(after =~= before.update(i as int, before.last()).drop_last());
            assert(key@ == before[i as int]);
            assert forall|a: int, b: int|
                0 <= a < after.len() && 0 <= b < after.len() && a != b implies after[a]
                != after[b] by {
                let a0 = if a == i { before.len() - 1 } else { a };
                let b0 = if b == i { before.len() - 1 } else { b };
                assert(after[a] == before[a0] && after[b] == before[b0]);
            }
            assert forall|j: int| 0 <= j < after.len() implies self.slots@.contains_key(
                #[trigger] after[j],
            ) && self.slots@[after[j]] == j by {
                let j0 = if j == i { before.len() - 1 } else { j };
                assert(after[j] == before[j0]);
            }
            assert forall|k: Seq<char>| #[trigger] self.slots@.contains_key(k) implies self.slots@[k]
                < after.len() && after[self.slots@[k] as int] == k by {
                if i < after.len() && k == after[i as int] {
                } else {
                    assert(old(self).slots@.contains_key(k));
                    let s = old(self).slots@[k] as int;
                    assert(before[s] == k);
                    if s == before.len() - 1 {
                        assert(i < after.len() ==> after[i as int] == before[s]);
                    }
                }
            }
            assert(self.key_set() =~= old(self).key_set().remove(before[i as int])) by {
                assert forall|k: Seq<char>| self.key_set().contains(k) <==> (before.contains(k)
                    && k != before[i as int]) by {
                    if after.contains(k) {
                        let j = choose|j: int| 0 <= j < after.len() && after[j] == k;
                        let j0 = if j == i { before.len() - 1 } else { j };
                        assert(before[j0] == k);
                    }
                    if before.contains(k) && k != before[i as int] {
                        let j = choose|j: int| 0 <= j < before.len() && before[j] == k;
                        if j == before.len() - 1 {
                            assert(after[i as int] == k);
                        } else {
                            assert(after[j] == k);
                        }
                    }
                }
            }
        }
        removed
    }
}

} // verus!
