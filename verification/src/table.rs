//! The entry table: the live entries of a cache, found by key.
//!
//! The entries stand in a vector, in no particular order, and a hash index maps
//! each key to the place of its entry. Removing an entry moves the last one into
//! the gap, so the vector has no holes.
use crate::entry::Entry;
use crate::key_index::{index_slots, KeyIndex};
use vstd::prelude::*;

verus! {

/// A map from keys to entries with constant-time lookup, insertion and removal.
pub struct EntryTable<V> {
    index: KeyIndex,
    slots: Vec<Entry<u64, V>>,
}

impl<V> View for EntryTable<V> {
    type V = Map<u64, Entry<u64, V>>;

    /// The entries by key.
    closed spec fn view(&self) -> Map<u64, Entry<u64, V>> {
        Map::new(
            |key: u64| index_slots(self.index).dom().contains(key),
            |key: u64| self.slots@[index_slots(self.index)[key] as int],
        )
    }
}

impl<V> EntryTable<V> {
    /// The index and the vector describe the same entries: every indexed key
    /// points at the entry that carries it, and every entry is indexed under its
    /// own key.
    pub closed spec fn wf(&self) -> bool {
        let index = index_slots(self.index);
        &&& index.dom().finite()
        &&& index.dom().len() == self.slots@.len()
        &&& forall|key: u64|
            index.dom().contains(key) ==> (#[trigger] index[key]) < self.slots@.len()
                && self.slots@[index[key] as int].key == key
        &&& forall|i: int|
            0 <= i < self.slots@.len() ==> index.dom().contains((#[trigger] self.slots@[i]).key)
                && index[self.slots@[i].key] == i
    }

    /// A well-formed table holds finitely many entries, each under its own key.
    pub proof fn lemma_keys(&self)
        requires
            self.wf(),
        ensures
            self@.dom().finite(),
            forall|key: u64| self@.dom().contains(key) ==> (#[trigger] self@[key]).key == key,
    {
        assert(self@.dom() =~= index_slots(self.index).dom());
    }

    /// Creates an empty table.
    pub fn new() -> (table: Self)
        ensures
            table.wf(),
            table@ == (Map::<u64, Entry<u64, V>>::empty()),
    {
        let table = Self { index: KeyIndex::new(), slots: Vec::new() };
        assert(table@ =~= Map::<u64, Entry<u64, V>>::empty());
        table
    }

    /// The number of entries.
    pub fn len(&self) -> (len: usize)
        requires
            self.wf(),
        ensures
            len == self@.dom().len(),
    {
        proof {
            assert(self@.dom() =~= index_slots(self.index).dom());
        }
        self.slots.len()
    }

    /// Tells whether the table holds an entry for `key`.
    pub fn contains(&self, key: &u64) -> (found: bool)
        ensures
            found == self@.dom().contains(*key),
    {
        self.index.get(key).is_some()
    }

    /// The entry for `key`, if the table holds one.
    pub fn get(&self, key: &u64) -> (entry: Option<&Entry<u64, V>>)
        requires
            self.wf(),
        ensures
            entry == (if self@.dom().contains(*key) {
                Some(&self@[*key])
            } else {
                None
            }),
    {
        match self.index.get(key) {
            Some(slot) => Some(&self.slots[slot]),
            None => None,
        }
    }

    /// Adds an entry under its own key, which the table must not hold yet.
    pub fn put(&mut self, entry: Entry<u64, V>)
        requires
            old(self).wf(),
            !old(self)@.dom().contains(entry.key),
        ensures
            final(self).wf(),
            final(self)@ == old(self)@.insert(entry.key, entry),
    {
        let key = entry.key;
        let slot = self.slots.len();
        self.slots.push(entry);
        let _ = self.index.insert(key, slot);
        proof {
            assert(self@ =~= old(self)@.insert(key, entry));
        }
    }

    /// Takes the entry for `key` out of the table, if it holds one.
    pub fn remove(&mut self, key: &u64) -> (entry: Option<Entry<u64, V>>)
        requires
            old(self).wf(),
        ensures
            final(self).wf(),
            final(self)@ == old(self)@.remove(*key),
            entry == (if old(self)@.dom().contains(*key) {
                Some(old(self)@[*key])
            } else {
                None
            }),
    {
        match self.index.remove(key) {
            None => {
                proof {
                    assert(self@ =~= old(self)@.remove(*key));
                    assert(index_slots(self.index) =~= index_slots(old(self).index));
                }
                None
            },
            Some(slot) => {
                let entry = self.slots.swap_remove(slot);
                if slot < self.slots.len() {
                    let moved = self.slots[slot].key;
                    let _ = self.index.insert(moved, slot);
                }
                proof {
                    assert(self@ =~= old(self)@.remove(*key));
                }
                Some(entry)
            },
        }
    }

    /// Sets the frequency counter of the entry for `key`.
    pub fn set_freq(&mut self, key: &u64, freq: u8)
        requires
            old(self).wf(),
            old(self)@.dom().contains(*key),
        ensures
            final(self).wf(),
            final(self)@ == old(self)@.insert(*key, old(self)@[*key].with_freq(freq)),
    {
        match self.index.get(key) {
            Some(slot) => {
                self.slots[slot].freq = freq;
                proof {
                    assert(self@ =~= old(self)@.insert(*key, old(self)@[*key].with_freq(freq)));
                }
            },
            None => {},
        }
    }

    /// Reads the value for `key` and counts the read: the frequency counter of
    /// the entry goes up by one unless it has reached `limit`.
    pub fn bump(&mut self, key: &u64, limit: u8) -> (value: Option<&V>)
        requires
            old(self).wf(),
        ensures
            final(self).wf(),
            final(self)@ == (if old(self)@.dom().contains(*key) && old(self)@[*key].freq < limit {
                old(self)@.insert(*key, old(self)@[*key].with_freq((old(self)@[*key].freq + 1) as u8))
            } else {
                old(self)@
            }),
            value == (if old(self)@.dom().contains(*key) {
                Some(&old(self)@[*key].value)
            } else {
                None
            }),
    {
        match self.index.get(key) {
            Some(slot) => {
                let freq: u8 = self.slots[slot].freq;
                if freq < limit {
                    self.slots[slot].freq = freq + 1;
                }
                proof {
                    if freq < limit {
                        assert(self@ =~= old(self)@.insert(
                            *key,
                            old(self)@[*key].with_freq((freq + 1) as u8),
                        ));
                    } else {
                        assert(self@ =~= old(self)@);
                    }
                }
                Some(&self.slots[slot].value)
            },
            None => {
                proof {
                    assert(self@ =~= old(self)@);
                }
                None
            },
        }
    }
}

} // verus!
