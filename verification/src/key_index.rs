//! The hash index of the entry table, kept in a map of the `hashbrown` crate.
//!
//! It maps each live key to the place of its entry. Verus does not look inside
//! the map: [`index_slots`] names what it holds, and the functions of this
//! module call `hashbrown` and restate its documented behaviour over that name.
//! Nothing here is proved. A map that grows may run out of memory, which is not
//! modelled.
use hashbrown::HashMap;
use vstd::prelude::*;

verus! {

/// A `hashbrown::HashMap<u64, usize>` with its default hasher.
///
/// The type of the map has an allocator parameter whose trait `hashbrown`
/// does not export, so Verus cannot declare it, and the map stands in a field
/// that Verus does not read.
#[verifier::external_body]
pub struct KeyIndex {
    inner: HashMap<u64, usize>,
}

/// The key-to-slot pairs that the index holds.
pub uninterp spec fn index_slots(index: KeyIndex) -> Map<u64, usize>;

impl KeyIndex {
    /// Calls `HashMap::new`, which returns an empty map and allocates nothing.
    #[verifier::external_body]
    pub(crate) fn new() -> (index: KeyIndex)
        ensures
            index_slots(index) == (Map::<u64, usize>::empty()),
    {
        KeyIndex { inner: HashMap::new() }
    }

    /// Calls `HashMap::get` and copies the slot that it finds for the key.
    #[verifier::external_body]
    pub(crate) fn get(&self, key: &u64) -> (slot: Option<usize>)
        ensures
            slot == (if index_slots(*self).dom().contains(*key) {
                Some(index_slots(*self)[*key])
            } else {
                None
            }),
    {
        self.inner.get(key).copied()
    }

    /// Calls `HashMap::insert`, which binds the key to the slot and returns the
    /// slot that the key was bound to before, if it was bound.
    #[verifier::external_body]
    pub(crate) fn insert(&mut self, key: u64, slot: usize) -> (before: Option<usize>)
        ensures
            index_slots(*final(self)) == index_slots(*old(self)).insert(key, slot),
            before == (if index_slots(*old(self)).dom().contains(key) {
                Some(index_slots(*old(self))[key])
            } else {
                None
            }),
    {
        self.inner.insert(key, slot)
    }

    /// Calls `HashMap::remove`, which unbinds the key and returns the slot that
    /// it was bound to, if it was bound.
    #[verifier::external_body]
    pub(crate) fn remove(&mut self, key: &u64) -> (before: Option<usize>)
        ensures
            index_slots(*final(self)) == index_slots(*old(self)).remove(*key),
            before == (if index_slots(*old(self)).dom().contains(*key) {
                Some(index_slots(*old(self))[*key])
            } else {
                None
            }),
    {
        self.inner.remove(key)
    }
}

} // verus!
