//! The ghost queue: a bounded, insertion-ordered set of keys without values.
//!
//! The keys live in an `indexmap::IndexSet<u64>`. Verus does not look inside the
//! set: [`index_set_keys`] names what it holds, in insertion order, and the
//! `set_*` functions call `indexmap` and restate its documented behaviour over
//! that name. [`GhostQueue`] is verified against those contracts.
use crate::model::{ghost_evicted, ghost_pushed, without};
use crate::upkeep::{lemma_ghost_pushed, lemma_without};
use indexmap::IndexSet;
use vstd::prelude::*;

verus! {

/// Makes `indexmap::IndexSet` known to Verus as a type whose inside it does not
/// read.
#[verifier::external_type_specification]
#[verifier::external_body]
#[verifier::reject_recursive_types(T)]
#[verifier::reject_recursive_types(S)]
pub struct ExIndexSet<T, S>(IndexSet<T, S>);

/// The keys of the set in insertion order, the oldest at index 0.
pub uninterp spec fn index_set_keys(set: IndexSet<u64>) -> Seq<u64>;

/// Calls `IndexSet::with_capacity`, which returns an empty set with room for
/// `capacity` keys. It allocates a vector of 16 bytes a key and a hash table of
/// less than 32 bytes a key, and panics where either would be larger than an
/// allocation may be; the bound keeps both below that. Running out of memory
/// is not modelled.
#[verifier::external_body]
fn set_with_capacity(capacity: usize) -> (set: IndexSet<u64>)
    requires
        capacity <= usize::MAX / 64,
    ensures
        index_set_keys(set) == Seq::<u64>::empty(),
{
    IndexSet::with_capacity(capacity)
}

/// Calls `IndexSet::len`, the number of keys in the set.
#[verifier::external_body]
fn set_len(set: &IndexSet<u64>) -> (len: usize)
    ensures
        len == index_set_keys(*set).len(),
{
    set.len()
}

/// Calls `IndexSet::pop`, which removes the key that was inserted last and
/// returns it, and leaves the order of the others as it was. On an empty set it
/// returns nothing.
#[verifier::external_body]
fn set_pop(set: &mut IndexSet<u64>) -> (last: Option<u64>)
    ensures
        index_set_keys(*old(set)).len() == 0 ==> last.is_none() && index_set_keys(*final(set))
            == index_set_keys(*old(set)),
        index_set_keys(*old(set)).len() > 0 ==> last == Some(index_set_keys(*old(set)).last())
            && index_set_keys(*final(set)) == index_set_keys(*old(set)).drop_last(),
{
    set.pop()
}

/// Calls `IndexSet::insert`. A key that the set holds already stays where it is
/// and `false` is returned; a new key is placed last and `true` is returned.
#[verifier::external_body]
fn set_insert(set: &mut IndexSet<u64>, key: u64) -> (added: bool)
    ensures
        added == !index_set_keys(*old(set)).contains(key),
        !added ==> index_set_keys(*final(set)) == index_set_keys(*old(set)),
        added ==> index_set_keys(*final(set)) == index_set_keys(*old(set)).push(key),
{
    set.insert(key)
}

/// Calls `IndexSet::contains`, which tells whether the set holds the key.
#[verifier::external_body]
fn set_contains(set: &IndexSet<u64>, key: &u64) -> (found: bool)
    ensures
        found == index_set_keys(*set).contains(*key),
{
    set.contains(key)
}

/// Calls `IndexSet::shift_remove`, which removes the key where it stands,
/// moves the keys behind it one place forward and returns `true`; where the set
/// does not hold the key it changes nothing and returns `false`.
#[verifier::external_body]
fn set_shift_remove(set: &mut IndexSet<u64>, key: &u64) -> (removed: bool)
    ensures
        removed == index_set_keys(*old(set)).contains(*key),
        !removed ==> index_set_keys(*final(set)) == index_set_keys(*old(set)),
        forall|i: int|
            0 <= i < index_set_keys(*old(set)).len() && index_set_keys(*old(set))[i] == *key
                ==> index_set_keys(*final(set)) == #[trigger] index_set_keys(*old(set)).remove(i),
{
    set.shift_remove(key)
}

/// Calls `IndexSet::iter`, which walks the keys in their order, and copies
/// them into a vector.
#[verifier::external_body]
fn set_to_vec(set: &IndexSet<u64>) -> (keys: Vec<u64>)
    ensures
        keys@ == index_set_keys(*set),
{
    set.iter().copied().collect()
}

/// The largest number of keys that a ghost queue can be made for.
pub const MAX_GHOST_QUEUE_SIZE: usize = usize::MAX / 64;

/// Keys that were dropped from probation unread, in the order in which they were
/// dropped. Lookup by key takes constant time.
pub struct GhostQueue {
    queue: IndexSet<u64>,
    capacity: usize,
}

impl View for GhostQueue {
    type V = Seq<u64>;

    /// The remembered keys, the oldest first.
    closed spec fn view(&self) -> Seq<u64> {
        index_set_keys(self.queue)
    }
}

impl GhostQueue {
    /// The number of keys that the queue may hold.
    pub closed spec fn limit(&self) -> nat {
        self.capacity as nat
    }

    /// No key is remembered twice, and the limit is positive and kept.
    pub open spec fn wf(&self) -> bool {
        &&& self@.no_duplicates()
        &&& 1 <= self.limit()
        &&& self@.len() <= self.limit()
    }

    /// Creates an empty queue for up to `size` keys, at least one and at most
    /// [`MAX_GHOST_QUEUE_SIZE`].
    pub fn new(size: usize) -> (queue: Self)
        requires
            1 <= size <= MAX_GHOST_QUEUE_SIZE,
        ensures
            queue.wf(),
            queue@ == Seq::<u64>::empty(),
            queue.limit() == size,
    {
        Self { queue: set_with_capacity(size), capacity: size }
    }

    /// Remembers `key`. A full queue first gives up the key that it took in
    /// last; a key that is remembered already keeps its place.
    pub fn push(&mut self, key: u64)
        requires
            old(self).wf(),
        ensures
            final(self).wf(),
            final(self).limit() == old(self).limit(),
            final(self)@ == ghost_pushed(old(self)@, old(self).limit(), key),
    {
        proof {
            lemma_ghost_pushed(self@, self.limit(), key);
        }
        if set_len(&self.queue) == self.capacity {
            self.evict()
        }
        let _ = set_insert(&mut self.queue, key);
    }

    /// Forgets the key that was taken in last, if there is one.
    pub fn evict(&mut self)
        requires
            old(self).wf(),
        ensures
            final(self).wf(),
            final(self).limit() == old(self).limit(),
            final(self)@ == ghost_evicted(old(self)@),
    {
        let _ = set_pop(&mut self.queue);
    }

    /// Tells whether `key` is remembered.
    pub fn contains(&self, key: &u64) -> (found: bool)
        ensures
            found == self@.contains(*key),
    {
        set_contains(&self.queue, key)
    }

    /// Forgets `key` and tells whether it was remembered. The other keys keep
    /// their order.
    pub fn remove(&mut self, key: &u64) -> (removed: bool)
        requires
            old(self).wf(),
        ensures
            final(self).wf(),
            final(self).limit() == old(self).limit(),
            removed == old(self)@.contains(*key),
            final(self)@ == without(old(self)@, *key),
    {
        proof {
            lemma_without(self@, *key);
        }
        let removed = set_shift_remove(&mut self.queue, key);
        proof {
            if removed {
                assert(self@ == old(self)@.remove(old(self)@.index_of(*key)));
            }
        }
        removed
    }

    /// The remembered keys, the oldest first.
    pub fn keys(&self) -> (keys: Vec<u64>)
        ensures
            keys@ == self@,
    {
        set_to_vec(&self.queue)
    }
}

} // verus!
