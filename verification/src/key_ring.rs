//! A fixed-capacity FIFO of keys, kept in a ring buffer of the `ringbuf` crate.
//!
//! Verus does not look inside the buffer. What it holds is named by
//! [`ring_keys`], oldest key first, and the capacity that it was made with by
//! [`ring_capacity`]. The functions of this module call `ringbuf` and state,
//! over those two names, what the call does. Nothing here is proved: the
//! contracts restate the documented behaviour of `ringbuf`.
use ringbuf::{HeapRb, Rb};
use vstd::prelude::*;

verus! {

/// A heap-allocated `ringbuf::HeapRb<u64>`.
///
/// The type of the buffer is bound by a container trait of `ringbuf`, which
/// Verus cannot take over, so the buffer stands in a field that Verus does not
/// read.
#[verifier::external_body]
pub struct KeyRing {
    inner: HeapRb<u64>,
}

/// The keys in the ring, from the oldest (index 0) to the newest.
pub uninterp spec fn ring_keys(ring: KeyRing) -> Seq<u64>;

/// The number of keys that the ring was made to hold.
pub uninterp spec fn ring_capacity(ring: KeyRing) -> nat;

impl KeyRing {
    /// Calls `HeapRb::new`, which allocates room for `capacity` keys and
    /// returns an empty ring. `HeapRb::new` panics on a capacity of zero and
    /// when the allocation fails; the bound keeps the `8 * capacity` bytes
    /// that it asks for below what an allocation may be. Running out of memory
    /// is not modelled.
    #[verifier::external_body]
    pub(crate) fn with_capacity(capacity: usize) -> (ring: KeyRing)
        requires
            1 <= capacity <= usize::MAX / 16,
        ensures
            ring_keys(ring) == Seq::<u64>::empty(),
            ring_capacity(ring) == capacity,
    {
        KeyRing { inner: HeapRb::new(capacity) }
    }

    /// Calls `Rb::push_overwrite`. On a ring that is not full the key is
    /// appended and nothing is returned. On a full ring the oldest key is
    /// removed first and returned. The capacity never changes.
    #[verifier::external_body]
    pub(crate) fn push_overwrite(&mut self, key: u64) -> (evicted: Option<u64>)
        ensures
            ring_capacity(*final(self)) == ring_capacity(*old(self)),
            ring_keys(*old(self)).len() < ring_capacity(*old(self)) ==> evicted.is_none()
                && ring_keys(*final(self)) == ring_keys(*old(self)).push(key),
            ring_keys(*old(self)).len() >= ring_capacity(*old(self)) ==> evicted == Some(
                ring_keys(*old(self))[0],
            ) && ring_keys(*final(self)) == ring_keys(*old(self)).drop_first().push(key),
    {
        self.inner.push_overwrite(key)
    }

    /// Calls `Rb::iter`, which walks the ring from the oldest key to the
    /// newest, and copies the keys into a vector in that order.
    #[verifier::external_body]
    pub(crate) fn to_vec(&self) -> (keys: Vec<u64>)
        ensures
            keys@ == ring_keys(*self),
    {
        self.inner.iter().copied().collect()
    }
}

} // verus!
