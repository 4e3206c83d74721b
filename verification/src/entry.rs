//! The record that the cache keeps for each live key.
use vstd::prelude::*;

verus! {

/// The highest value that a frequency counter reaches.
pub const MAX_FREQUENCY_LIMIT: u8 = 3;

/// A cached key with its value and its frequency counter.
pub struct Entry<K, V> {
    pub key: K,
    pub value: V,
    /// How often the entry was read since it was admitted, less what the
    /// eviction scan of the main queue has taken off.
    pub freq: u8,
}

impl<K, V> Entry<K, V> {
    /// Creates an entry that has not been read yet.
    pub fn new(key: K, value: V) -> (entry: Self)
        ensures
            entry.key == key,
            entry.value == value,
            entry.freq == 0,
    {
        Self { key, value, freq: 0 }
    }

    /// The same entry with its counter set to `freq`.
    pub open spec fn with_freq(self, freq: u8) -> Self {
        Entry { key: self.key, value: self.value, freq }
    }
}

impl<K: Clone, V: Clone> Clone for Entry<K, V> {
    /// Clones key and value and copies the counter.
    fn clone(&self) -> (copy: Self)
        ensures
            cloned(self.key, copy.key),
            cloned(self.value, copy.value),
            copy.freq == self.freq,
    {
        Self { key: self.key.clone(), value: self.value.clone(), freq: self.freq }
    }
}

} // verus!
