//! The mathematical state of a cache and its transitions.
//!
//! A [`CacheState`] holds the three queues as sequences of keys, the oldest key
//! first, and the entry table as a map. The transitions are pure functions of
//! that state. The invariant that they keep is stated here and proved in
//! [`crate::upkeep`].
use crate::entry::{Entry, MAX_FREQUENCY_LIMIT};
use vstd::prelude::*;

verus! {

/// The capacity of the small queue of a cache for `capacity` entries: a tenth
/// of it, and at least one.
pub open spec fn small_size(capacity: nat) -> nat {
    if capacity / 10 >= 1 {
        capacity / 10
    } else {
        1
    }
}

/// The capacity of the main queue of a cache for `capacity` entries: what the
/// small queue leaves, and at least one.
pub open spec fn main_size(capacity: nat) -> nat {
    if capacity - small_size(capacity) >= 1 {
        (capacity - small_size(capacity)) as nat
    } else {
        1
    }
}

/// A ghost queue after it gave up the key that it took in last.
pub open spec fn ghost_evicted(keys: Seq<u64>) -> Seq<u64> {
    if keys.len() > 0 {
        keys.drop_last()
    } else {
        keys
    }
}

/// A ghost queue of the given capacity after `key` was pushed: a full queue
/// gives up its newest key first, and a key that is present keeps its place.
pub open spec fn ghost_pushed(keys: Seq<u64>, capacity: nat, key: u64) -> Seq<u64> {
    let kept = if keys.len() == capacity {
        ghost_evicted(keys)
    } else {
        keys
    };
    if kept.contains(key) {
        kept
    } else {
        kept.push(key)
    }
}

/// The sequence without `key`, the other keys in their order.
pub open spec fn without(keys: Seq<u64>, key: u64) -> Seq<u64> {
    if keys.contains(key) {
        keys.remove(keys.index_of(key))
    } else {
        keys
    }
}

/// An entry after one more read: its counter goes up by one and stops at
/// [`MAX_FREQUENCY_LIMIT`].
pub open spec fn read_once<V>(entry: Entry<u64, V>) -> Entry<u64, V> {
    if entry.freq < MAX_FREQUENCY_LIMIT {
        entry.with_freq((entry.freq + 1) as u8)
    } else {
        entry
    }
}

/// What a cache holds.
#[verifier::ext_equal]
pub struct CacheState<V> {
    /// The probation queue, the oldest key first.
    pub small: Seq<u64>,
    /// The main queue, the oldest key first.
    pub main: Seq<u64>,
    /// The ghost queue, the oldest key first.
    pub ghosts: Seq<u64>,
    /// The live entries by key.
    pub entries: Map<u64, Entry<u64, V>>,
    pub small_cap: nat,
    pub main_cap: nat,
    pub ghost_cap: nat,
}

impl<V> CacheState<V> {
    /// The state of a new cache for `capacity` entries.
    pub open spec fn empty(capacity: nat) -> Self {
        CacheState {
            small: Seq::empty(),
            main: Seq::empty(),
            ghosts: Seq::empty(),
            entries: Map::empty(),
            small_cap: small_size(capacity),
            main_cap: main_size(capacity),
            ghost_cap: main_size(capacity),
        }
    }

    /// Whether `key` has a live entry.
    pub open spec fn present(self, key: u64) -> bool {
        self.entries.dom().contains(key)
    }

    /// The state after a lookup of `key`: a live entry is read once more, and
    /// nothing else changes.
    pub open spec fn lookup(self, key: u64) -> Self {
        if self.present(key) {
            CacheState { entries: self.entries.insert(key, read_once(self.entries[key])), ..self }
        } else {
            self
        }
    }

    /// The counter of the key at position `i` of the main queue.
    pub open spec fn count(self, i: int) -> int {
        self.entries[self.main[i]].freq as int
    }

    /// The lowest counter among the first `n` keys of the main queue.
    pub open spec fn lowest_count(self, n: int) -> int
        decreases n,
    {
        if n <= 1 {
            self.count(0)
        } else if self.count(n - 1) < self.lowest_count(n - 1) {
            self.count(n - 1)
        } else {
            self.lowest_count(n - 1)
        }
    }

    /// The position of the first key of the main queue, at or behind `from`,
    /// whose counter is `level`; the length of the queue if there is none.
    pub open spec fn first_at(self, level: int, from: int) -> int
        decreases self.main.len() - from,
    {
        if from < 0 || from >= self.main.len() {
            self.main.len() as int
        } else if self.count(from) == level {
            from
        } else {
            self.first_at(level, from + 1)
        }
    }

    /// The entries after the eviction scan went round the main queue `rounds`
    /// times and then passed over its first `n` keys: every key of the queue
    /// lost one count a round, and the first `n` keys one more.
    pub open spec fn worn(self, rounds: int, n: int) -> Map<u64, Entry<u64, V>> {
        Map::new(
            |key: u64| self.entries.dom().contains(key),
            |key: u64|
                if self.main.subrange(0, n).contains(key) {
                    self.entries[key].with_freq((self.entries[key].freq - rounds - 1) as u8)
                } else if self.main.contains(key) {
                    self.entries[key].with_freq((self.entries[key].freq - rounds) as u8)
                } else {
                    self.entries[key]
                },
        )
    }

    /// The state after `key` was admitted to the main queue.
    ///
    /// With room left the key is appended. On a full queue the eviction scan
    /// runs from the oldest key on: every key with a positive counter loses one
    /// count and goes to the back, behind `key`, and the first key whose
    /// counter is zero is evicted.
    ///
    /// Where every key of the queue has a positive counter the scan comes
    /// round to `key` itself. A `key` that has an entry has a zero counter and
    /// is evicted in its turn. A `key` that is still waiting for its entry
    /// goes to the back like the others, and the scan goes on, round after
    /// round, until a counter has come down to zero: the key that leaves is
    /// the first of those with the lowest counter, after as many full rounds
    /// as that counter says.
    pub open spec fn admit_main(self, key: u64) -> Self {
        let len = self.main.len() as int;
        let rounds = if self.present(key) {
            0
        } else {
            self.lowest_count(len)
        };
        let at = self.first_at(rounds, 0);
        if len < self.main_cap {
            CacheState { main: self.main.push(key), ..self }
        } else if at < len {
            CacheState {
                main: self.main.subrange(at + 1, len).push(key) + self.main.subrange(0, at),
                entries: self.worn(rounds, at).remove(self.main[at]),
                ..self
            }
        } else {
            CacheState { entries: self.worn(0, len).remove(key), ..self }
        }
    }

    /// The state after `key` was admitted to the small queue.
    ///
    /// With room left the key is appended. A full queue gives up its oldest
    /// key: one that was never read is dropped and remembered in the ghost
    /// queue; one that was read has its counter reset and moves to the main
    /// queue.
    pub open spec fn admit_small(self, key: u64) -> Self {
        if self.small.len() < self.small_cap {
            CacheState { small: self.small.push(key), ..self }
        } else {
            let victim = self.small[0];
            let small = self.small.drop_first().push(key);
            if self.entries[victim].freq == 0 {
                CacheState {
                    small,
                    ghosts: ghost_pushed(self.ghosts, self.ghost_cap, victim),
                    entries: self.entries.remove(victim),
                    ..self
                }
            } else {
                CacheState {
                    small,
                    entries: self.entries.insert(victim, self.entries[victim].with_freq(0)),
                    ..self
                }.admit_main(victim)
            }
        }
    }

    /// The state after `insert(key, value)`.
    ///
    /// A key with a live entry changes nothing. Any other key is admitted, to
    /// the main queue if the ghost queue remembers it, which then forgets it,
    /// and to the small queue otherwise; after that its entry is created with a
    /// counter of zero.
    pub open spec fn insert(self, key: u64, value: V) -> Self {
        if self.present(key) {
            self
        } else {
            let admitted = if self.ghosts.contains(key) {
                CacheState { ghosts: without(self.ghosts, key), ..self }.admit_main(key)
            } else {
                self.admit_small(key)
            };
            CacheState {
                entries: admitted.entries.insert(key, Entry { key, value, freq: 0 }),
                ..admitted
            }
        }
    }

    /// What admitting `key` to the main queue takes for granted: the queue is
    /// within its capacity and holds no key twice, `key` is not in it, every
    /// key in it has an entry, and the entry of `key`, if it has one, has a
    /// zero counter.
    pub open spec fn main_admits(self, key: u64) -> bool {
        &&& 1 <= self.main_cap
        &&& self.main.len() <= self.main_cap
        &&& self.main.no_duplicates()
        &&& !self.main.contains(key)
        &&& forall|i: int| 0 <= i < self.main.len() ==> self.present(#[trigger] self.main[i])
        &&& self.present(key) ==> self.entries[key].freq == 0
    }

    /// What holds of the queues and the entries each for themselves, also
    /// while a key is being admitted: the queues keep their capacities, no key
    /// stands twice in the small and main queues together or twice in the
    /// ghost queue, every key of the small and main queues has an entry, no key
    /// of the ghost queue has one, and every counter is at most
    /// [`MAX_FREQUENCY_LIMIT`]. There is one exemption: `pending`, the key that
    /// is being admitted, may stand in a queue before its entry exists.
    pub open spec fn shape(self, pending: Option<u64>) -> bool {
        &&& 1 <= self.small_cap
        &&& 1 <= self.main_cap
        &&& self.ghost_cap == self.main_cap
        &&& self.small.len() <= self.small_cap
        &&& self.main.len() <= self.main_cap
        &&& self.ghosts.len() <= self.ghost_cap
        &&& self.small.no_duplicates()
        &&& self.main.no_duplicates()
        &&& self.ghosts.no_duplicates()
        &&& self.entries.dom().finite()
        &&& forall|i: int, j: int|
            0 <= i < self.small.len() && 0 <= j < self.main.len() ==> self.small[i]
                != self.main[j]
        &&& forall|i: int|
            0 <= i < self.small.len() ==> self.present(#[trigger] self.small[i]) || pending
                == Some(self.small[i])
        &&& forall|i: int|
            0 <= i < self.main.len() ==> self.present(#[trigger] self.main[i]) || pending == Some(
                self.main[i],
            )
        &&& forall|i: int|
            0 <= i < self.ghosts.len() ==> !self.present(#[trigger] self.ghosts[i]) && pending
                != Some(self.ghosts[i])
        &&& forall|key: u64|
            self.present(key) ==> (#[trigger] self.entries[key]).freq <= MAX_FREQUENCY_LIMIT
                && self.entries[key].key == key
        &&& pending matches Some(key) ==> !self.present(key)
    }

    /// Whether `key` stands in the small or in the main queue.
    pub open spec fn queued(self, key: u64) -> bool {
        self.small.contains(key) || self.main.contains(key)
    }

    /// Whether the entries are exactly the keys of the small and main queues.
    pub open spec fn agrees(self) -> bool {
        forall|key: u64| self.present(key) <==> self.queued(key)
    }

    /// The invariant of a cache between operations: the queues keep their
    /// capacities, no key stands twice in the small and main queues together
    /// or twice in the ghost queue, the keys of the small and main queues are
    /// exactly the keys that have an entry, no key of the ghost queue has one,
    /// and every counter is at most [`MAX_FREQUENCY_LIMIT`].
    pub open spec fn inv(self) -> bool {
        self.shape(None) && self.agrees()
    }
}

} // verus!
