//! The executable cache.
use crate::entry::{Entry, MAX_FREQUENCY_LIMIT};
use crate::ghost_queue::GhostQueue;
use crate::key_ring::{ring_capacity, ring_keys, KeyRing};
use crate::model::{ghost_pushed, CacheState};
use crate::table::EntryTable;
use vstd::prelude::*;

verus! {

/// The largest size that a cache can be made for. It keeps what the queues
/// allocate within the limits of an allocation.
pub const MAX_CACHE_SIZE: usize = usize::MAX / 64;

/// A cache from `u64` keys to values of type `V` with S3-FIFO admission and
/// eviction. It never looks at a value.
///
/// The cache is made for one thread at a time: a cache that threads share
/// belongs behind a lock.
pub struct Cache<V> {
    /// Small queue for keys on probation.
    small: KeyRing,
    /// Main queue for keys that came back or were read on probation.
    main: KeyRing,
    /// Keys that left probation unread.
    ghosts: GhostQueue,
    /// The live entries.
    entries: EntryTable<V>,
}

impl<V> View for Cache<V> {
    type V = CacheState<V>;

    closed spec fn view(&self) -> CacheState<V> {
        CacheState {
            small: ring_keys(self.small),
            main: ring_keys(self.main),
            ghosts: self.ghosts@,
            entries: self.entries@,
            small_cap: ring_capacity(self.small),
            main_cap: ring_capacity(self.main),
            ghost_cap: self.ghosts.limit(),
        }
    }
}

impl<V> Cache<V> {
    /// The ghost queue and the entry table are well formed each for itself.
    pub closed spec fn parts_wf(&self) -> bool {
        self.ghosts.wf() && self.entries.wf()
    }

    /// What holds of every cache between operations: its parts are well
    /// formed and its state meets the invariant of the model.
    pub open spec fn wf(&self) -> bool {
        self.parts_wf() && self@.inv()
    }

    /// A cache for `max_cache_size` entries: a tenth of them on probation in
    /// the small queue, the others in the main queue, and a ghost queue as long
    /// as the main queue. Each of the two queues holds at least one key.
    ///
    /// The size must be positive and at most [`MAX_CACHE_SIZE`].
    pub fn new(max_cache_size: usize) -> (cache: Self)
        requires
            1 <= max_cache_size <= MAX_CACHE_SIZE,
        ensures
            cache.wf(),
            cache@ == CacheState::<V>::empty(max_cache_size as nat),
    {
        let tenth = max_cache_size / 10;
        let max_small_size = if tenth >= 1 {
            tenth
        } else {
            1
        };
        let rest = max_cache_size - max_small_size;
        let max_main_size = if rest >= 1 {
            rest
        } else {
            1
        };
        let cache = Self {
            small: KeyRing::with_capacity(max_small_size),
            main: KeyRing::with_capacity(max_main_size),
            ghosts: GhostQueue::new(max_main_size),
            entries: EntryTable::new(),
        };
        proof {
            CacheState::<V>::lemma_empty_inv(max_cache_size as nat);
        }
        cache
    }

    /// Returns the value of `key` if the cache holds it, and counts the read:
    /// the frequency counter of the entry goes up by one, up to
    /// [`MAX_FREQUENCY_LIMIT`]. The queues are not touched.
    pub fn get(&mut self, key: &u64) -> (value: Option<&V>)
        requires
            old(self).wf(),
        ensures
            final(self).wf(),
            final(self)@ == old(self)@.lookup(*key),
            value == (if old(self)@.present(*key) {
                Some(&old(self)@.entries[*key].value)
            } else {
                None
            }),
    {
        proof {
            self@.lemma_lookup_inv(*key);
        }
        self.entries.bump(key, MAX_FREQUENCY_LIMIT)
    }

    /// Inserts `key` with `value` unless the cache holds the key already, and
    /// tells whether it did insert. A key that is held keeps its value, its
    /// counter and its place.
    ///
    /// A new key is admitted to the main queue if the ghost queue remembers
    /// it, and to the small queue otherwise; either admission may evict other
    /// keys. Only then the entry of the new key is created. Afterwards the
    /// key stands in the queue that it was admitted to.
    pub fn insert(&mut self, key: u64, value: V) -> (inserted: bool)
        requires
            old(self).wf(),
        ensures
            final(self).wf(),
            inserted == !old(self)@.present(key),
            final(self)@ == old(self)@.insert(key, value),
            !inserted ==> final(self)@ == old(self)@,
            inserted ==> final(self)@.present(key),
            inserted && old(self)@.ghosts.contains(key) ==> final(self)@.main.contains(key),
            inserted && !old(self)@.ghosts.contains(key) ==> final(self)@.small.contains(key),
    {
        if self.entries.contains(&key) {
            return false;
        }
        proof {
            self@.lemma_insert_inv(key, value);
            if self@.ghosts.contains(key) {
                self@.lemma_remembered_key_enters_main(key, value);
            } else {
                self@.lemma_new_key_enters_small(key, value);
            }
        }
        if self.ghosts.remove(&key) {
            proof {
                old(self)@.lemma_forget(key);
            }
            self.insert_m(key);
        } else {
            self.insert_s(key);
        }
        let entry = Entry::new(key, value);
        self.entries.put(entry);
        proof {
            assert(self@ =~= old(self)@.insert(key, value));
        }
        true
    }

    /// Inserts a key into the small queue. A key that the full queue gives up
    /// for it goes to the ghost queue if it was never read, and to the main
    /// queue otherwise.
    fn insert_s(&mut self, key: u64)
        requires
            old(self).parts_wf(),
            old(self)@.inv(),
            !old(self)@.present(key),
            !old(self)@.ghosts.contains(key),
        ensures
            final(self).parts_wf(),
            final(self)@ == old(self)@.admit_small(key),
    {
        if let Some(victim) = self.small.push_overwrite(key) {
            // The small queue was full, and its oldest key has an entry.
            assert(victim == old(self)@.small[0] && old(self)@.present(victim));
            let freq: u8 = self.entries.get(&victim).unwrap().freq;
            if freq == 0 {
                let _ = self.entries.remove(&victim);
                self.insert_g(victim);
            } else {
                self.entries.set_freq(&victim, 0);
                proof {
                    old(self)@.lemma_reset(key);
                    assert(self@ =~= (CacheState {
                        small: old(self)@.small.drop_first().push(key),
                        entries: old(self)@.entries.insert(
                            victim,
                            old(self)@.entries[victim].with_freq(0),
                        ),
                        ..old(self)@
                    }));
                }
                self.insert_m(victim);
            }
        }
        proof {
            assert(self@ =~= old(self)@.admit_small(key));
        }
    }

    /// Inserts a key into the ghost queue.
    fn insert_g(&mut self, key: u64)
        requires
            old(self).parts_wf(),
        ensures
            final(self).parts_wf(),
            final(self)@ == (CacheState {
                ghosts: ghost_pushed(old(self)@.ghosts, old(self)@.ghost_cap, key),
                ..old(self)@
            }),
    {
        self.ghosts.push(key);
    }

    /// Inserts a key into the main queue, evicting and reinserting keys until
    /// one with a zero counter is found.
    fn insert_m(&mut self, key: u64)
        requires
            old(self).parts_wf(),
            old(self)@.main_admits(key),
        ensures
            final(self).parts_wf(),
            final(self)@ == old(self)@.admit_main(key),
    {
        let ghost start = self@;
        let ghost len = start.main.len() as int;
        // The scan has gone round the queue `rounds` times and has then
        // passed over its first `passed` keys.
        let ghost mut rounds: int = 0;
        let ghost mut passed: int = 0;
        let mut incoming = key;
        loop
            invariant_except_break
                self.parts_wf(),
                start.main_admits(key),
                len == start.main.len(),
                0 <= rounds <= 255,
                0 <= passed <= len,
                start.present(key) ==> rounds == 0,
                rounds > 0 || passed > 0 ==> len >= start.main_cap,
                forall|i: int| 0 <= i < len ==> #[trigger] start.count(i) >= rounds,
                forall|i: int| 0 <= i < passed ==> #[trigger] start.count(i) > rounds,
                self@.small == start.small,
                self@.ghosts == start.ghosts,
                self@.small_cap == start.small_cap,
                self@.main_cap == start.main_cap,
                self@.ghost_cap == start.ghost_cap,
                self@.entries == start.worn(rounds, passed),
                self@.main.len() == len,
                self@.main.push(incoming) == start.main.subrange(passed, len).push(key)
                    + start.main.subrange(0, passed),
            ensures
                self.parts_wf(),
                self@ == start.admit_main(key),
            decreases 255 - rounds, len - passed,
        {
            proof {
                start.lemma_worn(rounds, passed);
            }
            // The queue with the incoming key behind it: what is left of the
            // old queue, then `key`, then the keys that were passed over.
            let ghost turned = start.main.subrange(passed, len).push(key) + start.main.subrange(
                0,
                passed,
            );
            let ghost ring = self@.main;
            match self.main.push_overwrite(incoming) {
                None => {
                    // There was room left: nothing has been passed over.
                    proof {
                        assert(rounds == 0 && passed == 0);
                        assert(start.worn(0, 0) =~= start.entries);
                        assert(self@ =~= start.admit_main(key));
                    }
                    break ;
                },
                Some(victim) => {
                    assert(victim == turned[0] && self@.main == turned.drop_first()) by {
                        assert(turned == ring.push(incoming));
                        assert(ring.drop_first().push(incoming) =~= turned.drop_first());
                    }
                    match self.entries.get(&victim) {
                        None => {
                            // Only `key` itself can be without an entry: the
                            // scan has come round, and every key of the queue
                            // has lost a count. The key goes to the back like
                            // the others, and the next round begins.
                            incoming = victim;
                            proof {
                                assert(passed == len);
                                assert(victim == key);
                                assert(turned.drop_first() =~= start.main);
                                assert(start.count(0) > rounds);
                                assert(start.worn(rounds, len) =~= start.worn(rounds + 1, 0)) by {
                                    assert(start.main.subrange(0, len) =~= start.main);
                                    assert(start.main.subrange(0, 0) =~= Seq::<u64>::empty());
                                }
                                assert(self@.main.push(incoming) =~= start.main.subrange(
                                    0,
                                    len,
                                ).push(key) + start.main.subrange(0, 0));
                                rounds = rounds + 1;
                                passed = 0;
                            }
                        },
                        Some(entry) => {
                            let freq: u8 = entry.freq;
                            if freq == 0 {
                                let _ = self.entries.remove(&victim);
                                proof {
                                    if passed < len {
                                        start.lemma_scan_stops(rounds, passed);
                                        start.lemma_first_at(0, 0);
                                        assert(turned.drop_first() =~= start.main.subrange(
                                            passed + 1,
                                            len,
                                        ).push(key) + start.main.subrange(0, passed));
                                    } else {
                                        // `key` has an entry, and no key of
                                        // the queue had a zero counter.
                                        assert(victim == key);
                                        assert(rounds == 0);
                                        start.lemma_first_at(0, 0);
                                        assert(start.first_at(0, 0) >= len) by {
                                            if start.first_at(0, 0) < len {
                                                assert(start.count(start.first_at(0, 0)) > 0);
                                            }
                                        }
                                        assert(turned.drop_first() =~= start.main);
                                    }
                                    assert(self@ =~= start.admit_main(key));
                                }
                                break ;
                            } else {
                                self.entries.set_freq(&victim, freq - 1);
                                incoming = victim;
                                proof {
                                    assert(passed < len);
                                    assert(victim == start.main[passed]);
                                    assert(start.main.subrange(0, passed + 1)[passed] == victim);
                                    assert forall|k: u64|
                                        start.main.subrange(0, passed + 1).contains(k) <==> (k
                                            == victim || start.main.subrange(
                                            0,
                                            passed,
                                        ).contains(k)) by {
                                        if start.main.subrange(0, passed + 1).contains(k) {
                                            let i = start.main.subrange(0, passed + 1).index_of(
                                                k,
                                            );
                                            if i < passed {
                                                assert(start.main.subrange(0, passed)[i] == k);
                                            }
                                        }
                                        if start.main.subrange(0, passed).contains(k) {
                                            let i = start.main.subrange(0, passed).index_of(k);
                                            assert(start.main.subrange(0, passed + 1)[i] == k);
                                        }
                                    }
                                    assert(start.main.contains(victim));
                                    assert(start.count(passed) > rounds);
                                    assert(self@.entries =~= start.worn(rounds, passed + 1));
                                    assert(self@.main.push(incoming) =~= start.main.subrange(
                                        passed + 1,
                                        len,
                                    ).push(key) + start.main.subrange(0, passed + 1));
                                    passed = passed + 1;
                                }
                            }
                        },
                    }
                },
            }
        }
    }

    /// The number of live entries: as many as there are keys in the small and
    /// main queues, and so never more than the two queues have room for.
    pub fn len(&self) -> (len: usize)
        requires
            self.wf(),
        ensures
            len == self@.entries.dom().len(),
            len == self@.small.len() + self@.main.len(),
            len <= self@.small_cap + self@.main_cap,
    {
        proof {
            self@.lemma_capacity_bound();
        }
        self.entries.len()
    }

    /// The frequency counter of `key`, if the cache holds the key. Unlike
    /// [`Cache::get`] this is no read: it changes nothing.
    pub fn frequency(&self, key: &u64) -> (freq: Option<u8>)
        requires
            self.wf(),
        ensures
            freq == (if self@.present(*key) {
                Some(self@.entries[*key].freq)
            } else {
                None
            }),
    {
        match self.entries.get(key) {
            Some(entry) => Some(entry.freq),
            None => None,
        }
    }

    /// The keys of the small queue, the oldest first.
    pub fn small_keys(&self) -> (keys: Vec<u64>)
        ensures
            keys@ == self@.small,
    {
        self.small.to_vec()
    }

    /// The keys of the main queue, the oldest first.
    pub fn main_keys(&self) -> (keys: Vec<u64>)
        ensures
            keys@ == self@.main,
    {
        self.main.to_vec()
    }

    /// The keys of the ghost queue, the oldest first.
    pub fn ghost_keys(&self) -> (keys: Vec<u64>)
        ensures
            keys@ == self@.ghosts,
    {
        self.ghosts.keys()
    }
}

} // verus!
