//! What holds of every cache, proved over the model.
//!
//! Every operation of [`Cache`](crate::cache::Cache) keeps
//! [`Cache::wf`](crate::cache::Cache::wf), and with it the invariant of the
//! model, and is proved to take the state of the cache to the state that the
//! model gives. So what is proved here of the model's transitions holds of the
//! executable cache.
use crate::entry::{Entry, MAX_FREQUENCY_LIMIT};
use crate::model::{main_size, small_size, without, CacheState};
use vstd::prelude::*;

verus! {

impl<V> CacheState<V> {
    /// The two queues of a cache for two or more entries have room for exactly
    /// that many. A cache for one entry has room for two, one in each queue.
    pub proof fn lemma_sizes_add_up(capacity: nat)
        ensures
            capacity >= 2 ==> small_size(capacity) + main_size(capacity) == capacity,
            capacity <= 1 ==> small_size(capacity) + main_size(capacity) == 2,
    {
    }

    /// There are as many entries as there are keys in the two queues, and so
    /// no more than the two queues have room for.
    pub proof fn lemma_capacity_bound(self)
        requires
            self.inv(),
        ensures
            self.entries.dom().len() == self.small.len() + self.main.len(),
            self.entries.dom().len() <= self.small_cap + self.main_cap,
    {
        broadcast use vstd::seq_lib::seq_to_set_is_finite;

        let small = self.small.to_set();
        let main = self.main.to_set();
        self.small.unique_seq_to_set();
        self.main.unique_seq_to_set();
        assert(small.disjoint(main)) by {
            assert forall|key: u64| small.contains(key) implies !main.contains(key) by {
                if main.contains(key) {
                    assert(self.small[self.small.index_of(key)] != self.main[self.main.index_of(
                        key,
                    )]);
                }
            }
        }
        vstd::set_lib::lemma_set_disjoint_lens(small, main);
        assert forall|key: u64| self.entries.dom().contains(key) <==> (small + main).contains(
            key,
        ) by {
            assert(self.present(key) <==> self.queued(key));
            assert(small.contains(key) <==> self.small.contains(key));
            assert(main.contains(key) <==> self.main.contains(key));
        }
        assert(self.entries.dom() =~= small + main);
    }

    /// A cache for two or more entries never holds more entries than it was
    /// made for: not when it is new, and not after an insertion or a lookup.
    pub proof fn lemma_within_capacity(self, capacity: nat, key: u64, value: V)
        requires
            self.inv(),
            capacity >= 2,
            self.small_cap == small_size(capacity),
            self.main_cap == main_size(capacity),
        ensures
            Self::empty(capacity).entries.dom().len() <= capacity,
            self.entries.dom().len() <= capacity,
            self.insert(key, value).entries.dom().len() <= capacity,
            self.lookup(key).entries.dom().len() <= capacity,
    {
        Self::lemma_empty_inv(capacity);
        Self::empty(capacity).lemma_capacity_bound();
        self.lemma_capacity_bound();
        self.lemma_insert_inv(key, value);
        self.insert(key, value).lemma_capacity_bound();
        self.lemma_lookup_inv(key);
        self.lookup(key).lemma_capacity_bound();
    }

    /// The keys that have an entry are the keys of the two queues, no key
    /// stands in both queues, and none stands twice in one. This holds of a
    /// new cache and after every insertion and lookup.
    pub proof fn lemma_entries_are_queued(self, capacity: nat, key: u64, value: V)
        requires
            self.inv(),
        ensures
            forall|k: u64| self.present(k) <==> self.small.contains(k) || self.main.contains(k),
            forall|k: u64| !(self.small.contains(k) && self.main.contains(k)),
            self.small.no_duplicates(),
            self.main.no_duplicates(),
            Self::empty(capacity).inv(),
            self.insert(key, value).inv(),
            self.lookup(key).inv(),
    {
        Self::lemma_empty_inv(capacity);
        self.lemma_insert_inv(key, value);
        self.lemma_lookup_inv(key);
        assert forall|k: u64| self.present(k) <==> self.small.contains(k) || self.main.contains(
            k,
        ) by {
            assert(self.present(k) <==> self.queued(k));
        }
        assert forall|k: u64| !(self.small.contains(k) && self.main.contains(k)) by {
            if self.small.contains(k) && self.main.contains(k) {
                assert(self.small[self.small.index_of(k)] != self.main[self.main.index_of(k)]);
            }
        }
    }

    /// No key of the ghost queue has an entry.
    pub proof fn lemma_ghosts_have_no_entry(self)
        requires
            self.inv(),
        ensures
            forall|key: u64| !(self.ghosts.contains(key) && self.present(key)),
    {
        assert forall|key: u64| !(self.ghosts.contains(key) && self.present(key)) by {
            if self.ghosts.contains(key) {
                assert(!self.present(self.ghosts[self.ghosts.index_of(key)]));
            }
        }
    }

    /// Every counter lies between zero and [`MAX_FREQUENCY_LIMIT`].
    pub proof fn lemma_counters_bounded(self)
        requires
            self.inv(),
        ensures
            forall|key: u64|
                self.present(key) ==> 0 <= (#[trigger] self.entries[key]).freq
                    <= MAX_FREQUENCY_LIMIT,
    {
    }

    /// A lookup of a key that is held never lowers its counter: it raises it
    /// by exactly one, unless it stands at [`MAX_FREQUENCY_LIMIT`], where it
    /// stays. The value, every other entry and the three queues stay as they
    /// were.
    pub proof fn lemma_lookup_counts(self, key: u64)
        requires
            self.present(key),
            self.entries[key].freq <= MAX_FREQUENCY_LIMIT,
        ensures
            self.lookup(key).present(key),
            self.lookup(key).entries[key].freq >= self.entries[key].freq,
            self.entries[key].freq < MAX_FREQUENCY_LIMIT ==> self.lookup(key).entries[key].freq
                == self.entries[key].freq + 1,
            self.entries[key].freq == MAX_FREQUENCY_LIMIT ==> self.lookup(key).entries[key].freq
                == MAX_FREQUENCY_LIMIT,
            self.lookup(key).entries[key].value == self.entries[key].value,
            forall|other: u64|
                other != key && self.present(other) ==> #[trigger] self.lookup(key).entries[other]
                    == self.entries[other],
            self.lookup(key).small == self.small,
            self.lookup(key).main == self.main,
            self.lookup(key).ghosts == self.ghosts,
    {
    }

    /// Inserting a key that is held changes nothing: not its value, not its
    /// counter, and no queue.
    pub proof fn lemma_insert_present(self, key: u64, value: V)
        requires
            self.present(key),
        ensures
            self.insert(key, value) == self,
    {
    }

    /// A key that has no entry and that the ghost queue does not remember is
    /// admitted to the small queue, as its newest key, with a counter of zero.
    pub proof fn lemma_new_key_enters_small(self, key: u64, value: V)
        requires
            self.inv(),
            !self.present(key),
            !self.ghosts.contains(key),
        ensures
            self.insert(key, value).small.len() > 0,
            self.insert(key, value).small.last() == key,
            !self.insert(key, value).main.contains(key),
            self.insert(key, value).entries[key] == (Entry { key, value, freq: 0 }),
    {
        self.lemma_admit_small_step(key);
    }

    /// A key that has no entry and that the ghost queue remembers is admitted
    /// to the main queue, with a counter of zero, and forgotten by the ghost
    /// queue. The small queue is left alone.
    pub proof fn lemma_remembered_key_enters_main(self, key: u64, value: V)
        requires
            self.inv(),
            !self.present(key),
            self.ghosts.contains(key),
        ensures
            self.insert(key, value).main.contains(key),
            self.insert(key, value).small == self.small,
            !self.insert(key, value).small.contains(key),
            !self.insert(key, value).ghosts.contains(key),
            self.insert(key, value).entries[key] == (Entry { key, value, freq: 0 }),
    {
        let forgot = CacheState { ghosts: without(self.ghosts, key), ..self };
        self.lemma_forget(key);
        forgot.lemma_admit_main_step(key, Some(key));
    }
}

} // verus!
