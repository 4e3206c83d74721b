//! The invariant of the model is kept by every transition.
//!
//! The first part holds facts about the sequences that the transitions build.
//! The second part follows an admission step by step: while a key is being
//! admitted it may stand in a queue before its entry exists, which
//! [`CacheState::shape`] allows for, and a key that moves from the small queue
//! to the main queue stands in neither for a moment.
use crate::entry::{Entry, MAX_FREQUENCY_LIMIT};
use crate::model::{ghost_evicted, ghost_pushed, without, CacheState};
use vstd::prelude::*;

verus! {

/// A full queue after it gave up its oldest key for `key`: it is as long as
/// before and holds what it held, but for the oldest key, and `key` as its
/// newest.
pub proof fn lemma_shifted(keys: Seq<u64>, key: u64)
    requires
        keys.len() >= 1,
        keys.no_duplicates(),
        !keys.contains(key),
    ensures
        keys.drop_first().push(key).len() == keys.len(),
        keys.drop_first().push(key).last() == key,
        keys.drop_first().push(key).no_duplicates(),
        forall|k: u64| #[trigger]
            keys.drop_first().push(key).contains(k) <==> k == key || (keys.contains(k) && k
                != keys[0]),
{
    let shifted = keys.drop_first().push(key);
    let last = keys.len() - 1;
    assert forall|i: int| 0 <= i < keys.len() implies keys.contains(#[trigger] keys[i]) by {}
    assert forall|i: int| 0 <= i < shifted.len() implies shifted[i] == (if i < last {
        keys[i + 1]
    } else {
        key
    }) by {}
    assert forall|k: u64| #[trigger] shifted.contains(k) implies k == key || (keys.contains(k) && k
        != keys[0]) by {
        let at = shifted.index_of(k);
        if at < last {
            assert(keys[at + 1] == k);
        }
    }
    assert forall|k: u64| k == key || (keys.contains(k) && k != keys[0]) implies #[trigger]
        shifted.contains(k) by {
        if k == key {
            assert(shifted[last] == k);
        } else {
            assert(shifted[keys.index_of(k) - 1] == k);
        }
    }
}

/// The main queue after the scan evicted the key at `cold`: the keys behind it,
/// then `key`, then the keys before it. It is as long as before and holds what
/// it held, but for the evicted key, and `key`.
pub proof fn lemma_turned(main: Seq<u64>, cold: int, key: u64)
    requires
        0 <= cold < main.len(),
        main.no_duplicates(),
        !main.contains(key),
    ensures
        ({
            let turned = main.subrange(cold + 1, main.len() as int).push(key) + main.subrange(
                0,
                cold,
            );
            &&& turned.len() == main.len()
            &&& turned.no_duplicates()
            &&& forall|k: u64| #[trigger]
                turned.contains(k) <==> k == key || (main.contains(k) && k != main[cold])
        }),
{
    let len = main.len() as int;
    let turned = main.subrange(cold + 1, len).push(key) + main.subrange(0, cold);
    let behind = len - cold - 1;
    assert forall|i: int| 0 <= i < len implies turned[i] == (if i < behind {
        main[cold + 1 + i]
    } else if i == behind {
        key
    } else {
        main[i - behind - 1]
    }) by {}
    assert forall|i: int| 0 <= i < len implies main.contains(#[trigger] main[i]) by {}
    assert forall|k: u64| #[trigger] turned.contains(k) implies k == key || (main.contains(k) && k
        != main[cold]) by {
        let at = turned.index_of(k);
        if at < behind {
            assert(main[cold + 1 + at] == k);
        } else if at > behind {
            assert(main[at - behind - 1] == k);
        }
    }
    assert forall|k: u64| k == key || (main.contains(k) && k != main[cold]) implies #[trigger]
        turned.contains(k) by {
        if k == key {
            assert(turned[behind] == k);
        } else {
            let at = main.index_of(k);
            if at > cold {
                assert(turned[at - cold - 1] == k);
            } else {
                assert(turned[behind + 1 + at] == k);
            }
        }
    }
}

/// A push keeps a ghost queue free of duplicates and within its capacity, and
/// adds no key but the pushed one, which the queue then holds.
pub proof fn lemma_ghost_pushed(keys: Seq<u64>, capacity: nat, key: u64)
    requires
        keys.no_duplicates(),
        keys.len() <= capacity,
        1 <= capacity,
    ensures
        ghost_pushed(keys, capacity, key).no_duplicates(),
        ghost_pushed(keys, capacity, key).len() <= capacity,
        ghost_pushed(keys, capacity, key).contains(key),
        forall|k: u64| #[trigger]
            ghost_pushed(keys, capacity, key).contains(k) ==> k == key || keys.contains(k),
{
    let kept = if keys.len() == capacity {
        ghost_evicted(keys)
    } else {
        keys
    };
    let pushed = ghost_pushed(keys, capacity, key);
    assert forall|i: int| 0 <= i < kept.len() implies kept[i] == keys[i] by {}
    if kept.contains(key) {
        assert(pushed == kept);
    } else {
        assert(pushed == kept.push(key));
        assert(pushed[kept.len() as int] == key);
    }
    assert forall|k: u64| #[trigger] pushed.contains(k) implies k == key || keys.contains(k) by {
        let at = pushed.index_of(k);
        if at < kept.len() {
            assert(keys[at] == k);
        }
    }
}

/// Removing a key from a sequence without duplicates leaves the other keys,
/// still without duplicates.
pub proof fn lemma_without(keys: Seq<u64>, key: u64)
    requires
        keys.no_duplicates(),
    ensures
        without(keys, key).no_duplicates(),
        without(keys, key).len() <= keys.len(),
        forall|k: u64| #[trigger] without(keys, key).contains(k) <==> keys.contains(k) && k != key,
{
    let rest = without(keys, key);
    if keys.contains(key) {
        let at = keys.index_of(key);
        assert forall|i: int| 0 <= i < rest.len() implies rest[i] == (if i < at {
            keys[i]
        } else {
            keys[i + 1]
        }) by {}
        assert forall|k: u64| #[trigger] rest.contains(k) implies keys.contains(k) && k != key by {
            let i = rest.index_of(k);
            if i < at {
                assert(keys[i] == k);
            } else {
                assert(keys[i + 1] == k);
            }
        }
        assert forall|k: u64| keys.contains(k) && k != key implies #[trigger] rest.contains(k) by {
            let i = keys.index_of(k);
            if i < at {
                assert(rest[i] == k);
            } else {
                assert(rest[i - 1] == k);
            }
        }
    }
}

impl<V> CacheState<V> {
    /// Whether the keys of the two queues are the keys that have an entry
    /// together with the pending key.
    pub open spec fn agrees_pending(self, pending: Option<u64>) -> bool {
        forall|k: u64| (self.present(k) || pending == Some(k)) <==> self.queued(k)
    }

    /// The same, leaving aside the key `moving`, which is on its way into a
    /// queue.
    pub open spec fn agrees_but(self, pending: Option<u64>, moving: u64) -> bool {
        forall|k: u64| k != moving ==> ((self.present(k) || pending == Some(k)) <==> self.queued(k))
    }

    /// No counter among the first `n` keys of the main queue is lower than
    /// their lowest counter, and one of them has it.
    pub proof fn lemma_lowest_count(self, n: int)
        requires
            1 <= n <= self.main.len(),
        ensures
            forall|i: int| 0 <= i < n ==> #[trigger] self.count(i) >= self.lowest_count(n),
            exists|i: int| 0 <= i < n && #[trigger] self.count(i) == self.lowest_count(n),
        decreases n,
    {
        if n > 1 {
            self.lemma_lowest_count(n - 1);
            let before = choose|i: int|
                0 <= i < n - 1 && #[trigger] self.count(i) == self.lowest_count(n - 1);
            if self.count(n - 1) < self.lowest_count(n - 1) {
                assert(self.count(n - 1) == self.lowest_count(n));
            } else {
                assert(self.count(before) == self.lowest_count(n));
            }
        } else {
            assert(self.count(0) == self.lowest_count(n));
        }
    }

    /// The first key with the counter `level`, counted from `from`, has that
    /// counter, and no key between `from` and it has.
    pub proof fn lemma_first_at(self, level: int, from: int)
        requires
            0 <= from <= self.main.len(),
        ensures
            from <= self.first_at(level, from) <= self.main.len(),
            self.first_at(level, from) < self.main.len() ==> self.count(
                self.first_at(level, from),
            ) == level,
            forall|i: int| from <= i < self.first_at(level, from) ==> #[trigger] self.count(i) != level,
        decreases self.main.len() - from,
    {
        if from < self.main.len() && self.count(from) != level {
            self.lemma_first_at(level, from + 1);
        }
    }

    /// Where the scan stops: if no counter is below `rounds`, the key at `at`
    /// has that counter and every key before it a higher one, then `rounds` is
    /// the lowest counter and `at` the first position that has it.
    pub proof fn lemma_scan_stops(self, rounds: int, at: int)
        requires
            0 <= at < self.main.len(),
            forall|i: int| 0 <= i < self.main.len() ==> #[trigger] self.count(i) >= rounds,
            forall|i: int| 0 <= i < at ==> #[trigger] self.count(i) > rounds,
            self.count(at) == rounds,
        ensures
            self.lowest_count(self.main.len() as int) == rounds,
            self.first_at(rounds, 0) == at,
    {
        self.lemma_lowest_count(self.main.len() as int);
        self.lemma_first_at(rounds, 0);
    }

    /// On a main queue that is not empty the scan stops at a key: the first
    /// one with the lowest counter.
    pub proof fn lemma_scan_target(self)
        requires
            1 <= self.main.len(),
        ensures
            ({
                let rounds = self.lowest_count(self.main.len() as int);
                let at = self.first_at(rounds, 0);
                &&& 0 <= at < self.main.len()
                &&& self.count(at) == rounds
                &&& forall|i: int| 0 <= i < self.main.len() ==> #[trigger] self.count(i) >= rounds
                &&& forall|i: int| 0 <= i < at ==> #[trigger] self.count(i) > rounds
            }),
    {
        let rounds = self.lowest_count(self.main.len() as int);
        self.lemma_lowest_count(self.main.len() as int);
        self.lemma_first_at(rounds, 0);
        let lowest = choose|i: int| 0 <= i < self.main.len() && #[trigger] self.count(i) == rounds;
        if self.first_at(rounds, 0) >= self.main.len() {
            assert(self.count(lowest) != rounds);
        }
        assert forall|i: int| 0 <= i < self.first_at(rounds, 0) implies #[trigger] self.count(i)
            > rounds by {
            assert(self.count(i) >= rounds);
            assert(self.count(i) != rounds);
        }
    }

    /// What the scan leaves of the entries: the same keys, every entry under
    /// its key and with its value, no counter higher than before, the counters
    /// of the main queue lower by the rounds and by the last pass, and every
    /// other entry as it was.
    pub proof fn lemma_worn(self, rounds: int, n: int)
        requires
            self.main.no_duplicates(),
            0 <= rounds,
            0 <= n <= self.main.len(),
            forall|i: int| 0 <= i < self.main.len() ==> self.present(#[trigger] self.main[i]),
            forall|i: int| 0 <= i < self.main.len() ==> #[trigger] self.count(i) >= rounds,
            forall|i: int| 0 <= i < n ==> #[trigger] self.count(i) > rounds,
        ensures
            self.worn(rounds, n).dom() == self.entries.dom(),
            forall|key: u64|
                self.present(key) ==> (#[trigger] self.worn(rounds, n)[key]).key
                    == self.entries[key].key && self.worn(rounds, n)[key].value
                    == self.entries[key].value && self.worn(rounds, n)[key].freq
                    <= self.entries[key].freq,
            forall|i: int|
                0 <= i < n ==> self.worn(rounds, n)[#[trigger] self.main[i]].freq == self.count(i)
                    - rounds - 1,
            forall|i: int|
                n <= i < self.main.len() ==> self.worn(rounds, n)[#[trigger] self.main[i]].freq
                    == self.count(i) - rounds,
            forall|key: u64|
                !self.main.contains(key) && self.present(key) ==> #[trigger] self.worn(
                    rounds,
                    n,
                )[key] == self.entries[key],
    {
        assert(self.worn(rounds, n).dom() =~= self.entries.dom());
        assert forall|i: int| 0 <= i < self.main.len() implies self.main.contains(
            #[trigger] self.main[i],
        ) by {}
        assert forall|i: int| 0 <= i < self.main.len() implies (self.main.subrange(0, n).contains(
            #[trigger] self.main[i],
        ) <==> i < n) by {
            if self.main.subrange(0, n).contains(self.main[i]) {
                let j = self.main.subrange(0, n).index_of(self.main[i]);
                assert(self.main[j] == self.main[i]);
            }
            if i < n {
                assert(self.main.subrange(0, n)[i] == self.main[i]);
            }
        }
        assert forall|key: u64| self.present(key) implies (#[trigger] self.worn(rounds, n)[key]).key
            == self.entries[key].key && self.worn(rounds, n)[key].value == self.entries[key].value
            && self.worn(rounds, n)[key].freq <= self.entries[key].freq by {
            if self.main.contains(key) {
                let i = self.main.index_of(key);
                assert(self.count(i) >= rounds);
                if i < n {
                    assert(self.count(i) > rounds);
                }
            } else if self.main.subrange(0, n).contains(key) {
                let j = self.main.subrange(0, n).index_of(key);
                assert(self.main[j] == key);
            }
        }
        assert forall|i: int| 0 <= i < n implies self.worn(rounds, n)[#[trigger] self.main[i]].freq
            == self.count(i) - rounds - 1 by {
            assert(self.count(i) > rounds);
        }
        assert forall|i: int| n <= i < self.main.len() implies self.worn(
            rounds,
            n,
        )[#[trigger] self.main[i]].freq == self.count(i) - rounds by {
            assert(self.count(i) >= rounds);
        }
        assert forall|key: u64| !self.main.contains(key) && self.present(key) implies #[trigger]
            self.worn(rounds, n)[key] == self.entries[key] by {
            if self.main.subrange(0, n).contains(key) {
                let j = self.main.subrange(0, n).index_of(key);
                assert(self.main[j] == key);
            }
        }
    }

    /// A key without an entry stands in no queue.
    pub proof fn lemma_absent_not_queued(self, key: u64)
        requires
            self.shape(None),
            !self.present(key),
        ensures
            !self.small.contains(key),
            !self.main.contains(key),
    {
        if self.small.contains(key) {
            assert(self.present(self.small[self.small.index_of(key)]));
        }
        if self.main.contains(key) {
            assert(self.present(self.main[self.main.index_of(key)]));
        }
    }

    /// The state in which the ghost queue has forgotten a key without an
    /// entry: the key is ready to enter the main queue.
    pub proof fn lemma_forget(self, key: u64)
        requires
            self.inv(),
            !self.present(key),
        ensures
            ({
                let forgot = CacheState { ghosts: without(self.ghosts, key), ..self };
                &&& forgot.shape(Some(key))
                &&& forgot.main_admits(key)
                &&& forgot.agrees_but(Some(key), key)
                &&& !forgot.small.contains(key)
                &&& !forgot.ghosts.contains(key)
            }),
    {
        let forgot = CacheState { ghosts: without(self.ghosts, key), ..self };
        lemma_without(self.ghosts, key);
        self.lemma_absent_not_queued(key);
        assert forall|i: int| 0 <= i < forgot.ghosts.len() implies !forgot.present(
            #[trigger] forgot.ghosts[i],
        ) && Some(key) != Some(forgot.ghosts[i]) by {
            assert(forgot.ghosts.contains(forgot.ghosts[i]));
            let at = self.ghosts.index_of(forgot.ghosts[i]);
            assert(!self.present(self.ghosts[at]));
        }
        assert forall|k: u64| k != key implies ((forgot.present(k) || Some(key) == Some(k))
            <==> forgot.queued(k)) by {
            assert(self.present(k) <==> self.queued(k));
        }
    }

    /// The state between the two steps of a promotion: the full small queue
    /// has given up its oldest key for `key`, and that key, its counter reset,
    /// is ready to enter the main queue.
    pub proof fn lemma_reset(self, key: u64)
        requires
            self.inv(),
            !self.present(key),
            !self.ghosts.contains(key),
            self.small.len() >= self.small_cap,
        ensures
            ({
                let victim = self.small[0];
                let reset = CacheState {
                    small: self.small.drop_first().push(key),
                    entries: self.entries.insert(victim, self.entries[victim].with_freq(0)),
                    ..self
                };
                &&& reset.shape(Some(key))
                &&& reset.main_admits(victim)
                &&& reset.agrees_but(Some(key), victim)
                &&& !reset.small.contains(victim)
                &&& reset.present(victim)
                &&& victim != key
            }),
    {
        let victim = self.small[0];
        let small = self.small.drop_first().push(key);
        let reset = CacheState {
            small,
            entries: self.entries.insert(victim, self.entries[victim].with_freq(0)),
            ..self
        };
        self.lemma_absent_not_queued(key);
        lemma_shifted(self.small, key);
        assert(self.present(victim));
        assert(self.small.contains(victim));
        assert forall|i: int, j: int|
            0 <= i < small.len() && 0 <= j < self.main.len() implies small[i] != self.main[j] by {
            assert(small.contains(small[i]));
            assert(self.main.contains(self.main[j]));
            if small[i] != key {
                assert(self.small[self.small.index_of(small[i])] != self.main[j]);
            }
        }
        assert forall|i: int| 0 <= i < small.len() implies reset.present(#[trigger] small[i])
            || Some(key) == Some(small[i]) by {
            assert(small.contains(small[i]));
            if small[i] != key {
                assert(self.present(self.small[self.small.index_of(small[i])]));
            }
        }
        assert forall|i: int| 0 <= i < reset.main.len() implies reset.present(
            #[trigger] reset.main[i],
        ) by {
            assert(self.present(self.main[i]));
        }
        assert forall|i: int| 0 <= i < reset.ghosts.len() implies !reset.present(
            #[trigger] reset.ghosts[i],
        ) && Some(key) != Some(reset.ghosts[i]) by {
            assert(!self.present(self.ghosts[i]));
            assert(self.ghosts.contains(self.ghosts[i]));
        }
        assert(!reset.main.contains(victim)) by {
            if reset.main.contains(victim) {
                assert(self.small[0] != self.main[self.main.index_of(victim)]);
            }
        }
        assert forall|k: u64| k != victim implies ((reset.present(k) || Some(key) == Some(k))
            <==> reset.queued(k)) by {
            assert(self.present(k) <==> self.queued(k));
            assert(small.contains(k) <==> k == key || (self.small.contains(k) && k != victim));
        }
    }

    /// Admission to the main queue keeps the shape of the state and brings the
    /// entries and the queues into step. It leaves the small queue, the ghost
    /// queue and the capacities alone, and brings no key into the main queue
    /// but `key`. A `key` that is waiting for its entry stands in the main
    /// queue afterwards.
    pub proof fn lemma_admit_main_step(self, key: u64, pending: Option<u64>)
        requires
            self.shape(pending),
            self.main_admits(key),
            self.agrees_but(pending, key),
            !self.small.contains(key),
            self.present(key) || pending == Some(key),
        ensures
            self.admit_main(key).shape(pending),
            self.admit_main(key).agrees_pending(pending),
            self.admit_main(key).small == self.small,
            self.admit_main(key).ghosts == self.ghosts,
            self.admit_main(key).small_cap == self.small_cap,
            self.admit_main(key).main_cap == self.main_cap,
            self.admit_main(key).ghost_cap == self.ghost_cap,
            forall|k: u64| #[trigger]
                self.admit_main(key).main.contains(k) ==> k == key || self.main.contains(k),
            !self.present(key) ==> self.admit_main(key).main.contains(key),
    {
        let after = self.admit_main(key);
        let len = self.main.len() as int;
        assert forall|i: int| 0 <= i < self.small.len() implies self.small.contains(
            #[trigger] self.small[i],
        ) by {}
        assert forall|i: int| 0 <= i < self.main.len() implies self.main.contains(
            #[trigger] self.main[i],
        ) by {}
        assert forall|k: u64| k != key implies ((self.present(k) || pending == Some(k))
            <==> self.queued(k)) by {}
        if len < self.main_cap {
            assert(after.main[len] == key);
            assert forall|k: u64| after.main.contains(k) <==> k == key || self.main.contains(k) by {
                if after.main.contains(k) {
                    let at = after.main.index_of(k);
                    if at < len {
                        assert(self.main[at] == k);
                    }
                }
                if self.main.contains(k) {
                    assert(after.main[self.main.index_of(k)] == k);
                }
            }
            assert forall|k: u64| (after.present(k) || pending == Some(k)) <==> after.queued(k) by {
                assert(k != key ==> ((self.present(k) || pending == Some(k)) <==> self.queued(k)));
            }
        } else {
            let rounds = if self.present(key) {
                0
            } else {
                self.lowest_count(len)
            };
            let at = self.first_at(rounds, 0);
            self.lemma_first_at(rounds, 0);
            if !self.present(key) {
                self.lemma_scan_target();
            }
            if at < len {
                if self.present(key) {
                    assert forall|i: int| 0 <= i < at implies #[trigger] self.count(i) > 0 by {
                        assert(self.count(i) != 0);
                    }
                }
                self.lemma_worn(rounds, at);
                lemma_turned(self.main, at, key);
                let evicted = self.main[at];
                assert(self.present(evicted));
                assert(self.main.contains(evicted));
                assert(!self.small.contains(evicted)) by {
                    if self.small.contains(evicted) {
                        assert(self.small[self.small.index_of(evicted)] != self.main[at]);
                    }
                }
                assert forall|k: u64| after.present(k) <==> self.present(k) && k != evicted by {}
                assert forall|i: int, j: int|
                    0 <= i < after.small.len() && 0 <= j < after.main.len() implies after.small[i]
                    != after.main[j] by {
                    assert(after.main.contains(after.main[j]));
                    if after.main[j] != key {
                        let from = self.main.index_of(after.main[j]);
                        assert(self.small[i] != self.main[from]);
                    }
                }
                assert forall|i: int| 0 <= i < after.small.len() implies after.present(
                    #[trigger] after.small[i],
                ) || pending == Some(after.small[i]) by {
                    assert(self.small[i] != evicted);
                }
                assert forall|i: int| 0 <= i < after.main.len() implies after.present(
                    #[trigger] after.main[i],
                ) || pending == Some(after.main[i]) by {
                    assert(after.main.contains(after.main[i]));
                    if after.main[i] != key {
                        let from = self.main.index_of(after.main[i]);
                        assert(self.present(self.main[from]));
                    }
                }
                assert forall|k: u64| (after.present(k) || pending == Some(k))
                    <==> after.queued(k) by {
                    assert(k != key ==> ((self.present(k) || pending == Some(k)) <==> self.queued(
                        k,
                    )));
                    assert(after.main.contains(k) <==> k == key || (self.main.contains(k) && k
                        != evicted));
                }
                assert(after.main.contains(key));
            } else {
                // No key of the queue is cold, and `key` has an entry.
                assert(self.present(key));
                assert forall|i: int| 0 <= i < len implies #[trigger] self.count(i) > 0 by {
                    assert(self.count(i) != 0);
                }
                self.lemma_worn(0, len);
                assert forall|k: u64| after.present(k) <==> self.present(k) && k != key by {}
                assert forall|i: int| 0 <= i < after.small.len() implies after.present(
                    #[trigger] after.small[i],
                ) || pending == Some(after.small[i]) by {
                    assert(self.small.contains(self.small[i]));
                }
                assert forall|k: u64| (after.present(k) || pending == Some(k))
                    <==> after.queued(k) by {
                    assert(k != key ==> ((self.present(k) || pending == Some(k)) <==> self.queued(
                        k,
                    )));
                }
            }
        }
    }

    /// Admission to the small queue keeps the shape of the state and keeps
    /// the entries and the queues in step, with the admitted key still waiting
    /// for its entry. The key becomes the newest of the small queue and does
    /// not enter the main queue.
    pub proof fn lemma_admit_small_step(self, key: u64)
        requires
            self.inv(),
            !self.present(key),
            !self.ghosts.contains(key),
        ensures
            self.admit_small(key).shape(Some(key)),
            self.admit_small(key).agrees_pending(Some(key)),
            self.admit_small(key).small.len() > 0,
            self.admit_small(key).small.last() == key,
            !self.admit_small(key).main.contains(key),
            self.admit_small(key).small_cap == self.small_cap,
            self.admit_small(key).main_cap == self.main_cap,
            self.admit_small(key).ghost_cap == self.ghost_cap,
    {
        let after = self.admit_small(key);
        self.lemma_absent_not_queued(key);
        assert forall|i: int| 0 <= i < self.ghosts.len() implies self.ghosts[i] != key by {
            assert(self.ghosts.contains(self.ghosts[i]));
        }
        assert forall|i: int| 0 <= i < self.main.len() implies self.main.contains(
            #[trigger] self.main[i],
        ) by {}
        if self.small.len() < self.small_cap {
            assert(after.small[self.small.len() as int] == key);
            assert forall|k: u64| after.small.contains(k) <==> k == key || self.small.contains(
                k,
            ) by {
                if after.small.contains(k) {
                    let at = after.small.index_of(k);
                    if at < self.small.len() {
                        assert(self.small[at] == k);
                    }
                }
                if self.small.contains(k) {
                    assert(after.small[self.small.index_of(k)] == k);
                }
            }
            assert forall|k: u64| (after.present(k) || Some(key) == Some(k)) <==> after.queued(
                k,
            ) by {
                assert(self.present(k) <==> self.queued(k));
            }
        } else {
            let victim = self.small[0];
            let small = self.small.drop_first().push(key);
            lemma_shifted(self.small, key);
            self.lemma_reset(key);
            assert(self.small.contains(victim));
            assert(!self.main.contains(victim)) by {
                if self.main.contains(victim) {
                    assert(self.small[0] != self.main[self.main.index_of(victim)]);
                }
            }
            if self.entries[victim].freq == 0 {
                lemma_ghost_pushed(self.ghosts, self.ghost_cap, victim);
                assert forall|i: int| 0 <= i < after.ghosts.len() implies !after.present(
                    #[trigger] after.ghosts[i],
                ) && Some(key) != Some(after.ghosts[i]) by {
                    assert(after.ghosts.contains(after.ghosts[i]));
                    if after.ghosts[i] != victim {
                        let at = self.ghosts.index_of(after.ghosts[i]);
                        assert(!self.present(self.ghosts[at]));
                    }
                }
                assert forall|i: int| 0 <= i < after.small.len() implies after.present(
                    #[trigger] after.small[i],
                ) || Some(key) == Some(after.small[i]) by {
                    assert(small.contains(small[i]));
                    if small[i] != key {
                        assert(self.present(self.small[self.small.index_of(small[i])]));
                    }
                }
                assert forall|i: int| 0 <= i < after.main.len() implies after.present(
                    #[trigger] after.main[i],
                ) by {
                    assert(self.present(self.main[i]));
                    assert(self.small[0] != self.main[i]);
                }
                assert forall|i: int, j: int|
                    0 <= i < after.small.len() && 0 <= j < after.main.len() implies after.small[i]
                    != after.main[j] by {
                    assert(small.contains(small[i]));
                    if small[i] != key {
                        assert(self.small[self.small.index_of(small[i])] != self.main[j]);
                    }
                }
                assert forall|k: u64| (after.present(k) || Some(key) == Some(k))
                    <==> after.queued(k) by {
                    assert(self.present(k) <==> self.queued(k));
                    assert(small.contains(k) <==> k == key || (self.small.contains(k) && k
                        != victim));
                }
            } else {
                let reset = CacheState {
                    small,
                    entries: self.entries.insert(victim, self.entries[victim].with_freq(0)),
                    ..self
                };
                reset.lemma_admit_main_step(victim, Some(key));
            }
        }
    }

    /// Once the entry of the pending key is created, the invariant holds.
    pub proof fn lemma_settle(self, entry: Entry<u64, V>)
        requires
            self.shape(Some(entry.key)),
            self.agrees_pending(Some(entry.key)),
            entry.freq <= MAX_FREQUENCY_LIMIT,
        ensures
            (CacheState { entries: self.entries.insert(entry.key, entry), ..self }).inv(),
    {
        let after = CacheState { entries: self.entries.insert(entry.key, entry), ..self };
        assert forall|i: int| 0 <= i < after.ghosts.len() implies !after.present(
            #[trigger] after.ghosts[i],
        ) by {
            assert(!self.present(self.ghosts[i]));
        }
        assert forall|k: u64| after.present(k) <==> after.queued(k) by {
            assert((self.present(k) || Some(entry.key) == Some(k)) <==> self.queued(k));
        }
    }

    /// A new cache meets the invariant.
    pub proof fn lemma_empty_inv(capacity: nat)
        ensures
            Self::empty(capacity).inv(),
    {
    }

    /// A lookup keeps the invariant. It changes neither the queues nor the set
    /// of keys that have an entry.
    pub proof fn lemma_lookup_inv(self, key: u64)
        requires
            self.inv(),
        ensures
            self.lookup(key).inv(),
            self.lookup(key).small == self.small,
            self.lookup(key).main == self.main,
            self.lookup(key).ghosts == self.ghosts,
            self.lookup(key).entries.dom() == self.entries.dom(),
    {
        assert(self.lookup(key).entries.dom() =~= self.entries.dom());
        assert forall|k: u64| self.lookup(key).present(k) <==> self.lookup(key).queued(k) by {
            assert(self.present(k) <==> self.queued(k));
        }
    }

    /// An insertion keeps the invariant and the capacities.
    pub proof fn lemma_insert_inv(self, key: u64, value: V)
        requires
            self.inv(),
        ensures
            self.insert(key, value).inv(),
            self.insert(key, value).small_cap == self.small_cap,
            self.insert(key, value).main_cap == self.main_cap,
            self.insert(key, value).ghost_cap == self.ghost_cap,
    {
        if !self.present(key) {
            let entry = Entry { key, value, freq: 0 };
            if self.ghosts.contains(key) {
                let forgot = CacheState { ghosts: without(self.ghosts, key), ..self };
                self.lemma_forget(key);
                forgot.lemma_admit_main_step(key, Some(key));
                forgot.admit_main(key).lemma_settle(entry);
            } else {
                self.lemma_admit_small_step(key);
                self.admit_small(key).lemma_settle(entry);
            }
        }
    }
}

} // verus!
