use s3fifo::Cache;

const A: u64 = 1;
const B: u64 = 2;
const C: u64 = 3;
const D: u64 = 4;
const E: u64 = 5;

/// A cache for ten entries: the small queue holds one key, the main queue
/// nine, the ghost queue nine.
fn cache_of_ten() -> Cache<i32> {
    Cache::new(10)
}

#[test]
fn simple_admission() {
    let mut cache = cache_of_ten();
    assert!(cache.insert(A, 1));
    assert_eq!(cache.get(&A), Some(&1));

    assert_eq!(cache.small_keys(), vec![A]);
    assert_eq!(cache.main_keys(), Vec::<u64>::new());
    assert_eq!(cache.ghost_keys(), Vec::<u64>::new());
    assert_eq!(cache.len(), 1);
    assert_eq!(cache.frequency(&A), Some(1));
}

#[test]
fn small_overflow_without_promotion() {
    let mut cache = cache_of_ten();
    assert!(cache.insert(A, 1));
    assert!(cache.insert(B, 2));

    assert_eq!(cache.small_keys(), vec![B]);
    assert_eq!(cache.main_keys(), Vec::<u64>::new());
    assert_eq!(cache.ghost_keys(), vec![A]);
    assert_eq!(cache.len(), 1);
    assert_eq!(cache.frequency(&B), Some(0));
    assert_eq!(cache.frequency(&A), None);
    assert_eq!(cache.get(&A), None);
}

#[test]
fn ghost_driven_promotion() {
    let mut cache = cache_of_ten();
    cache.insert(A, 1);
    cache.insert(B, 2);
    assert!(cache.insert(A, 3));

    assert_eq!(cache.small_keys(), vec![B]);
    assert_eq!(cache.main_keys(), vec![A]);
    // The ghost queue forgets a key that comes back.
    assert_eq!(cache.ghost_keys(), Vec::<u64>::new());
    assert_eq!(cache.len(), 2);
    assert_eq!(cache.frequency(&A), Some(0));
    assert_eq!(cache.frequency(&B), Some(0));
    assert_eq!(cache.get(&B), Some(&2));
    assert_eq!(cache.get(&A), Some(&3));
}

#[test]
fn main_eviction_skips_hot_keys() {
    let (x, y, z) = (10u64, 11u64, 12u64);
    let mut cache: Cache<i32> = Cache::new(2);
    cache.insert(x, 1);
    for _ in 0..3 {
        assert_eq!(cache.get(&x), Some(&1));
    }
    assert_eq!(cache.frequency(&x), Some(3));
    cache.insert(y, 2);
    // Leaving probation resets the counter.
    assert_eq!(cache.main_keys(), vec![x]);
    assert_eq!(cache.frequency(&x), Some(0));
    cache.insert(z, 3);
    assert_eq!(cache.small_keys(), vec![z]);
    assert_eq!(cache.ghost_keys(), vec![y]);

    // Three further admissions leave `x` where it is.
    for (i, fresh) in [20u64, 21, 22].into_iter().enumerate() {
        assert!(cache.insert(fresh, 100 + i as i32));
        assert_eq!(cache.main_keys(), vec![x]);
        assert_eq!(cache.small_keys(), vec![fresh]);
    }
    assert_eq!(cache.get(&x), Some(&1));
    assert_eq!(cache.len(), 2);
}

#[test]
fn hot_key_in_main_survives_one_admission_per_count() {
    let x = 10u64;
    let mut cache: Cache<i32> = Cache::new(2);
    cache.insert(x, 1);
    cache.get(&x);
    cache.insert(20, 0);
    assert_eq!(cache.main_keys(), vec![x]);
    for _ in 0..3 {
        cache.get(&x);
    }
    assert_eq!(cache.frequency(&x), Some(3));

    // Each key that is read on probation moves on to the main queue, costs
    // `x` one count, and is itself passed round and dropped.
    let mut expected = 3u8;
    for fresh in 21u64..24 {
        assert_eq!(cache.get(&(fresh - 1)), Some(&0));
        cache.insert(fresh, 0);
        expected -= 1;
        assert_eq!(cache.main_keys(), vec![x]);
        assert_eq!(cache.frequency(&x), Some(expected));
        assert_eq!(cache.frequency(&(fresh - 1)), None);
        assert_eq!(cache.len(), 2);
    }
    // With its counter at zero `x` is evicted by the next one.
    assert_eq!(cache.get(&23), Some(&0));
    cache.insert(24, 0);
    assert_eq!(cache.main_keys(), vec![23]);
    assert_eq!(cache.frequency(&x), None);
    assert_eq!(cache.get(&x), None);
    // A key evicted from the main queue is not remembered.
    assert!(!cache.ghost_keys().contains(&x));
}

#[test]
fn saturation() {
    let mut cache: Cache<i32> = Cache::new(2);
    cache.insert(A, 1);
    for _ in 0..10 {
        assert_eq!(cache.get(&A), Some(&1));
    }
    assert_eq!(cache.frequency(&A), Some(3));
}

#[test]
fn reinsert_after_eviction() {
    let mut cache: Cache<i32> = Cache::new(2);
    for (k, v) in [(A, 1), (B, 2), (C, 3), (D, 4), (E, 5)] {
        assert!(cache.insert(k, v));
    }
    assert_eq!(cache.frequency(&A), None);
    assert!(cache.insert(A, 6));
    assert_eq!(cache.get(&A), Some(&6));
    assert!(cache.len() <= 2);
    assert_eq!(cache.small_keys(), vec![A]);
    assert_eq!(cache.ghost_keys(), vec![E]);
}

#[test]
fn insert_of_a_held_key_changes_nothing() {
    let mut cache = cache_of_ten();
    cache.insert(A, 1);
    cache.get(&A);
    cache.insert(B, 2);
    cache.insert(C, 3);
    let before = (
        cache.small_keys(),
        cache.main_keys(),
        cache.ghost_keys(),
        cache.frequency(&A),
        cache.frequency(&C),
        cache.len(),
    );
    assert!(!cache.insert(A, 99));
    assert!(!cache.insert(C, 98));
    let after = (
        cache.small_keys(),
        cache.main_keys(),
        cache.ghost_keys(),
        cache.frequency(&A),
        cache.frequency(&C),
        cache.len(),
    );
    assert_eq!(before, after);
    assert_eq!(cache.get(&A), Some(&1));
    assert_eq!(cache.get(&C), Some(&3));
}

#[test]
fn lookup_raises_the_counter_by_one_up_to_three() {
    let mut cache = cache_of_ten();
    cache.insert(A, 7);
    let mut expected = [1u8, 2, 3, 3, 3].into_iter();
    assert_eq!(cache.frequency(&A), Some(0));
    for _ in 0..5 {
        let before = cache.frequency(&A).unwrap();
        assert_eq!(cache.get(&A), Some(&7));
        let after = cache.frequency(&A).unwrap();
        assert!(after >= before);
        assert_eq!(Some(after), expected.next());
    }
    // A lookup touches no queue, and a miss touches nothing.
    assert_eq!(cache.small_keys(), vec![A]);
    assert_eq!(cache.get(&B), None);
    assert_eq!(cache.frequency(&A), Some(3));
    assert_eq!(cache.len(), 1);
}

#[test]
fn first_insert_goes_to_small_and_insert_after_demotion_to_main() {
    let mut cache: Cache<i32> = Cache::new(30);
    // Small queue of three keys, main queue of 27.
    for k in 1u64..=3 {
        cache.insert(k, 0);
        assert_eq!(cache.small_keys().last(), Some(&k));
        assert!(!cache.main_keys().contains(&k));
    }
    cache.insert(4, 0);
    assert_eq!(cache.small_keys(), vec![2, 3, 4]);
    assert_eq!(cache.ghost_keys(), vec![1]);
    assert!(cache.insert(1, 0));
    assert_eq!(cache.main_keys(), vec![1]);
    assert_eq!(cache.small_keys(), vec![2, 3, 4]);
    assert_eq!(cache.ghost_keys(), Vec::<u64>::new());
}

#[test]
fn main_scan_moves_hot_keys_behind_the_new_key() {
    // Small queue of one key, main queue of two.
    let mut cache: Cache<&str> = Cache::new(3);
    cache.insert(1, "one");
    cache.get(&1);
    cache.insert(2, "two");
    cache.get(&2);
    cache.insert(3, "three");
    assert_eq!(cache.main_keys(), vec![1, 2]);
    assert_eq!(cache.small_keys(), vec![3]);
    cache.get(&1);
    cache.get(&3);
    assert_eq!(cache.frequency(&1), Some(1));
    assert_eq!(cache.frequency(&2), Some(0));

    cache.insert(4, "four");
    // Key 3 moves on to the full main queue: key 1 loses its count and goes
    // behind it, key 2 is evicted.
    assert_eq!(cache.main_keys(), vec![3, 1]);
    assert_eq!(cache.small_keys(), vec![4]);
    assert_eq!(cache.frequency(&1), Some(0));
    assert_eq!(cache.frequency(&2), None);
    assert_eq!(cache.frequency(&3), Some(0));
    assert_eq!(cache.len(), 3);
    assert_eq!(cache.get(&2), None);
    assert_eq!(cache.get(&1), Some(&"one"));
}

#[test]
fn remembered_key_stays_in_main_when_every_counter_there_is_positive() {
    let mut cache: Cache<&str> = Cache::new(2);
    cache.insert(1, "a");
    cache.insert(2, "b");
    assert_eq!(cache.ghost_keys(), vec![1]);
    cache.get(&2);
    cache.insert(3, "c");
    assert_eq!(cache.main_keys(), vec![2]);
    cache.get(&2);
    assert_eq!(cache.frequency(&2), Some(1));

    // Key 1 is remembered, so it goes to the main queue. The only key there
    // has a positive counter: it loses its count, the scan comes round to
    // key 1, which stays, and key 2 is evicted in the next round.
    assert!(cache.insert(1, "again"));
    assert_eq!(cache.main_keys(), vec![1]);
    assert_eq!(cache.small_keys(), vec![3]);
    assert_eq!(cache.ghost_keys(), Vec::<u64>::new());
    assert_eq!(cache.frequency(&1), Some(0));
    assert_eq!(cache.frequency(&2), None);
    assert_eq!(cache.frequency(&3), Some(0));
    assert_eq!(cache.len(), 2);
    assert_eq!(cache.get(&1), Some(&"again"));
    assert_eq!(cache.get(&2), None);

    // Key 1 can be evicted like any other key of the main queue.
    cache.get(&3);
    cache.insert(4, "d");
    cache.get(&4);
    cache.insert(5, "e");
    assert_eq!(cache.main_keys(), vec![4]);
    assert_eq!(cache.frequency(&1), None);
    assert_eq!(cache.len(), 2);
}

#[test]
fn cache_of_two_holds_two_entries_after_a_remembered_key_returns() {
    let (x, y, z) = (10u64, 11u64, 12u64);
    let mut cache: Cache<i32> = Cache::new(2);
    cache.insert(x, 1);
    cache.get(&x);
    cache.insert(y, 2);
    cache.insert(z, 3);
    cache.get(&x);
    assert_eq!(cache.ghost_keys(), vec![y]);
    assert_eq!(cache.main_keys(), vec![x]);
    assert_eq!(cache.frequency(&x), Some(1));

    assert!(cache.insert(y, 4));
    let held = [x, y, z].iter().filter(|k| cache.frequency(k).is_some()).count();
    assert_eq!(held, 2);
    assert_eq!(cache.len(), 2);
    assert_eq!(cache.main_keys(), vec![y]);
    assert_eq!(cache.small_keys(), vec![z]);
    assert_eq!(cache.get(&x), None);
    assert_eq!(cache.get(&y), Some(&4));
    assert_eq!(cache.get(&z), Some(&3));
}

/// A cache with a main queue of two keys, 1 and 2, with the given counters, a
/// small queue that holds key 4, and a ghost queue that remembers key 3.
fn main_of_two(first: u8, second: u8) -> Cache<&'static str> {
    let mut cache: Cache<&str> = Cache::new(3);
    cache.insert(1, "one");
    cache.get(&1);
    cache.insert(2, "two");
    cache.get(&2);
    cache.insert(3, "three");
    cache.insert(4, "four");
    for _ in 0..first {
        cache.get(&1);
    }
    for _ in 0..second {
        cache.get(&2);
    }
    assert_eq!(cache.main_keys(), vec![1, 2]);
    assert_eq!(cache.small_keys(), vec![4]);
    assert_eq!(cache.ghost_keys(), vec![3]);
    assert_eq!(cache.frequency(&1), Some(first));
    assert_eq!(cache.frequency(&2), Some(second));
    cache
}

#[test]
fn main_scan_goes_round_until_a_counter_is_zero() {
    // Two full rounds, then the first key is evicted.
    let mut cache = main_of_two(2, 3);
    assert!(cache.insert(3, "back"));
    assert_eq!(cache.main_keys(), vec![2, 3]);
    assert_eq!(cache.frequency(&1), None);
    assert_eq!(cache.frequency(&2), Some(1));
    assert_eq!(cache.frequency(&3), Some(0));
    assert_eq!(cache.small_keys(), vec![4]);
    assert_eq!(cache.ghost_keys(), Vec::<u64>::new());
    assert_eq!(cache.len(), 3);

    // Two full rounds and one more step, then the second key is evicted.
    let mut cache = main_of_two(3, 2);
    assert!(cache.insert(3, "back"));
    assert_eq!(cache.main_keys(), vec![3, 1]);
    assert_eq!(cache.frequency(&1), Some(0));
    assert_eq!(cache.frequency(&2), None);
    assert_eq!(cache.frequency(&3), Some(0));
    assert_eq!(cache.len(), 3);

    // Equal counters: the older key leaves.
    let mut cache = main_of_two(3, 3);
    assert!(cache.insert(3, "back"));
    assert_eq!(cache.main_keys(), vec![2, 3]);
    assert_eq!(cache.frequency(&2), Some(0));
    assert_eq!(cache.len(), 3);

    // A zero counter: no round, the scan stops at the first cold key.
    let mut cache = main_of_two(1, 0);
    assert!(cache.insert(3, "back"));
    assert_eq!(cache.main_keys(), vec![3, 1]);
    assert_eq!(cache.frequency(&1), Some(0));
    assert_eq!(cache.frequency(&2), None);
    assert_eq!(cache.get(&3), Some(&"back"));
}

#[test]
fn promoted_key_leaves_at_once_when_every_counter_in_main_is_positive() {
    let mut cache: Cache<i32> = Cache::new(2);
    cache.insert(1, 1);
    cache.get(&1);
    cache.insert(2, 2);
    assert_eq!(cache.main_keys(), vec![1]);
    cache.get(&1);
    cache.get(&1);
    cache.get(&2);
    cache.insert(3, 3);
    // Key 2 was read on probation and moved on; key 1 had two counts, so the
    // scan came round to key 2 and evicted it.
    assert_eq!(cache.main_keys(), vec![1]);
    assert_eq!(cache.small_keys(), vec![3]);
    assert_eq!(cache.frequency(&1), Some(1));
    assert_eq!(cache.frequency(&2), None);
    assert_eq!(cache.ghost_keys(), Vec::<u64>::new());
    assert_eq!(cache.len(), 2);
}
