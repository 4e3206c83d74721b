use s3fifo::entry::MAX_FREQUENCY_LIMIT;
use s3fifo::{Entry, EntryTable, GhostQueue};

#[test]
fn new_entry_has_not_been_read() {
    let entry = Entry::new(7u64, "seven");
    assert_eq!(entry.key, 7);
    assert_eq!(entry.value, "seven");
    assert_eq!(entry.freq, 0);
}

#[test]
fn cloned_entry_keeps_key_value_and_counter() {
    let mut entry = Entry::new(String::from("k"), vec![1, 2, 3]);
    entry.freq = 2;
    let copy = entry.clone();
    assert_eq!(copy.key, "k");
    assert_eq!(copy.value, vec![1, 2, 3]);
    assert_eq!(copy.freq, 2);
    assert_eq!(entry.freq, 2);
}

#[test]
fn frequency_limit_is_three() {
    assert_eq!(MAX_FREQUENCY_LIMIT, 3);
}

#[test]
fn ghost_queue_keeps_insertion_order() {
    let mut ghosts = GhostQueue::new(4);
    assert_eq!(ghosts.keys(), Vec::<u64>::new());
    ghosts.push(30);
    ghosts.push(10);
    ghosts.push(20);
    assert_eq!(ghosts.keys(), vec![30, 10, 20]);
    assert!(ghosts.contains(&10));
    assert!(ghosts.contains(&30));
    assert!(!ghosts.contains(&40));
}

#[test]
fn ghost_queue_push_is_idempotent() {
    let mut ghosts = GhostQueue::new(4);
    ghosts.push(1);
    ghosts.push(2);
    ghosts.push(1);
    assert_eq!(ghosts.keys(), vec![1, 2]);
}

#[test]
fn full_ghost_queue_gives_up_its_newest_key() {
    let mut ghosts = GhostQueue::new(2);
    ghosts.push(1);
    ghosts.push(2);
    ghosts.push(3);
    assert_eq!(ghosts.keys(), vec![1, 3]);
    ghosts.push(4);
    assert_eq!(ghosts.keys(), vec![1, 4]);
}

#[test]
fn full_ghost_queue_gives_up_a_key_even_for_one_that_it_holds() {
    let mut ghosts = GhostQueue::new(2);
    ghosts.push(1);
    ghosts.push(2);
    ghosts.push(1);
    assert_eq!(ghosts.keys(), vec![1]);
    ghosts.push(2);
    ghosts.push(2);
    assert_eq!(ghosts.keys(), vec![1, 2]);
}

#[test]
fn ghost_queue_of_one_holds_the_last_key() {
    let mut ghosts = GhostQueue::new(1);
    for k in 1u64..=5 {
        ghosts.push(k);
        assert_eq!(ghosts.keys(), vec![k]);
    }
}

#[test]
fn ghost_queue_evict_forgets_the_newest_key() {
    let mut ghosts = GhostQueue::new(3);
    ghosts.evict();
    assert_eq!(ghosts.keys(), Vec::<u64>::new());
    ghosts.push(1);
    ghosts.push(2);
    ghosts.evict();
    assert_eq!(ghosts.keys(), vec![1]);
    ghosts.evict();
    ghosts.evict();
    assert_eq!(ghosts.keys(), Vec::<u64>::new());
}

#[test]
fn ghost_queue_remove_keeps_the_order_of_the_others() {
    let mut ghosts = GhostQueue::new(4);
    for k in [1u64, 2, 3, 4] {
        ghosts.push(k);
    }
    assert!(ghosts.remove(&2));
    assert_eq!(ghosts.keys(), vec![1, 3, 4]);
    assert!(!ghosts.remove(&2));
    assert_eq!(ghosts.keys(), vec![1, 3, 4]);
    assert!(ghosts.remove(&4));
    assert!(ghosts.remove(&1));
    assert_eq!(ghosts.keys(), vec![3]);
    assert!(!ghosts.contains(&1));
    ghosts.push(1);
    assert_eq!(ghosts.keys(), vec![3, 1]);
}

#[test]
fn table_put_get_remove() {
    let mut table: EntryTable<&str> = EntryTable::new();
    assert_eq!(table.len(), 0);
    assert!(!table.contains(&1));
    assert!(table.get(&1).is_none());

    table.put(Entry::new(1, "one"));
    table.put(Entry::new(2, "two"));
    table.put(Entry::new(3, "three"));
    assert_eq!(table.len(), 3);
    for (k, v) in [(1u64, "one"), (2, "two"), (3, "three")] {
        assert!(table.contains(&k));
        let entry = table.get(&k).unwrap();
        assert_eq!(entry.key, k);
        assert_eq!(entry.value, v);
        assert_eq!(entry.freq, 0);
    }
    assert!(!table.contains(&4));

    // Removing the first entry moves the last one into its place.
    let removed = table.remove(&1).unwrap();
    assert_eq!((removed.key, removed.value), (1, "one"));
    assert_eq!(table.len(), 2);
    assert!(!table.contains(&1));
    assert_eq!(table.get(&3).unwrap().value, "three");
    assert_eq!(table.get(&2).unwrap().value, "two");
    assert!(table.remove(&1).is_none());
    assert_eq!(table.len(), 2);

    // Removing the last entry moves nothing.
    let removed = table.remove(&2).unwrap();
    assert_eq!((removed.key, removed.value), (2, "two"));
    assert_eq!(table.get(&3).unwrap().value, "three");
    let removed = table.remove(&3).unwrap();
    assert_eq!((removed.key, removed.value), (3, "three"));
    assert_eq!(table.len(), 0);
    assert!(table.get(&3).is_none());

    table.put(Entry::new(1, "uno"));
    assert_eq!(table.get(&1).unwrap().value, "uno");
}

#[test]
fn table_set_freq_changes_one_counter() {
    let mut table: EntryTable<i32> = EntryTable::new();
    table.put(Entry::new(1, 10));
    table.put(Entry::new(2, 20));
    table.set_freq(&2, 3);
    assert_eq!(table.get(&2).unwrap().freq, 3);
    assert_eq!(table.get(&2).unwrap().value, 20);
    assert_eq!(table.get(&1).unwrap().freq, 0);
    table.set_freq(&2, 0);
    assert_eq!(table.get(&2).unwrap().freq, 0);
}

#[test]
fn table_bump_counts_reads_up_to_the_limit() {
    let mut table: EntryTable<i32> = EntryTable::new();
    table.put(Entry::new(1, 10));
    table.put(Entry::new(2, 20));
    assert_eq!(table.bump(&3, 3), None);
    for expected in [1u8, 2, 2, 2] {
        assert_eq!(table.bump(&1, 2), Some(&10));
        assert_eq!(table.get(&1).unwrap().freq, expected);
    }
    assert_eq!(table.bump(&1, 3), Some(&10));
    assert_eq!(table.get(&1).unwrap().freq, 3);
    assert_eq!(table.bump(&1, 0), Some(&10));
    assert_eq!(table.get(&1).unwrap().freq, 3);
    assert_eq!(table.get(&2).unwrap().freq, 0);
    assert_eq!(table.len(), 2);
}

#[test]
fn table_holds_many_entries_through_removals() {
    let mut table: EntryTable<u64> = EntryTable::new();
    for k in 0u64..200 {
        table.put(Entry::new(k, k * k));
    }
    for k in (0u64..200).filter(|k| k % 3 == 0) {
        assert_eq!(table.remove(&k).unwrap().value, k * k);
    }
    assert_eq!(table.len(), 200 - 67);
    for k in 0u64..200 {
        if k % 3 == 0 {
            assert!(table.get(&k).is_none());
        } else {
            let entry = table.get(&k).unwrap();
            assert_eq!((entry.key, entry.value), (k, k * k));
        }
    }
}
