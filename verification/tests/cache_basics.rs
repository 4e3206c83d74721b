use rand::{thread_rng, Rng};
use s3fifo::Cache;
use std::cell::Cell;
use std::fmt::Debug;
use std::rc::Rc;

/// Keys are `u64`: a short name stands for the number that its bytes spell.
fn key(name: &str) -> u64 {
    assert!(name.len() <= 8);
    name.bytes().fold(0u64, |acc, byte| acc * 256 + u64::from(byte))
}

fn assert_opt_eq<V: PartialEq + Debug>(opt: Option<&V>, v: V) {
    assert!(opt.is_some());
    assert_eq!(opt.unwrap(), &v);
}

#[derive(Debug, Clone)]
struct DropCounter(Rc<Cell<usize>>);

impl Drop for DropCounter {
    fn drop(&mut self) {
        self.0.set(self.0.get() + 1);
    }
}

#[test]
fn test_push_and_read() {
    let mut cache = Cache::new(2);

    cache.insert(key("apple"), "red");
    assert_opt_eq(cache.get(&key("apple")), "red");
    cache.insert(key("banana"), "yellow");
    assert_opt_eq(cache.get(&key("apple")), "red");
    assert_opt_eq(cache.get(&key("banana")), "yellow");
}

#[test]
fn test_push_removes_oldest() {
    let mut cache = Cache::new(2);

    let fruits = vec![
        ("apple", "red"),
        ("banana", "yellow"),
        ("orange", "orange"),
        ("pear", "green"),
        ("peach", "pink"),
    ];

    for (fruit, color) in fruits {
        cache.insert(key(fruit), color);
    }

    assert!(cache.get(&key("apple")).is_none());
    assert_opt_eq(cache.get(&key("peach")), "pink");

    // "apple" should have been removed from the cache.
    cache.insert(key("apple"), "red");
    cache.get(&key("apple"));
    cache.insert(key("banana"), "yellow");

    assert_opt_eq(cache.get(&key("apple")), "red");
    assert_opt_eq(cache.get(&key("banana")), "yellow");
}

#[test]
fn test_rng_criterion() {
    let mut rng = thread_rng();
    let nums: Vec<u64> = (0..(100000 * 2))
        .map(|i| {
            if i % 2 == 0 {
                rng.gen::<u64>() % 16384
            } else {
                rng.gen::<u64>() % 32768
            }
        })
        .collect();
    let mut l = Cache::new(8192);
    (0..99999).for_each(|v| {
        let k = nums[v];
        l.insert(k, k);
    });
}

#[test]
fn test_no_memory_leaks() {
    let drop_count = Rc::new(Cell::new(0usize));

    let n: usize = 100;
    for _ in 0..n {
        let mut cache = Cache::new(20);
        for i in 0..n {
            cache.insert(i as u64, DropCounter(Rc::clone(&drop_count)));
        }
    }
    assert_eq!(drop_count.get(), n * n);
}

#[test]
fn names_spell_distinct_keys() {
    let names = ["apple", "banana", "orange", "pear", "peach"];
    for (i, a) in names.iter().enumerate() {
        for b in names.iter().skip(i + 1) {
            assert_ne!(key(a), key(b));
        }
    }
    assert_eq!(key("a"), 97);
    assert_eq!(key("ab"), 97 * 256 + 98);
}
