use s3fifo::Cache;
use std::sync::{Arc, Mutex};

fn can_cross_threads<T: Send>(_: &T) {}

#[test]
fn cache_behind_a_lock_can_cross_threads() {
    let cache = Arc::new(Mutex::new(Cache::new(2)));
    can_cross_threads(&cache);
    for i in 0..1000u64 {
        let i_cache = Arc::clone(&cache);
        i_cache.lock().unwrap().insert(i, i);
        let g_cache = Arc::clone(&cache);
        assert_eq!(g_cache.lock().unwrap().get(&i), Some(&i));
    }
    assert!(cache.lock().unwrap().len() <= 2);
}
