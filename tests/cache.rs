use home_back::cache::{ExpiringCache, FOLLOW_CACHE_SECS};

#[test]
fn cached_value_is_found_until_it_expires() {
    let mut c: ExpiringCache<Vec<u32>> = ExpiringCache::new(100);
    c.insert("alice", vec![1, 2], 1000);
    c.clean(1099);
    assert_eq!(c.find("alice"), Some(&vec![1, 2]));
    assert_eq!(c.find("bob"), None);
    c.clean(1100);
    assert_eq!(c.find("alice"), None);
}

#[test]
fn oldest_entry_under_a_key_wins() {
    let mut c: ExpiringCache<u32> = ExpiringCache::new(FOLLOW_CACHE_SECS);
    c.insert("k", 1, 0);
    c.insert("k", 2, 10);
    assert_eq!(c.find("k"), Some(&1));
    c.clean(FOLLOW_CACHE_SECS);
    assert_eq!(c.find("k"), Some(&2));
}

#[test]
fn clock_going_backwards_keeps_entries() {
    let mut c: ExpiringCache<u32> = ExpiringCache::new(5);
    c.insert("k", 1, 100);
    c.clean(3);
    assert_eq!(c.find("k"), Some(&1));
}
