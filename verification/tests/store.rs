//! Tests of the key-value store: lazy expiry at the boundary,
//! idempotent reads, and overwrites.

use resp_kv::cache::{Cache, CacheItem};

fn k(s: &str) -> Vec<u8> {
    s.as_bytes().to_vec()
}

#[test]
fn set_then_get_returns_value() {
    let mut cache = Cache::new();
    cache.set(&k("foo"), &k("bar"), &None, 0);
    assert_eq!(cache.get(&k("foo"), 0), Some(k("bar")));
}

#[test]
fn get_missing_key_is_absent() {
    let cache = Cache::new();
    assert_eq!(cache.get(&k("missingkey"), 0), None);
}

#[test]
fn ttl_boundary() {
    // A key set with a 100 ms time-to-live answers at 99 ms elapsed
    // (and at the deadline itself) and is absent at 101 ms.
    let mut cache = Cache::new();
    cache.set(&k("k"), &k("v"), &Some(100), 0);
    assert_eq!(cache.get(&k("k"), 99), Some(k("v")));
    assert_eq!(cache.get(&k("k"), 100), Some(k("v")));
    assert_eq!(cache.get(&k("k"), 101), None);
}

#[test]
fn get_is_idempotent_on_live_keys() {
    let mut cache = Cache::new();
    cache.set(&k("k"), &k("v"), &Some(100), 0);
    let first = cache.get(&k("k"), 50);
    let second = cache.get(&k("k"), 50);
    assert_eq!(first, Some(k("v")));
    assert_eq!(first, second);
}

#[test]
fn overwrite_replaces_value_and_ttl() {
    // SET k v1, then SET k v2 with a 50 ms time-to-live: the read sees
    // v2, and the new time-to-live is in effect, not the old (absent)
    // one.
    let mut cache = Cache::new();
    cache.set(&k("k"), &k("v1"), &None, 0);
    cache.set(&k("k"), &k("v2"), &Some(50), 10);
    assert_eq!(cache.get(&k("k"), 10), Some(k("v2")));
    assert_eq!(cache.get(&k("k"), 60), Some(k("v2")));
    assert_eq!(cache.get(&k("k"), 61), None);
}

#[test]
fn expired_then_overwritten_is_live_again() {
    let mut cache = Cache::new();
    cache.set(&k("k"), &k("v1"), &Some(10), 0);
    assert_eq!(cache.get(&k("k"), 100), None);
    cache.set(&k("k"), &k("v2"), &None, 100);
    assert_eq!(cache.get(&k("k"), 5000), Some(k("v2")));
}

#[test]
fn distinct_keys_do_not_collide() {
    let mut cache = Cache::new();
    cache.set(&k("a"), &k("1"), &None, 0);
    cache.set(&k("b"), &k("2"), &None, 0);
    assert_eq!(cache.get(&k("a"), 0), Some(k("1")));
    assert_eq!(cache.get(&k("b"), 0), Some(k("2")));
}

#[test]
fn item_expiry_rule() {
    let item = CacheItem::new(&k("v"), &Some(100), 0);
    assert!(!item.is_expired(0));
    assert!(!item.is_expired(100));
    assert!(item.is_expired(101));
    let forever = CacheItem::new(&k("v"), &None, 0);
    assert!(!forever.is_expired(u64::MAX));
}
