use cachex::storage::{entry_size, CacheStore};

const VAL: &[u8] = b"0123456789";

#[test]
fn set_get_delete() {
    let mut store = CacheStore::new(1_000_000);
    store.set("a", VAL.to_vec(), None);
    assert_eq!(store.get("a").0, Some(VAL.to_vec()));
    assert_eq!(store.get("missing").0, None);
    assert!(store.delete("a"));
    assert!(!store.delete("a"));
    assert_eq!(store.get("a").0, None);
    assert_eq!(store.key_count(), 0);
}

#[test]
fn overwrite_replaces_value() {
    let mut store = CacheStore::new(1_000_000);
    store.set("a", b"one".to_vec(), None);
    store.set("a", b"two".to_vec(), None);
    assert_eq!(store.get("a").0, Some(b"two".to_vec()));
    assert_eq!(store.key_count(), 1);
}

#[test]
fn lru_evicts_least_recently_used() {
    let mut store = CacheStore::new(150);
    store.set("a", VAL.to_vec(), None);
    store.set("b", VAL.to_vec(), None);
    store.set("c", VAL.to_vec(), None);
    assert_eq!(store.get("a").0, None, "a is LRU and must be evicted");
    assert_eq!(store.get("b").0, Some(VAL.to_vec()));
    assert_eq!(store.get("c").0, Some(VAL.to_vec()));
    assert_eq!(store.eviction_count(), 1);
    assert_eq!(store.key_count(), 2);
}

#[test]
fn touch_prevents_eviction() {
    let mut store = CacheStore::new(150);
    store.set("a", VAL.to_vec(), None);
    store.set("b", VAL.to_vec(), None);
    store.get("a");
    store.set("c", VAL.to_vec(), None);
    assert_eq!(store.get("b").0, None, "b is LRU after a was touched");
    assert_eq!(store.get("a").0, Some(VAL.to_vec()));
    assert_eq!(store.get("c").0, Some(VAL.to_vec()));
}

#[test]
fn delete_keeps_lru_order_consistent() {
    let mut store = CacheStore::new(150);
    store.set("a", VAL.to_vec(), None);
    store.set("b", VAL.to_vec(), None);
    store.set("c", VAL.to_vec(), None);
    store.delete("b");
    store.set("d", VAL.to_vec(), None);
    assert_eq!(store.get("a").0, None, "a was already evicted");
    assert_eq!(store.get("b").0, None, "b was deleted");
    assert_eq!(store.get("c").0, Some(VAL.to_vec()), "c must survive");
    assert_eq!(store.get("d").0, Some(VAL.to_vec()));
    assert_eq!(store.eviction_count(), 1);
    assert_eq!(store.key_count(), 2);
}

#[test]
fn ttl_expires_lazily_on_get() {
    let mut store = CacheStore::new(1_000_000);
    store.set("otp", b"1234".to_vec(), Some(0));
    let (value, expired) = store.get("otp");
    assert!(value.is_none());
    assert!(expired);
    assert_eq!(store.ttl_expiration_count(), 1);
    assert_eq!(store.key_count(), 0);
}

#[test]
fn ttl_still_valid_within_window() {
    let mut store = CacheStore::new(1_000_000);
    store.set("k", b"v".to_vec(), Some(60));
    assert_eq!(store.get("k").0, Some(b"v".to_vec()));
    assert_eq!(store.ttl_expiration_count(), 0);
}

#[test]
fn purge_expired_removes_expired_only() {
    let mut store = CacheStore::new(1_000_000);
    store.set("x", b"1".to_vec(), Some(0));
    store.set("y", b"2".to_vec(), None);
    assert_eq!(store.purge_expired(), 1);
    assert_eq!(store.key_count(), 1);
    assert_eq!(store.get("x").0, None);
    assert_eq!(store.get("y").0, Some(b"2".to_vec()));
}

#[test]
fn memory_usage_accounted() {
    let mut store = CacheStore::new(1_000_000);
    store.set("a", VAL.to_vec(), None);
    assert_eq!(store.memory_usage(), entry_size("a", VAL.len()));
    store.delete("a");
    assert_eq!(store.memory_usage(), 0);
}

#[test]
fn read_your_write_at_explicit_times() {
    let mut store = CacheStore::new(1_000);
    store.set_at("k", b"v".to_vec(), Some(1), 100);
    assert_eq!(store.get_at("k", 100 + 999_999_999), (Some(b"v".to_vec()), false));
    assert_eq!(store.get_at("k", 100 + 1_000_000_000), (None, true));
    assert_eq!(store.ttl_expiration_count(), 1);
}

#[test]
fn entry_larger_than_cap_is_evicted_with_everything() {
    let mut store = CacheStore::new(70);
    store.set_at("a", b"x".to_vec(), None, 0);
    assert_eq!(store.key_count(), 1);
    store.set_at("b", vec![0u8; 10], None, 0);
    assert_eq!(store.key_count(), 0);
    assert_eq!(store.eviction_count(), 2);
    assert_eq!(store.memory_usage(), 0);
}

#[test]
fn snapshot_lists_keys_oldest_first_with_remaining_ttl() {
    let mut store = CacheStore::new(1_000_000);
    store.set_at("a", b"1".to_vec(), Some(10), 0);
    store.set_at("b", b"2".to_vec(), None, 0);
    store.get_at("a", 1_000_000_000);
    let snap = store.snapshot_at(2_500_000_000);
    assert_eq!(snap, vec![
        ("b".to_string(), b"2".to_vec(), None),
        ("a".to_string(), b"1".to_vec(), Some(7)),
    ]);
    assert_eq!(store.stats(), (2, store.memory_usage(), 1_000_000));
    assert_eq!(store.max_memory(), 1_000_000);
}

#[test]
fn purge_at_counts_expirations() {
    let mut store = CacheStore::new(1_000_000);
    store.set_at("x", b"1".to_vec(), Some(1), 0);
    store.set_at("y", b"2".to_vec(), Some(5), 0);
    assert_eq!(store.purge_expired_at(2_000_000_000), 1);
    assert_eq!(store.ttl_expiration_count(), 1);
    assert_eq!(store.key_count(), 1);
}

#[test]
fn writes_fit_within_the_byte_count() {
    let store = CacheStore::new(1_000);
    assert!(store.fits("key", 10));
    assert!(store.fits("key", usize::MAX - 100));
    assert!(!store.fits("key", usize::MAX));
}

#[test]
fn zero_ttl_is_gone_on_the_next_read() {
    let mut store = CacheStore::new(1_000_000);
    store.set("k", b"v".to_vec(), Some(0));
    let (value, expired) = store.get("k");
    assert_eq!(value, None);
    assert!(expired);
    assert_eq!(store.ttl_expiration_count(), 1);
}

#[test]
fn lifetime_ends_exactly_at_expiry() {
    let mut store = CacheStore::new(1_000_000);
    store.set_at("k", b"v".to_vec(), Some(2), 10);
    assert_eq!(store.get_at("k", 2_000_000_009).0, Some(b"v".to_vec()));
    assert_eq!(store.get_at("k", 2_000_000_010), (None, true));
}
