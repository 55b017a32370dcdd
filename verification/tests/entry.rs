use cachex::entry::{Clock, Entry};

#[test]
fn entry_without_ttl_never_expires() {
    let clock = Clock::new();
    let entry = Entry::new(b"Jill".to_vec(), None, clock.now_ns());
    assert!(!entry.is_expired(clock.now_ns()));
    assert!(entry.ttl_remaining(clock.now_ns()).is_none());
    assert_eq!(entry.size, 4);
}

#[test]
fn entry_with_ttl_expires() {
    let clock = Clock::new();
    let entry = Entry::new(b"otp".to_vec(), Some(0), clock.now_ns());
    assert!(entry.is_expired(clock.now_ns()));
}

#[test]
fn touch_refreshes_last_access() {
    let mut entry = Entry::new(b"x".to_vec(), None, 10);
    let before = entry.last_access;
    entry.touch(20);
    assert!(entry.last_access > before);
}

#[test]
fn ttl_counts_down_and_stops_at_zero() {
    let entry = Entry::new(b"v".to_vec(), Some(2), 1_000);
    assert_eq!(entry.ttl_remaining(1_000), Some(2_000_000_000));
    assert_eq!(entry.ttl_remaining(1_500_001_000), Some(500_000_000));
    assert!(!entry.is_expired(2_000_000_999));
    assert!(entry.is_expired(2_000_001_000));
    assert_eq!(entry.ttl_remaining(5_000_000_000), Some(0));
}
