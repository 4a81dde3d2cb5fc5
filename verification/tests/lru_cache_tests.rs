use openclaw_cache::clock::Clock;
use openclaw_cache::TimedCache;

fn manual_lru(capacity: u32, ttl_seconds: u32) -> TimedCache {
    TimedCache::with_clock(capacity, ttl_seconds, Clock::manual(0))
}

#[test]
fn lru_eviction_order() {
    let mut c = manual_lru(2, 3600);
    c.set(&"a".to_string(), "1".to_string());
    c.set(&"b".to_string(), "2".to_string());
    assert_eq!(c.get(&"a".to_string()), Some("1".to_string()));
    c.set(&"c".to_string(), "3".to_string());
    assert_eq!(c.get(&"b".to_string()), None);
    assert_eq!(c.get(&"a".to_string()), Some("1".to_string()));
    assert_eq!(c.get(&"c".to_string()), Some("3".to_string()));
    assert_eq!(c.len(), 2);
}

#[test]
fn set_refreshes_recency() {
    let mut c = manual_lru(2, 3600);
    c.set(&"a".to_string(), "1".to_string());
    c.set(&"b".to_string(), "2".to_string());
    c.set(&"a".to_string(), "1b".to_string());
    c.set(&"c".to_string(), "3".to_string());
    assert_eq!(c.get(&"b".to_string()), None);
    assert_eq!(c.get(&"a".to_string()), Some("1b".to_string()));
    assert_eq!(c.get(&"c".to_string()), Some("3".to_string()));
}

#[test]
fn ttl_beats_capacity() {
    let mut c = manual_lru(10, 1);
    c.set(&"a".to_string(), "1".to_string());
    c.advance_clock(1500);
    assert_eq!(c.len(), 1);
    assert_eq!(c.get(&"a".to_string()), None);
    assert_eq!(c.len(), 0);
}

#[test]
fn fresh_read_within_ttl() {
    let mut c = manual_lru(10, 1);
    c.set(&"a".to_string(), "1".to_string());
    c.advance_clock(999);
    assert_eq!(c.get(&"a".to_string()), Some("1".to_string()));
    c.advance_clock(1);
    assert_eq!(c.get(&"a".to_string()), None);
}

#[test]
fn eviction_ignores_expiry_of_warm_entries() {
    // The coldest entry is evicted even when a warmer one is nearer expiry.
    let mut c = manual_lru(2, 10);
    c.set(&"cold".to_string(), "1".to_string());
    c.advance_clock(5000);
    c.set(&"warm".to_string(), "2".to_string());
    c.set(&"new".to_string(), "3".to_string());
    assert_eq!(c.get(&"cold".to_string()), None);
    assert_eq!(c.get(&"warm".to_string()), Some("2".to_string()));
    assert_eq!(c.get(&"new".to_string()), Some("3".to_string()));
}

#[test]
fn zero_capacity_replaced_by_default_of_100() {
    let mut c = manual_lru(0, 3600);
    for i in 0..101u32 {
        c.set(&format!("key-{}", i), format!("value-{}", i));
    }
    assert_eq!(c.len(), 100);
    assert_eq!(c.get(&"key-0".to_string()), None);
    assert_eq!(c.get(&"key-100".to_string()), Some("value-100".to_string()));
}

#[test]
fn overwrite_resets_insertion_time() {
    let mut c = manual_lru(10, 1);
    c.set(&"a".to_string(), "1".to_string());
    c.advance_clock(800);
    c.set(&"a".to_string(), "2".to_string());
    c.advance_clock(800);
    assert_eq!(c.get(&"a".to_string()), Some("2".to_string()));
}

#[test]
fn lru_clear_empties_the_store() {
    let mut c = manual_lru(4, 3600);
    c.set(&"a".to_string(), "1".to_string());
    c.set(&"b".to_string(), "2".to_string());
    c.clear();
    assert_eq!(c.len(), 0);
    assert_eq!(c.get(&"a".to_string()), None);
    c.set(&"c".to_string(), "3".to_string());
    assert_eq!(c.get(&"c".to_string()), Some("3".to_string()));
}

#[test]
fn miss_does_not_disturb_order() {
    let mut c = manual_lru(2, 3600);
    c.set(&"a".to_string(), "1".to_string());
    c.set(&"b".to_string(), "2".to_string());
    assert_eq!(c.get(&"missing".to_string()), None);
    c.set(&"c".to_string(), "3".to_string());
    assert_eq!(c.get(&"a".to_string()), None);
    assert_eq!(c.get(&"b".to_string()), Some("2".to_string()));
}

#[test]
fn system_clock_lru_basic_roundtrip() {
    let mut c = TimedCache::new(4, 3600);
    c.set(&"a".to_string(), "1".to_string());
    assert_eq!(c.get(&"a".to_string()), Some("1".to_string()));
    assert_eq!(c.get(&"b".to_string()), None);
    assert_eq!(c.len(), 1);
}
