use openclaw_cache::clock::Clock;
use openclaw_cache::Cache;

fn manual_cache() -> Cache {
    Cache::with_clock(Clock::manual(0))
}

#[test]
fn ttl_value_readable_before_expiry_absent_after() {
    let mut c = manual_cache();
    c.set(&"k".to_string(), "v".to_string(), Some(1000));
    assert_eq!(c.get(&"k".to_string()), Some("v".to_string()));
    c.advance_clock(999);
    assert_eq!(c.get(&"k".to_string()), Some("v".to_string()));
    c.advance_clock(2);
    assert_eq!(c.get(&"k".to_string()), None);
}

#[test]
fn ttl_boundary_instant_still_live() {
    // The instant of expiry itself still reads back: expiry is inclusive.
    let mut c = manual_cache();
    c.set(&"k".to_string(), "v".to_string(), Some(500));
    c.advance_clock(500);
    assert_eq!(c.get(&"k".to_string()), Some("v".to_string()));
    c.advance_clock(1);
    assert_eq!(c.get(&"k".to_string()), None);
}

#[test]
fn default_ttl_fallback() {
    let mut c = manual_cache();
    c.set_default_ttl(Some(500));
    c.set(&"a".to_string(), "x".to_string(), None);
    assert_eq!(c.get(&"a".to_string()), Some("x".to_string()));
    c.advance_clock(600);
    assert_eq!(c.get(&"a".to_string()), None);
}

#[test]
fn default_ttl_affects_future_sets_only() {
    let mut c = manual_cache();
    c.set(&"old".to_string(), "1".to_string(), None);
    c.set_default_ttl(Some(100));
    c.set(&"new".to_string(), "2".to_string(), None);
    c.advance_clock(1000);
    assert_eq!(c.get(&"old".to_string()), Some("1".to_string()));
    assert_eq!(c.get(&"new".to_string()), None);
}

#[test]
fn explicit_ttl_overrides_default() {
    let mut c = manual_cache();
    c.set_default_ttl(Some(10));
    c.set(&"a".to_string(), "x".to_string(), Some(1000));
    c.advance_clock(500);
    assert_eq!(c.get(&"a".to_string()), Some("x".to_string()));
}

#[test]
fn no_ttl_never_expires() {
    let mut c = manual_cache();
    c.set(&"a".to_string(), "x".to_string(), None);
    c.advance_clock(u64::MAX / 2);
    assert_eq!(c.get(&"a".to_string()), Some("x".to_string()));
}

#[test]
fn lazy_eviction_on_read_shrinks_size() {
    let mut c = manual_cache();
    c.set(&"a".to_string(), "x".to_string(), Some(100));
    c.advance_clock(200);
    assert_eq!(c.size(), 1);
    assert_eq!(c.get(&"a".to_string()), None);
    assert_eq!(c.size(), 0);
}

#[test]
fn has_shares_get_semantics() {
    let mut c = manual_cache();
    c.set(&"a".to_string(), "x".to_string(), Some(100));
    assert!(c.has(&"a".to_string()));
    c.advance_clock(200);
    assert_eq!(c.size(), 1);
    assert!(!c.has(&"a".to_string()));
    assert_eq!(c.size(), 0);
    assert!(!c.has(&"missing".to_string()));
}

#[test]
fn overwrite_replaces_entry_wholesale() {
    let mut c = manual_cache();
    c.set(&"a".to_string(), "1".to_string(), Some(100));
    c.set(&"a".to_string(), "2".to_string(), None);
    c.advance_clock(1000);
    assert_eq!(c.get(&"a".to_string()), Some("2".to_string()));
    assert_eq!(c.size(), 1);
}

#[test]
fn delete_reports_whether_removed() {
    let mut c = manual_cache();
    c.set(&"a".to_string(), "x".to_string(), None);
    assert!(c.delete(&"a".to_string()));
    assert!(!c.delete(&"a".to_string()));
    assert_eq!(c.get(&"a".to_string()), None);
}

#[test]
fn keys_sweeps_then_lists() {
    let mut c = manual_cache();
    c.set(&"live".to_string(), "1".to_string(), None);
    c.set(&"dead".to_string(), "2".to_string(), Some(50));
    c.advance_clock(100);
    let keys = c.keys();
    assert_eq!(keys, vec!["live".to_string()]);
    assert_eq!(c.size(), 1);
}

#[test]
fn cleanup_expired_removes_exactly_the_expired() {
    let mut c = manual_cache();
    c.set(&"a".to_string(), "1".to_string(), Some(50));
    c.set(&"b".to_string(), "2".to_string(), Some(500));
    c.set(&"c".to_string(), "3".to_string(), None);
    c.advance_clock(100);
    c.cleanup_expired();
    assert_eq!(c.size(), 2);
    assert_eq!(c.get(&"a".to_string()), None);
    assert_eq!(c.get(&"b".to_string()), Some("2".to_string()));
    assert_eq!(c.get(&"c".to_string()), Some("3".to_string()));
}

#[test]
fn clear_is_idempotent_and_total() {
    let mut c = manual_cache();
    c.clear();
    assert_eq!(c.size(), 0);
    assert!(c.keys().is_empty());
    c.set(&"a".to_string(), "x".to_string(), None);
    c.clear();
    assert_eq!(c.size(), 0);
    assert!(c.keys().is_empty());
    c.clear();
    assert_eq!(c.size(), 0);
}

#[test]
fn huge_ttl_saturates_instead_of_overflowing() {
    let mut c = Cache::with_clock(Clock::manual(1000));
    c.set(&"a".to_string(), "x".to_string(), Some(u64::MAX));
    c.advance_clock(u64::MAX - 2000);
    assert_eq!(c.get(&"a".to_string()), Some("x".to_string()));
}

#[test]
fn system_clock_store_basic_roundtrip() {
    let mut c = Cache::new();
    c.set(&"a".to_string(), "x".to_string(), Some(60_000));
    assert_eq!(c.get(&"a".to_string()), Some("x".to_string()));
    assert_eq!(c.get(&"b".to_string()), None);
}
