use openclaw_cache::{GroupHistoryCache, HistoryEntry};

fn entry(timestamp: u32, content: &str) -> HistoryEntry {
    HistoryEntry { timestamp, content: content.to_string() }
}

#[test]
fn history_bound_is_fifo() {
    let mut c = GroupHistoryCache::new(3);
    c.add(&"g".to_string(), entry(1, "E1"));
    c.add(&"g".to_string(), entry(2, "E2"));
    c.add(&"g".to_string(), entry(3, "E3"));
    c.add(&"g".to_string(), entry(4, "E4"));
    let h = c.get(&"g".to_string());
    assert_eq!(h.len(), 3);
    assert_eq!(h[0].content, "E2");
    assert_eq!(h[1].content, "E3");
    assert_eq!(h[2].content, "E4");
}

#[test]
fn unknown_group_reads_empty() {
    let c = GroupHistoryCache::new(3);
    let h = c.get(&"nobody".to_string());
    assert!(h.is_empty());
}

#[test]
fn arrival_order_kept_even_against_timestamps() {
    let mut c = GroupHistoryCache::new(10);
    c.add(&"g".to_string(), entry(30, "first arrival"));
    c.add(&"g".to_string(), entry(10, "second arrival"));
    let h = c.get(&"g".to_string());
    assert_eq!(h[0].timestamp, 30);
    assert_eq!(h[1].timestamp, 10);
}

#[test]
fn single_add_drops_at_most_one() {
    let mut c = GroupHistoryCache::new(1);
    c.add(&"g".to_string(), entry(1, "a"));
    c.add(&"g".to_string(), entry(2, "b"));
    let h = c.get(&"g".to_string());
    assert_eq!(h.len(), 1);
    assert_eq!(h[0].content, "b");
}

#[test]
fn zero_bound_keeps_nothing() {
    let mut c = GroupHistoryCache::new(0);
    c.add(&"g".to_string(), entry(1, "a"));
    assert!(c.get(&"g".to_string()).is_empty());
}

#[test]
fn groups_are_independent() {
    let mut c = GroupHistoryCache::new(2);
    c.add(&"g1".to_string(), entry(1, "a"));
    c.add(&"g2".to_string(), entry(2, "b"));
    c.add(&"g2".to_string(), entry(3, "c"));
    c.add(&"g2".to_string(), entry(4, "d"));
    assert_eq!(c.get(&"g1".to_string()).len(), 1);
    let g2 = c.get(&"g2".to_string());
    assert_eq!(g2.len(), 2);
    assert_eq!(g2[0].content, "c");
    assert_eq!(g2[1].content, "d");
}

#[test]
fn clear_group_removes_only_that_group() {
    let mut c = GroupHistoryCache::new(5);
    c.add(&"g1".to_string(), entry(1, "a"));
    c.add(&"g2".to_string(), entry(2, "b"));
    c.clear_group(&"g1".to_string());
    assert!(c.get(&"g1".to_string()).is_empty());
    assert_eq!(c.get(&"g2".to_string()).len(), 1);
    c.clear_group(&"absent".to_string());
    assert_eq!(c.get(&"g2".to_string()).len(), 1);
}
