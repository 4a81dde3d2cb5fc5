//! A family of keyed in-memory stores that combine time-based expiry,
//! bounded-capacity eviction, and per-group history truncation.
//!
//! Three store variants share one model: [`Cache`] is an unbounded map whose
//! entries expire individually, [`TimedCache`] is a capacity-bounded map with
//! recency-based eviction and a uniform time-to-live, and
//! [`GroupHistoryCache`] keeps a bounded, arrival-ordered log per group key.
//! All of them consult a [`Clock`] so that expiry is decided from an explicit
//! timestamp rather than an ambient system call.

use vstd::prelude::*;

pub mod assoc;
pub mod clock;
pub mod history;
pub mod laws;
pub mod lru_store;
pub mod ttl_store;

verus! {

pub use clock::Clock;
pub use history::GroupHistoryCache;
pub use history::HistoryEntry;
pub use lru_store::TimedCache;
pub use ttl_store::Cache;

} // verus!
