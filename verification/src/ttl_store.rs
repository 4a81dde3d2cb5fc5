//! The unbounded store with per-entry expiry.
//!
//! [`Cache`] maps string keys to entries that each carry an optional expiry
//! timestamp. An entry whose expiry has passed is never returned: a read that
//! meets one removes it (lazy eviction), and `keys` and `cleanup_expired`
//! sweep all of them out at once. An optional default time-to-live applies to
//! `set` calls that give none of their own.

use vstd::prelude::*;

use crate::assoc::{
    assoc_view, distinct_keys, find_key_index, has_key, key_index, lemma_assoc_at,
    lemma_assoc_empty, lemma_assoc_len, lemma_assoc_push, lemma_assoc_remove,
};
use crate::clock::Clock;

verus! {

/// The mathematical content of one stored entry.
pub ghost struct EntryModel {
    pub value: Seq<char>,
    pub created_at: u64,
    pub expires_at: Option<u64>,
}

struct Entry {
    value: String,
    created_at: u64,
    expires_at: Option<u64>,
}

impl View for Entry {
    type V = EntryModel;

    closed spec fn view(&self) -> EntryModel {
        EntryModel {
            value: self.value@,
            created_at: self.created_at,
            expires_at: self.expires_at,
        }
    }
}

/// An entry's expiry, if any, is not before its creation.
pub open spec fn entry_wf(e: EntryModel) -> bool {
    match e.expires_at {
        Some(t) => e.created_at <= t,
        None => true,
    }
}

/// An entry is live at `now` when it has no expiry or its expiry has not yet
/// passed; the instant of expiry itself still counts as live.
pub open spec fn entry_live(e: EntryModel, now: u64) -> bool {
    match e.expires_at {
        Some(t) => now <= t,
        None => true,
    }
}

/// The expiry a `set` call gives a fresh entry: `now` plus the explicit
/// time-to-live if one is given, else `now` plus the store default if one is
/// set, else none; the sum saturates at the largest representable timestamp.
pub open spec fn effective_expiry(ttl_ms: Option<u64>, default_ttl: Option<u64>, now: u64) -> Option<
    u64,
> {
    match ttl_ms {
        Some(ms) => Some(now.saturating_add(ms)),
        None => match default_ttl {
            Some(ms) => Some(now.saturating_add(ms)),
            None => None,
        },
    }
}

/// The mapping after `set(k, v, ttl_ms)` performed at time `now` under
/// default time-to-live `default_ttl`: the key is bound to a fresh entry,
/// wholesale, whatever was there before.
pub open spec fn spec_set(
    m: Map<Seq<char>, EntryModel>,
    k: Seq<char>,
    v: Seq<char>,
    ttl_ms: Option<u64>,
    default_ttl: Option<u64>,
    now: u64,
) -> Map<Seq<char>, EntryModel> {
    m.insert(
        k,
        EntryModel { value: v, created_at: now, expires_at: effective_expiry(ttl_ms, default_ttl, now) },
    )
}

/// What a read of `k` at time `now` returns: the stored value when the key
/// is present and live, absence otherwise.
pub open spec fn spec_lookup(m: Map<Seq<char>, EntryModel>, k: Seq<char>, now: u64) -> Option<
    Seq<char>,
> {
    if m.dom().contains(k) && entry_live(m[k], now) {
        Some(m[k].value)
    } else {
        None
    }
}

/// The mapping after a read of `k` at time `now`: a present-but-expired
/// entry is removed as a side effect, anything else is left alone.
pub open spec fn spec_after_get(m: Map<Seq<char>, EntryModel>, k: Seq<char>, now: u64) -> Map<
    Seq<char>,
    EntryModel,
> {
    if m.dom().contains(k) && !entry_live(m[k], now) {
        m.remove(k)
    } else {
        m
    }
}

/// The mapping after a full sweep at time `now`: exactly the live entries.
pub open spec fn spec_swept(m: Map<Seq<char>, EntryModel>, now: u64) -> Map<
    Seq<char>,
    EntryModel,
> {
    Map::new(|k: Seq<char>| m.dom().contains(k) && entry_live(m[k], now), |k: Seq<char>| m[k])
}

/// The view of an optional owned string.
pub open spec fn opt_str_view(r: Option<String>) -> Option<Seq<char>> {
    match r {
        Some(s) => Some(s@),
        None => None,
    }
}

/// An unbounded map from string keys to individually expiring entries, with
/// lazy eviction on read and an explicit sweep.
pub struct Cache {
    entries: Vec<(String, Entry)>,
    default_ttl: Option<u64>,
    clock: Clock,
}

impl View for Cache {
    type V = Map<Seq<char>, EntryModel>;

    closed spec fn view(&self) -> Map<Seq<char>, EntryModel> {
        assoc_view(self.model_seq())
    }
}

impl Cache {
    spec fn model_seq(&self) -> Seq<(Seq<char>, EntryModel)> {
        self.entries@.map_values(|p: (String, Entry)| (p.0@, p.1@))
    }

    /// The fallback time-to-live in milliseconds applied by `set` calls that
    /// give none of their own.
    pub closed spec fn default_ttl_opt(&self) -> Option<u64> {
        self.default_ttl
    }

    /// The latest reading of the store's clock, in milliseconds.
    pub closed spec fn time(&self) -> u64 {
        self.clock@
    }

    /// Whether the store's clock is caller-driven.
    pub closed spec fn has_manual_clock(&self) -> bool {
        self.clock.is_manual()
    }

    /// The store's internal invariant: keys are stored once each, and every
    /// entry is well formed.
    pub closed spec fn wf(&self) -> bool {
        &&& distinct_keys(self.model_seq())
        &&& forall|k: Seq<char>| #[trigger] self@.dom().contains(k) ==> entry_wf(self@[k])
    }

    /// An empty store around the given clock.
    pub fn with_clock(clock: Clock) -> (c: Cache)
        ensures
            c.wf(),
            c@ == Map::<Seq<char>, EntryModel>::empty(),
            c.default_ttl_opt() is None,
            c.time() == clock@,
            c.has_manual_clock() == clock.is_manual(),
    {
        let c = Cache { entries: Vec::new(), default_ttl: None, clock };
        proof {
            lemma_assoc_empty(c.model_seq());
        }
        c
    }

    /// An empty store that follows the process monotonic clock.
    pub fn new() -> (c: Cache)
        ensures
            c.wf(),
            c@ == Map::<Seq<char>, EntryModel>::empty(),
            c.default_ttl_opt() is None,
            c.time() == 0,
            !c.has_manual_clock(),
    {
        Cache::with_clock(Clock::system())
    }

    /// Move the store's clock forward by `ms` milliseconds.
    pub fn advance_clock(&mut self, ms: u64)
        requires
            old(self).time() + ms <= u64::MAX,
        ensures
            final(self)@ == old(self)@,
            final(self).default_ttl_opt() == old(self).default_ttl_opt(),
            final(self).time() == old(self).time() + ms,
            final(self).has_manual_clock() == old(self).has_manual_clock(),
            old(self).wf() ==> final(self).wf(),
    {
        self.clock.advance(ms);
        proof {
            assert(self.model_seq() == old(self).model_seq());
            assert(self@ == old(self)@);
        }
    }

    /// Replace the fallback time-to-live applied to future `set` calls that
    /// give no explicit one. Existing entries are not affected.
    pub fn set_default_ttl(&mut self, ttl_ms: Option<u64>)
        ensures
            final(self)@ == old(self)@,
            final(self).default_ttl_opt() == ttl_ms,
            final(self).time() == old(self).time(),
            final(self).has_manual_clock() == old(self).has_manual_clock(),
            old(self).wf() ==> final(self).wf(),
    {
        self.default_ttl = ttl_ms;
        proof {
            assert(self.model_seq() == old(self).model_seq());
            assert(self@ == old(self)@);
        }
    }

    /// Insert or overwrite `key`. The fresh entry's expiry is the current
    /// time plus the explicit time-to-live if given, else plus the store
    /// default if set, else none.
    pub fn set(&mut self, key: &String, value: String, ttl_ms: Option<u64>)
        requires
            old(self).wf(),
        ensures
            final(self).wf(),
            final(self)@ == spec_set(
                old(self)@,
                key@,
                value@,
                ttl_ms,
                old(self).default_ttl_opt(),
                final(self).time(),
            ),
            final(self).default_ttl_opt() == old(self).default_ttl_opt(),
            old(self).time() <= final(self).time(),
            final(self).has_manual_clock() == old(self).has_manual_clock(),
            old(self).has_manual_clock() ==> final(self).time() == old(self).time(),
    {
        let now = self.clock.now();
        let expires_at: Option<u64> = match ttl_ms {
            Some(ms) => Some(now.saturating_add(ms)),
            None => match self.default_ttl {
                Some(ms) => Some(now.saturating_add(ms)),
                None => None,
            },
        };
        let entry = Entry { value, created_at: now, expires_at };
        let ghost e = entry@;
        let ghost m0 = self.model_seq();
        proof {
            assert(m0 == old(self).model_seq());
            assert(entry_wf(e));
        }
        match find_key_index(&self.entries, key) {
            Some(i) => {
                proof {
                    assert(m0[i as int].0 == key@);
                    lemma_assoc_at(m0, i as int);
                    lemma_assoc_remove(m0, i as int);
                }
                self.entries.remove(i);
                proof {
                    assert(self.model_seq() =~= m0.remove(i as int));
                    assert(!assoc_view(m0.remove(i as int)).dom().contains(key@));
                    lemma_assoc_push(m0.remove(i as int), key@, e);
                }
                self.entries.push((key.clone(), entry));
                proof {
                    assert(self.model_seq() =~= m0.remove(i as int).push((key@, e)));
                    assert(self@ =~= assoc_view(m0).insert(key@, e));
                }
            },
            None => {
                proof {
                    if has_key(m0, key@) {
                        let j = choose|j: int| 0 <= j < m0.len() && m0[j].0 == key@;
                        assert(self.entries@[j].0@ == key@);
                    }
                    lemma_assoc_push(m0, key@, e);
                }
                self.entries.push((key.clone(), entry));
                proof {
                    assert(self.model_seq() =~= m0.push((key@, e)));
                }
            },
        }
        proof {
            assert(self@ == old(self)@.insert(key@, e));
            assert forall|k: Seq<char>| #[trigger] self@.dom().contains(k) implies entry_wf(
                self@[k],
            ) by {
                if k == key@ {
                    assert(self@[k] == e);
                } else {
                    assert(old(self)@.dom().contains(k));
                    assert(self@[k] == old(self)@[k]);
                }
            }
        }
    }

    /// Read `key`: its value when present and live. A present-but-expired
    /// entry is removed before absence is reported.
    pub fn get(&mut self, key: &String) -> (r: Option<String>)
        requires
            old(self).wf(),
        ensures
            final(self).wf(),
            opt_str_view(r) == spec_lookup(old(self)@, key@, final(self).time()),
            final(self)@ == spec_after_get(old(self)@, key@, final(self).time()),
            final(self).default_ttl_opt() == old(self).default_ttl_opt(),
            old(self).time() <= final(self).time(),
            final(self).has_manual_clock() == old(self).has_manual_clock(),
            old(self).has_manual_clock() ==> final(self).time() == old(self).time(),
    {
        let now = self.clock.now();
        let ghost m0 = self.model_seq();
        proof {
            assert(m0 == old(self).model_seq());
        }
        match find_key_index(&self.entries, key) {
            Some(i) => {
                proof {
                    assert(m0[i as int].0 == key@);
                    lemma_assoc_at(m0, i as int);
                }
                let expired = match self.entries[i].1.expires_at {
                    Some(t) => now > t,
                    None => false,
                };
                if expired {
                    proof {
                        lemma_assoc_remove(m0, i as int);
                    }
                    self.entries.remove(i);
                    proof {
                        assert(self.model_seq() =~= m0.remove(i as int));
                        assert(self@ == old(self)@.remove(key@));
                        assert forall|k: Seq<char>| #[trigger] self@.dom().contains(k)
                            implies entry_wf(self@[k]) by {
                            assert(old(self)@.dom().contains(k));
                            assert(self@[k] == old(self)@[k]);
                        }
                    }
                    None
                } else {
                    Some(self.entries[i].1.value.clone())
                }
            },
            None => {
                proof {
                    if has_key(m0, key@) {
                        let j = choose|j: int| 0 <= j < m0.len() && m0[j].0 == key@;
                        assert(self.entries@[j].0@ == key@);
                    }
                }
                None
            },
        }
    }

    /// Whether `key` is present and live; shares `get`'s lazy eviction.
    pub fn has(&mut self, key: &String) -> (r: bool)
        requires
            old(self).wf(),
        ensures
            final(self).wf(),
            r == (spec_lookup(old(self)@, key@, final(self).time()) is Some),
            final(self)@ == spec_after_get(old(self)@, key@, final(self).time()),
            final(self).default_ttl_opt() == old(self).default_ttl_opt(),
            old(self).time() <= final(self).time(),
            final(self).has_manual_clock() == old(self).has_manual_clock(),
            old(self).has_manual_clock() ==> final(self).time() == old(self).time(),
    {
        self.get(key).is_some()
    }

    /// Remove `key` if present; report whether a removal occurred. No clock
    /// is consulted: even an expired entry counts as a removal here.
    pub fn delete(&mut self, key: &String) -> (r: bool)
        requires
            old(self).wf(),
        ensures
            final(self).wf(),
            r == old(self)@.dom().contains(key@),
            final(self)@ == old(self)@.remove(key@),
            final(self).default_ttl_opt() == old(self).default_ttl_opt(),
            final(self).time() == old(self).time(),
            final(self).has_manual_clock() == old(self).has_manual_clock(),
    {
        let ghost m0 = self.model_seq();
        match find_key_index(&self.entries, key) {
            Some(i) => {
                proof {
                    assert(m0[i as int].0 == key@);
                    lemma_assoc_at(m0, i as int);
                    lemma_assoc_remove(m0, i as int);
                }
                self.entries.remove(i);
                proof {
                    assert(self.model_seq() =~= m0.remove(i as int));
                    assert(self@ == old(self)@.remove(key@));
                    assert forall|k: Seq<char>| #[trigger] self@.dom().contains(k)
                        implies entry_wf(self@[k]) by {
                        assert(old(self)@.dom().contains(k));
                        assert(self@[k] == old(self)@[k]);
                    }
                }
                true
            },
            None => {
                proof {
                    if has_key(m0, key@) {
                        let j = choose|j: int| 0 <= j < m0.len() && m0[j].0 == key@;
                        assert(self.entries@[j].0@ == key@);
                    }
                    assert(old(self)@.remove(key@) =~= old(self)@);
                }
                false
            },
        }
    }

    /// Remove every entry whose expiry has passed.
    pub fn cleanup_expired(&mut self)
        requires
            old(self).wf(),
        ensures
            final(self).wf(),
            final(self)@ == spec_swept(old(self)@, final(self).time()),
            final(self).default_ttl_opt() == old(self).default_ttl_opt(),
            old(self).time() <= final(self).time(),
            final(self).has_manual_clock() == old(self).has_manual_clock(),
            old(self).has_manual_clock() ==> final(self).time() == old(self).time(),
    {
        let now = self.clock.now();
        proof {
            assert(self.model_seq() == old(self).model_seq());
            assert(self@ == old(self)@);
        }
        let ghost m0view = self@;
        let ghost snap = *self;
        let mut i: usize = 0;
        while i < self.entries.len()
            invariant
                i <= self.entries@.len(),
                self.default_ttl == snap.default_ttl,
                self.clock == snap.clock,
                now == snap.clock@,
                self.wf(),
                forall|j: int| 0 <= j < i ==> entry_live(#[trigger] self.model_seq()[j].1, now),
                spec_swept(self@, now) == spec_swept(m0view, now),
            decreases self.entries@.len() - i,
        {
            let ghost m = self.model_seq();
            let expired = match self.entries[i].1.expires_at {
                Some(t) => now > t,
                None => false,
            };
            if expired {
                proof {
                    lemma_assoc_at(m, i as int);
                    lemma_assoc_remove(m, i as int);
                }
                self.entries.remove(i);
                proof {
                    assert(self.model_seq() =~= m.remove(i as int));
                    assert forall|k: Seq<char>| #[trigger] self@.dom().contains(k)
                        implies entry_wf(self@[k]) by {
                        assert(assoc_view(m).dom().contains(k));
                        assert(self@[k] == assoc_view(m)[k]);
                    }
                    assert(spec_swept(assoc_view(m).remove(m[i as int].0), now) =~= spec_swept(
                        assoc_view(m),
                        now,
                    ));
                    assert forall|j: int| 0 <= j < i implies entry_live(
                        #[trigger] self.model_seq()[j].1,
                        now,
                    ) by {
                        assert(self.model_seq()[j] == m[j]);
                    }
                }
            } else {
                i = i + 1;
            }
        }
        proof {
            let m = self.model_seq();
            assert forall|k: Seq<char>| #[trigger] self@.dom().contains(k) implies entry_live(
                self@[k],
                now,
            ) by {
                let j = key_index(m, k);
                assert(0 <= j < m.len() && m[j].0 == k);
                lemma_assoc_at(m, j);
            }
            assert(spec_swept(self@, now) =~= self@);
        }
    }

    /// Sweep out every expired entry, then hand back all remaining keys:
    /// what comes out is never stale.
    pub fn keys(&mut self) -> (r: Vec<String>)
        requires
            old(self).wf(),
        ensures
            final(self).wf(),
            final(self)@ == spec_swept(old(self)@, final(self).time()),
            r@.len() == final(self)@.dom().len(),
            forall|i: int| 0 <= i < r@.len() ==> final(self)@.dom().contains(#[trigger] r@[i]@),
            forall|k: Seq<char>|
                #[trigger] final(self)@.dom().contains(k) ==> exists|i: int|
                    0 <= i < r@.len() && r@[i]@ == k,
            final(self).default_ttl_opt() == old(self).default_ttl_opt(),
            old(self).time() <= final(self).time(),
            final(self).has_manual_clock() == old(self).has_manual_clock(),
            old(self).has_manual_clock() ==> final(self).time() == old(self).time(),
    {
        self.cleanup_expired();
        let ghost snap = *self;
        let mut r: Vec<String> = Vec::new();
        let mut i: usize = 0;
        while i < self.entries.len()
            invariant
                i <= self.entries@.len(),
                *self == snap,
                r@.len() == i,
                forall|j: int| 0 <= j < i ==> #[trigger] r@[j]@ == self.model_seq()[j].0,
            decreases self.entries@.len() - i,
        {
            r.push(self.entries[i].0.clone());
            i = i + 1;
        }
        proof {
            let m = self.model_seq();
            lemma_assoc_len(m);
            assert forall|j: int| 0 <= j < r@.len() implies self@.dom().contains(
                #[trigger] r@[j]@,
            ) by {
                lemma_assoc_at(m, j);
            }
            assert forall|k: Seq<char>| #[trigger] self@.dom().contains(k) implies exists|j: int|
                0 <= j < r@.len() && r@[j]@ == k by {
                let j = key_index(m, k);
                assert(0 <= j < m.len() && m[j].0 == k);
                assert(r@[j]@ == k);
            }
        }
        r
    }

    /// Remove all entries. The default time-to-live and the clock stay.
    pub fn clear(&mut self)
        ensures
            final(self).wf(),
            final(self)@ == Map::<Seq<char>, EntryModel>::empty(),
            final(self).default_ttl_opt() == old(self).default_ttl_opt(),
            final(self).time() == old(self).time(),
            final(self).has_manual_clock() == old(self).has_manual_clock(),
    {
        self.entries.clear();
        proof {
            lemma_assoc_empty(self.model_seq());
        }
    }

    /// The number of entries physically stored, expired ones that no access
    /// has swept yet included.
    pub fn size(&self) -> (r: usize)
        requires
            self.wf(),
        ensures
            r == self@.dom().len(),
    {
        proof {
            lemma_assoc_len(self.model_seq());
        }
        self.entries.len()
    }
}

} // verus!
