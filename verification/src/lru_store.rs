//! The capacity-bounded store with recency eviction and a uniform
//! time-to-live.
//!
//! [`TimedCache`] keeps at most `capacity` entries, ordered by recency of
//! access: when an insert would exceed the capacity, the least recently used
//! entry is evicted, coldest first, with no regard to how close any entry is
//! to expiry. Independently of that order, every entry expires `ttl`
//! milliseconds after it was inserted; an expired entry met by a read is
//! removed on the spot and reported absent. The recency bookkeeping is done
//! by `lru::LruCache`; its operations are relied upon here with contracts
//! stating what its source shows, and everything around them is verified
//! against those contracts.
//!
//! The model of the store is its recency sequence: pairs of key and (value,
//! insertion time), least recently used first, most recently used last.

use vstd::prelude::*;

use crate::assoc::{assoc_view, distinct_keys, has_key, key_index, lemma_assoc_at, lemma_assoc_remove};
use crate::clock::Clock;
use crate::ttl_store::opt_str_view;

verus! {

#[verifier::external_type_specification]
#[verifier::external_body]
#[verifier::reject_recursive_types(K)]
#[verifier::reject_recursive_types(V)]
#[verifier::reject_recursive_types(S)]
pub struct ExLruCache<K, V, S>(lru::LruCache<K, V, S>);

/// What an `lru::LruCache` of string keys and (value, insertion time)
/// payloads holds: its entries in recency order, least recently used first.
pub uninterp spec fn lru_entries(c: lru::LruCache<String, (String, u64)>) -> Seq<
    (Seq<char>, (Seq<char>, u64)),
>;

/// The fixed capacity an `lru::LruCache` was constructed with.
pub uninterp spec fn lru_capacity(c: lru::LruCache<String, (String, u64)>) -> nat;

/// The view of one stored payload.
pub open spec fn pair_model(p: (String, u64)) -> (Seq<char>, u64) {
    (p.0@, p.1)
}

/// The recency sequence after a `put` of `(k, v)`: an existing key is
/// rebound and moves to the most recently used end; a fresh key lands there
/// too, evicting the least recently used entry first when the cache is full.
pub open spec fn spec_put(
    s: Seq<(Seq<char>, (Seq<char>, u64))>,
    cap: nat,
    k: Seq<char>,
    v: (Seq<char>, u64),
) -> Seq<(Seq<char>, (Seq<char>, u64))> {
    if has_key(s, k) {
        s.remove(key_index(s, k)).push((k, v))
    } else if s.len() == cap {
        s.drop_first().push((k, v))
    } else {
        s.push((k, v))
    }
}

/// The recency sequence after a hit on `k`: the entry keeps its payload and
/// becomes the most recently used.
pub open spec fn spec_touch(s: Seq<(Seq<char>, (Seq<char>, u64))>, k: Seq<char>) -> Seq<
    (Seq<char>, (Seq<char>, u64)),
> {
    if has_key(s, k) {
        s.remove(key_index(s, k)).push(s[key_index(s, k)])
    } else {
        s
    }
}

/// The recency sequence after `k`'s entry, if any, is dropped; the order of
/// the others is unchanged.
pub open spec fn spec_drop_key(s: Seq<(Seq<char>, (Seq<char>, u64))>, k: Seq<char>) -> Seq<
    (Seq<char>, (Seq<char>, u64)),
> {
    if has_key(s, k) {
        s.remove(key_index(s, k))
    } else {
        s
    }
}

/// An entry inserted at `inserted_at` is live at `now` when less than
/// `ttl_ms` milliseconds have passed since its insertion.
pub open spec fn lru_entry_live(inserted_at: u64, ttl_ms: u64, now: u64) -> bool {
    now - inserted_at < ttl_ms
}

/// What a read of `k` at time `now` returns: the stored value when the key
/// is present and its entry still live, absence otherwise.
pub open spec fn spec_lru_lookup(
    s: Seq<(Seq<char>, (Seq<char>, u64))>,
    k: Seq<char>,
    ttl_ms: u64,
    now: u64,
) -> Option<Seq<char>> {
    if has_key(s, k) && lru_entry_live(s[key_index(s, k)].1.1, ttl_ms, now) {
        Some(s[key_index(s, k)].1.0)
    } else {
        None
    }
}

/// The recency sequence after a read of `k` at time `now`: a live hit is
/// promoted to most recently used, an expired hit is removed without
/// counting as a use, and a miss changes nothing.
pub open spec fn spec_lru_after_get(
    s: Seq<(Seq<char>, (Seq<char>, u64))>,
    k: Seq<char>,
    ttl_ms: u64,
    now: u64,
) -> Seq<(Seq<char>, (Seq<char>, u64))> {
    if has_key(s, k) {
        if lru_entry_live(s[key_index(s, k)].1.1, ttl_ms, now) {
            spec_touch(s, k)
        } else {
            s.remove(key_index(s, k))
        }
    } else {
        s
    }
}

/// Relies on `lru::LruCache::new`: a fresh cache with the given capacity
/// holds nothing.
#[verifier::external_body]
fn lru_new(cap: usize) -> (c: lru::LruCache<String, (String, u64)>)
    requires
        1 <= cap,
    ensures
        lru_entries(c) == Seq::<(Seq<char>, (Seq<char>, u64))>::empty(),
        lru_capacity(c) == cap as nat,
{
    lru::LruCache::new(std::num::NonZeroUsize::new(cap).unwrap())
}

/// Relies on `lru::LruCache::put`: an existing key is rebound, moves to the
/// most recently used end and its old value comes back; a fresh key is
/// inserted there, evicting the least recently used entry first when the
/// cache is full, and nothing comes back.
#[verifier::external_body]
fn lru_put(c: &mut lru::LruCache<String, (String, u64)>, k: String, v: (String, u64)) -> (r: Option<
    (String, u64),
>)
    ensures
        lru_capacity(*final(c)) == lru_capacity(*old(c)),
        lru_entries(*final(c)) == spec_put(
            lru_entries(*old(c)),
            lru_capacity(*old(c)),
            k@,
            pair_model(v),
        ),
        has_key(lru_entries(*old(c)), k@) ==> (r matches Some(p) && pair_model(p) == lru_entries(
            *old(c),
        )[key_index(lru_entries(*old(c)), k@)].1),
        !has_key(lru_entries(*old(c)), k@) ==> r is None,
{
    c.put(k, v)
}

/// Relies on `lru::LruCache::get`: a hit hands the stored value back and
/// makes the key the most recently used; a miss changes nothing.
#[verifier::external_body]
fn lru_get(c: &mut lru::LruCache<String, (String, u64)>, k: &String) -> (r: Option<(String, u64)>)
    ensures
        lru_capacity(*final(c)) == lru_capacity(*old(c)),
        lru_entries(*final(c)) == spec_touch(lru_entries(*old(c)), k@),
        has_key(lru_entries(*old(c)), k@) ==> (r matches Some(p) && pair_model(p) == lru_entries(
            *old(c),
        )[key_index(lru_entries(*old(c)), k@)].1),
        !has_key(lru_entries(*old(c)), k@) ==> r is None,
{
    c.get(k).cloned()
}

/// Relies on `lru::LruCache::pop`: removes the key's entry, if any, and
/// hands its value back; the order of the other entries is unchanged.
#[verifier::external_body]
fn lru_pop(c: &mut lru::LruCache<String, (String, u64)>, k: &String) -> (r: Option<(String, u64)>)
    ensures
        lru_capacity(*final(c)) == lru_capacity(*old(c)),
        lru_entries(*final(c)) == spec_drop_key(lru_entries(*old(c)), k@),
        has_key(lru_entries(*old(c)), k@) ==> (r matches Some(p) && pair_model(p) == lru_entries(
            *old(c),
        )[key_index(lru_entries(*old(c)), k@)].1),
        !has_key(lru_entries(*old(c)), k@) ==> r is None,
{
    c.pop(k)
}

/// Relies on `lru::LruCache::len`: the number of entries held.
#[verifier::external_body]
fn lru_len(c: &lru::LruCache<String, (String, u64)>) -> (r: usize)
    ensures
        r == lru_entries(*c).len(),
{
    c.len()
}

/// Relies on `lru::LruCache::clear`: removes every entry.
#[verifier::external_body]
fn lru_clear(c: &mut lru::LruCache<String, (String, u64)>)
    ensures
        lru_capacity(*final(c)) == lru_capacity(*old(c)),
        lru_entries(*final(c)) == Seq::<(Seq<char>, (Seq<char>, u64))>::empty(),
{
    c.clear()
}

/// A capacity-bounded map with least-recently-used eviction and one fixed
/// time-to-live for every entry. Expiry cleanup is purely lazy: only a read
/// of a key can notice and remove its expired entry, so `len` may count
/// entries that are logically expired but not yet read.
pub struct TimedCache {
    inner: lru::LruCache<String, (String, u64)>,
    ttl_ms: u64,
    clock: Clock,
}

impl View for TimedCache {
    type V = Seq<(Seq<char>, (Seq<char>, u64))>;

    closed spec fn view(&self) -> Seq<(Seq<char>, (Seq<char>, u64))> {
        lru_entries(self.inner)
    }
}

impl TimedCache {
    /// The fixed capacity.
    pub closed spec fn capacity(&self) -> nat {
        lru_capacity(self.inner)
    }

    /// The fixed time-to-live in milliseconds.
    pub closed spec fn ttl(&self) -> u64 {
        self.ttl_ms
    }

    /// The latest reading of the store's clock, in milliseconds.
    pub closed spec fn time(&self) -> u64 {
        self.clock@
    }

    /// Whether the store's clock is caller-driven.
    pub closed spec fn has_manual_clock(&self) -> bool {
        self.clock.is_manual()
    }

    /// The store's internal invariant: a positive capacity that the entry
    /// count never exceeds, keys stored once each, and no entry inserted
    /// later than the clock's latest reading.
    pub closed spec fn wf(&self) -> bool {
        &&& 1 <= self.capacity()
        &&& self@.len() <= self.capacity()
        &&& distinct_keys(self@)
        &&& forall|j: int| 0 <= j < self@.len() ==> #[trigger] self@[j].1.1 <= self.time()
    }

    /// An empty store around the given clock. A zero capacity is a misuse
    /// and is replaced by a default of 100; the time-to-live is taken in
    /// whole seconds and applied uniformly to every entry.
    pub fn with_clock(capacity: u32, ttl_seconds: u32, clock: Clock) -> (c: TimedCache)
        ensures
            c.wf(),
            c@ == Seq::<(Seq<char>, (Seq<char>, u64))>::empty(),
            c.capacity() == (if capacity == 0 { 100 as nat } else { capacity as nat }),
            c.ttl() == ttl_seconds as u64 * 1000,
            c.time() == clock@,
            c.has_manual_clock() == clock.is_manual(),
    {
        let cap: usize = if capacity == 0 {
            100
        } else {
            capacity as usize
        };
        TimedCache { inner: lru_new(cap), ttl_ms: (ttl_seconds as u64) * 1000, clock }
    }

    /// An empty store that follows the process monotonic clock.
    pub fn new(capacity: u32, ttl_seconds: u32) -> (c: TimedCache)
        ensures
            c.wf(),
            c@ == Seq::<(Seq<char>, (Seq<char>, u64))>::empty(),
            c.capacity() == (if capacity == 0 { 100 as nat } else { capacity as nat }),
            c.ttl() == ttl_seconds as u64 * 1000,
            c.time() == 0,
            !c.has_manual_clock(),
    {
        TimedCache::with_clock(capacity, ttl_seconds, Clock::system())
    }

    /// Move the store's clock forward by `ms` milliseconds.
    pub fn advance_clock(&mut self, ms: u64)
        requires
            old(self).time() + ms <= u64::MAX,
        ensures
            final(self)@ == old(self)@,
            final(self).capacity() == old(self).capacity(),
            final(self).ttl() == old(self).ttl(),
            final(self).time() == old(self).time() + ms,
            final(self).has_manual_clock() == old(self).has_manual_clock(),
            old(self).wf() ==> final(self).wf(),
    {
        self.clock.advance(ms);
        proof {
            assert(self.inner == old(self).inner);
            assert(self@ == old(self)@);
        }
    }

    /// Insert or overwrite `key` with a fresh insertion time, making it the
    /// most recently used; when this would exceed the capacity, the least
    /// recently used entry is evicted first, with no regard to expiry.
    pub fn set(&mut self, key: &String, value: String)
        requires
            old(self).wf(),
        ensures
            final(self).wf(),
            final(self)@ == spec_put(
                old(self)@,
                old(self).capacity(),
                key@,
                (value@, final(self).time()),
            ),
            final(self).capacity() == old(self).capacity(),
            final(self).ttl() == old(self).ttl(),
            old(self).time() <= final(self).time(),
            final(self).has_manual_clock() == old(self).has_manual_clock(),
            old(self).has_manual_clock() ==> final(self).time() == old(self).time(),
    {
        let now = self.clock.now();
        proof {
            assert(self@ == old(self)@);
        }
        let ghost s = self@;
        lru_put(&mut self.inner, key.clone(), (value, now));
        proof {
            let t = self@;
            assert(t == spec_put(s, old(self).capacity(), key@, (value@, now)));
            if has_key(s, key@) {
                let i = key_index(s, key@);
                assert(0 <= i < s.len() && s[i].0 == key@);
                lemma_assoc_remove(s, i);
                assert(!assoc_view(s.remove(i)).dom().contains(key@));
                assert(distinct_keys(s.remove(i)));
                assert forall|a: int, b: int| 0 <= a < b < t.len() implies t[a].0 != t[b].0 by {
                    if b < t.len() - 1 {
                        assert(t[a] == s.remove(i)[a] && t[b] == s.remove(i)[b]);
                    } else {
                        assert(t[a] == s.remove(i)[a]);
                        if t[a].0 == key@ {
                            assert(has_key(s.remove(i), key@));
                        }
                    }
                }
            } else if s.len() == old(self).capacity() {
                let s1 = s.drop_first();
                assert(s1 =~= s.remove(0));
                lemma_assoc_remove(s, 0);
                assert(distinct_keys(s1));
                assert forall|a: int, b: int| 0 <= a < b < t.len() implies t[a].0 != t[b].0 by {
                    if b < t.len() - 1 {
                        assert(t[a] == s1[a] && t[b] == s1[b]);
                    } else {
                        assert(t[a] == s1[a]);
                        if t[a].0 == key@ {
                            assert(s1[a] == s[a + 1]);
                            assert(has_key(s, key@));
                        }
                    }
                }
            } else {
                assert forall|a: int, b: int| 0 <= a < b < t.len() implies t[a].0 != t[b].0 by {
                    if b < t.len() - 1 {
                        assert(t[a] == s[a] && t[b] == s[b]);
                    } else {
                        assert(t[a] == s[a]);
                        if t[a].0 == key@ {
                            assert(has_key(s, key@));
                        }
                    }
                }
            }
            assert forall|j: int| 0 <= j < t.len() implies #[trigger] t[j].1.1 <= self.time() by {
                if has_key(s, key@) {
                    let i = key_index(s, key@);
                    if j < t.len() - 1 {
                        assert(t[j] == s.remove(i)[j]);
                        assert(s.remove(i)[j] == (if j < i {
                            s[j]
                        } else {
                            s[j + 1]
                        }));
                    }
                } else if s.len() == old(self).capacity() {
                    if j < t.len() - 1 {
                        assert(t[j] == s.drop_first()[j]);
                        assert(s.drop_first()[j] == s[j + 1]);
                    }
                } else {
                    if j < t.len() - 1 {
                        assert(t[j] == s[j]);
                    }
                }
            }
        }
    }

    /// Read `key`: its value when present and live, which also makes the key
    /// the most recently used. An expired entry is removed on the spot
    /// without counting as a use, and a miss changes nothing.
    pub fn get(&mut self, key: &String) -> (r: Option<String>)
        requires
            old(self).wf(),
        ensures
            final(self).wf(),
            opt_str_view(r) == spec_lru_lookup(
                old(self)@,
                key@,
                old(self).ttl(),
                final(self).time(),
            ),
            final(self)@ == spec_lru_after_get(
                old(self)@,
                key@,
                old(self).ttl(),
                final(self).time(),
            ),
            final(self).capacity() == old(self).capacity(),
            final(self).ttl() == old(self).ttl(),
            old(self).time() <= final(self).time(),
            final(self).has_manual_clock() == old(self).has_manual_clock(),
            old(self).has_manual_clock() ==> final(self).time() == old(self).time(),
    {
        let now = self.clock.now();
        proof {
            assert(self@ == old(self)@);
        }
        let ghost s = self@;
        match lru_get(&mut self.inner, key) {
            Some(p) => {
                proof {
                    let i = key_index(s, key@);
                    assert(0 <= i < s.len() && s[i].0 == key@);
                    assert(s[i].1.1 <= old(self).time());
                    lemma_assoc_remove(s, i);
                    assert(!assoc_view(s.remove(i)).dom().contains(key@));
                    assert(distinct_keys(spec_touch(s, key@))) by {
                        let t = spec_touch(s, key@);
                        assert forall|a: int, b: int| 0 <= a < b < t.len() implies t[a].0
                            != t[b].0 by {
                            if b < t.len() - 1 {
                                assert(t[a] == s.remove(i)[a] && t[b] == s.remove(i)[b]);
                            } else {
                                assert(t[a] == s.remove(i)[a]);
                                if t[a].0 == key@ {
                                    assert(has_key(s.remove(i), key@));
                                }
                            }
                        }
                    }
                }
                let (v, at) = p;
                if now - at < self.ttl_ms {
                    proof {
                        let t = spec_touch(s, key@);
                        assert forall|j: int| 0 <= j < t.len() implies #[trigger] t[j].1.1
                            <= self.time() by {
                            let i = key_index(s, key@);
                            if j < t.len() - 1 {
                                assert(t[j] == s.remove(i)[j]);
                                assert(s.remove(i)[j] == (if j < i {
                                    s[j]
                                } else {
                                    s[j + 1]
                                }));
                            } else {
                                assert(t[j] == s[i]);
                            }
                        }
                    }
                    Some(v)
                } else {
                    let ghost t = spec_touch(s, key@);
                    proof {
                        let i = key_index(s, key@);
                        lemma_assoc_at(t, t.len() - 1);
                        assert(key_index(t, key@) == t.len() - 1);
                        assert(t.remove(t.len() - 1) =~= s.remove(i));
                        assert(distinct_keys(s.remove(i)));
                        assert forall|j: int| 0 <= j < s.remove(i).len()
                            implies #[trigger] s.remove(i)[j].1.1 <= self.time() by {
                            assert(s.remove(i)[j] == (if j < i {
                                s[j]
                            } else {
                                s[j + 1]
                            }));
                        }
                    }
                    lru_pop(&mut self.inner, key);
                    None
                }
            },
            None => {
                None
            },
        }
    }

    /// The number of entries physically held, expired-but-unread ones
    /// included.
    pub fn len(&self) -> (r: usize)
        ensures
            r == self@.len(),
    {
        lru_len(&self.inner)
    }

    /// Remove all entries. The capacity, time-to-live and clock stay.
    pub fn clear(&mut self)
        requires
            old(self).wf(),
        ensures
            final(self).wf(),
            final(self)@ == Seq::<(Seq<char>, (Seq<char>, u64))>::empty(),
            final(self).capacity() == old(self).capacity(),
            final(self).ttl() == old(self).ttl(),
            final(self).time() == old(self).time(),
            final(self).has_manual_clock() == old(self).has_manual_clock(),
    {
        lru_clear(&mut self.inner);
    }
}

} // verus!
