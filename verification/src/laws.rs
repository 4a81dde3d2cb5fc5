//! Store-spanning laws, each proved against the model-step functions that
//! the stores' own contracts are stated over.

use vstd::prelude::*;

use crate::assoc::{distinct_keys, has_key, key_index, lemma_assoc_at, lemma_assoc_remove, assoc_view};
use crate::lru_store::{lru_entry_live, spec_lru_after_get, spec_lru_lookup, spec_put};
use crate::ttl_store::{
    entry_live, spec_after_get, spec_lookup, spec_set, EntryModel,
};

verus! {

/// Time-to-live correctness: a value set with an explicit time-to-live `d`
/// at time `t0` reads back at any time before `t0 + d` and is absent at any
/// time after it, whatever the store held before and whatever default is in
/// force.
pub proof fn lemma_ttl_correctness(
    m: Map<Seq<char>, EntryModel>,
    default_ttl: Option<u64>,
    k: Seq<char>,
    v: Seq<char>,
    d: u64,
    t0: u64,
    t: u64,
)
    requires
        t0 + d <= u64::MAX,
    ensures
        t < t0 + d ==> spec_lookup(spec_set(m, k, v, Some(d), default_ttl, t0), k, t) == Some(v),
        t > t0 + d ==> spec_lookup(spec_set(m, k, v, Some(d), default_ttl, t0), k, t) is None,
{
}

/// Default time-to-live fallback: a `set` that gives no time-to-live of its
/// own expires by the store default exactly as an explicit one would.
pub proof fn lemma_default_ttl_fallback(
    m: Map<Seq<char>, EntryModel>,
    k: Seq<char>,
    v: Seq<char>,
    d: u64,
    t0: u64,
    t: u64,
)
    requires
        t0 + d <= u64::MAX,
    ensures
        spec_set(m, k, v, None, Some(d), t0) == spec_set(m, k, v, Some(d), None, t0),
        t < t0 + d ==> spec_lookup(spec_set(m, k, v, None, Some(d), t0), k, t) == Some(v),
        t > t0 + d ==> spec_lookup(spec_set(m, k, v, None, Some(d), t0), k, t) is None,
{
}

/// Lazy eviction: one read of an expired key both reports absence and
/// shrinks the stored count by one, with no separate sweep.
pub proof fn lemma_lazy_eviction(m: Map<Seq<char>, EntryModel>, k: Seq<char>, now: u64)
    requires
        m.dom().finite(),
        m.dom().contains(k),
        !entry_live(m[k], now),
    ensures
        spec_lookup(m, k, now) is None,
        !spec_after_get(m, k, now).dom().contains(k),
        spec_after_get(m, k, now).dom().len() == m.dom().len() - 1,
{
    assert(spec_after_get(m, k, now).dom() =~= m.dom().remove(k));
}

/// Independence of distinct keys: a `set` of one key reads and rereads
/// another key exactly as before, and a read of one key never disturbs
/// another key's entry. Under the store's exclusive-access discipline this
/// is what makes writers on disjoint keys observe their own writes.
pub proof fn lemma_disjoint_keys_frame(
    m: Map<Seq<char>, EntryModel>,
    k1: Seq<char>,
    k2: Seq<char>,
    v: Seq<char>,
    ttl_ms: Option<u64>,
    default_ttl: Option<u64>,
    t0: u64,
    t: u64,
)
    requires
        k1 != k2,
    ensures
        spec_lookup(spec_set(m, k1, v, ttl_ms, default_ttl, t0), k2, t) == spec_lookup(m, k2, t),
        spec_lookup(spec_after_get(m, k1, t0), k2, t) == spec_lookup(m, k2, t),
        spec_after_get(m, k1, t0).dom().contains(k2) == m.dom().contains(k2),
{
}

/// Least-recently-used eviction order: a fresh key put into a full cache
/// evicts exactly the coldest entry; every warmer entry survives, and the
/// new key is present.
pub proof fn lemma_lru_evicts_coldest(
    s: Seq<(Seq<char>, (Seq<char>, u64))>,
    cap: nat,
    k: Seq<char>,
    v: (Seq<char>, u64),
)
    requires
        distinct_keys(s),
        !has_key(s, k),
        s.len() == cap,
        0 < cap,
    ensures
        !has_key(spec_put(s, cap, k, v), s[0].0),
        forall|j: int| 1 <= j < s.len() ==> has_key(spec_put(s, cap, k, v), #[trigger] s[j].0),
        has_key(spec_put(s, cap, k, v), k),
{
    let t = spec_put(s, cap, k, v);
    assert(t == s.drop_first().push((k, v)));
    if has_key(t, s[0].0) {
        let i = choose|i: int| 0 <= i < t.len() && t[i].0 == s[0].0;
        if i < t.len() - 1 {
            assert(t[i] == s[i + 1]);
            assert(s[0].0 != s[i + 1].0);
        } else {
            assert(t[i].0 == k);
            assert(has_key(s, k));
        }
    }
    assert forall|j: int| 1 <= j < s.len() implies has_key(t, #[trigger] s[j].0) by {
        assert(t[j - 1] == s[j]);
    }
    assert(t[t.len() - 1].0 == k);
}

/// Expiry beats capacity: a read of an expired key in the bounded store
/// reports absence and removes the entry, however far below capacity the
/// store is.
pub proof fn lemma_lru_expired_read(
    s: Seq<(Seq<char>, (Seq<char>, u64))>,
    k: Seq<char>,
    ttl_ms: u64,
    now: u64,
)
    requires
        distinct_keys(s),
        has_key(s, k),
        !lru_entry_live(s[key_index(s, k)].1.1, ttl_ms, now),
    ensures
        spec_lru_lookup(s, k, ttl_ms, now) is None,
        !has_key(spec_lru_after_get(s, k, ttl_ms, now), k),
        spec_lru_after_get(s, k, ttl_ms, now).len() == s.len() - 1,
{
    let i = key_index(s, k);
    assert(0 <= i < s.len() && s[i].0 == k);
    lemma_assoc_remove(s, i);
    if has_key(s.remove(i), k) {
        assert(assoc_view(s.remove(i)).dom().contains(k));
        lemma_assoc_at(s, i);
    }
}

} // verus!
