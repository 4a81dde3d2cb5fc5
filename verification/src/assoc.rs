//! Association sequences: the mathematical model behind the stores.
//!
//! Each store keeps its entries as a sequence of key-value pairs whose keys
//! are pairwise distinct, and every contract is stated against the finite map
//! that such a sequence stands for. For the recency-ordered store the
//! position in the sequence additionally encodes eviction order, so the
//! sequence itself, not only the derived map, appears in its contracts.

use vstd::prelude::*;

verus! {

/// No key occurs twice in the sequence.
pub open spec fn distinct_keys<V>(s: Seq<(Seq<char>, V)>) -> bool {
    forall|i: int, j: int| 0 <= i < j < s.len() ==> s[i].0 != s[j].0
}

/// Some pair in the sequence carries the key `k`.
pub open spec fn has_key<V>(s: Seq<(Seq<char>, V)>, k: Seq<char>) -> bool {
    exists|i: int| 0 <= i < s.len() && s[i].0 == k
}

/// The position of the pair carrying `k`; meaningful only under
/// `distinct_keys` and `has_key`.
pub open spec fn key_index<V>(s: Seq<(Seq<char>, V)>, k: Seq<char>) -> int {
    choose|i: int| 0 <= i < s.len() && s[i].0 == k
}

/// The finite map an association sequence stands for.
pub open spec fn assoc_view<V>(s: Seq<(Seq<char>, V)>) -> Map<Seq<char>, V> {
    Map::new(|k: Seq<char>| has_key(s, k), |k: Seq<char>| s[key_index(s, k)].1)
}

/// With distinct keys, the pair at position `i` is exactly what the derived
/// map holds for that pair's key.
pub proof fn lemma_assoc_at<V>(s: Seq<(Seq<char>, V)>, i: int)
    requires
        distinct_keys(s),
        0 <= i < s.len(),
    ensures
        has_key(s, s[i].0),
        key_index(s, s[i].0) == i,
        assoc_view(s).dom().contains(s[i].0),
        assoc_view(s)[s[i].0] == s[i].1,
{
    assert(has_key(s, s[i].0));
    let j = key_index(s, s[i].0);
    assert(0 <= j < s.len() && s[j].0 == s[i].0);
    if i < j {
        assert(s[i].0 != s[j].0);
    } else if j < i {
        assert(s[j].0 != s[i].0);
    }
}

/// Appending a pair with a fresh key inserts it into the derived map.
pub proof fn lemma_assoc_push<V>(s: Seq<(Seq<char>, V)>, k: Seq<char>, v: V)
    requires
        distinct_keys(s),
        !has_key(s, k),
    ensures
        distinct_keys(s.push((k, v))),
        assoc_view(s.push((k, v))) == assoc_view(s).insert(k, v),
{
    let t = s.push((k, v));
    assert forall|i: int, j: int| 0 <= i < j < t.len() implies t[i].0 != t[j].0 by {
        if j == s.len() {
            assert(t[i] == s[i]);
            assert(!(0 <= i < s.len() && s[i].0 == k));
        } else {
            assert(t[i] == s[i] && t[j] == s[j]);
        }
    }
    assert forall|q: Seq<char>| #[trigger] has_key(t, q) <==> has_key(s, q) || q == k by {
        if has_key(t, q) {
            let i = choose|i: int| 0 <= i < t.len() && t[i].0 == q;
            if i < s.len() {
                assert(s[i] == t[i]);
                assert(has_key(s, q));
            } else {
                assert(t[i].0 == k);
            }
        }
        if has_key(s, q) {
            let i = choose|i: int| 0 <= i < s.len() && s[i].0 == q;
            assert(t[i] == s[i]);
            assert(has_key(t, q));
        }
        if q == k {
            assert(t[s.len() as int].0 == k);
            assert(has_key(t, q));
        }
    }
    assert forall|q: Seq<char>| #[trigger] has_key(t, q) implies assoc_view(t)[q] == assoc_view(
        s,
    ).insert(k, v)[q] by {
        let i = key_index(t, q);
        assert(0 <= i < t.len() && t[i].0 == q);
        lemma_assoc_at(t, i);
        if q == k {
            if i < s.len() {
                assert(s[i] == t[i]);
                assert(has_key(s, k));
            }
            assert(t[i].1 == v);
        } else {
            assert(i < s.len());
            assert(s[i] == t[i]);
            lemma_assoc_at(s, i);
        }
    }
    assert(assoc_view(t) =~= assoc_view(s).insert(k, v));
}

/// Removing the pair at position `i` removes its key from the derived map.
pub proof fn lemma_assoc_remove<V>(s: Seq<(Seq<char>, V)>, i: int)
    requires
        distinct_keys(s),
        0 <= i < s.len(),
    ensures
        distinct_keys(s.remove(i)),
        assoc_view(s.remove(i)) == assoc_view(s).remove(s[i].0),
{
    let t = s.remove(i);
    s.remove_ensures(i);
    assert forall|a: int, b: int| 0 <= a < b < t.len() implies t[a].0 != t[b].0 by {
        let a0: int = if a < i {
            a
        } else {
            a + 1
        };
        let b0: int = if b < i {
            b
        } else {
            b + 1
        };
        assert(t[a] == s[a0] && t[b] == s[b0]);
    }
    assert forall|q: Seq<char>| #[trigger] has_key(t, q) <==> (has_key(s, q) && q != s[i].0) by {
        if has_key(t, q) {
            let a = choose|a: int| 0 <= a < t.len() && t[a].0 == q;
            let a0: int = if a < i {
                a
            } else {
                a + 1
            };
            assert(t[a] == s[a0]);
            assert(has_key(s, q));
            lemma_assoc_at(s, a0);
            lemma_assoc_at(s, i);
            assert(q != s[i].0);
        }
        if has_key(s, q) && q != s[i].0 {
            let a0 = choose|a0: int| 0 <= a0 < s.len() && s[a0].0 == q;
            let a: int = if a0 < i {
                a0
            } else {
                a0 - 1
            };
            assert(a0 != i);
            assert(t[a] == s[a0]);
            assert(has_key(t, q));
        }
    }
    assert forall|q: Seq<char>| #[trigger] has_key(t, q) implies assoc_view(t)[q] == assoc_view(
        s,
    ).remove(s[i].0)[q] by {
        let a = key_index(t, q);
        assert(0 <= a < t.len() && t[a].0 == q);
        lemma_assoc_at(t, a);
        let a0: int = if a < i {
            a
        } else {
            a + 1
        };
        assert(t[a] == s[a0]);
        lemma_assoc_at(s, a0);
    }
    assert(assoc_view(t) =~= assoc_view(s).remove(s[i].0));
}

/// With distinct keys, the derived map is finite and exactly as large as the
/// sequence.
pub proof fn lemma_assoc_len<V>(s: Seq<(Seq<char>, V)>)
    requires
        distinct_keys(s),
    ensures
        assoc_view(s).dom().finite(),
        assoc_view(s).dom().len() == s.len(),
    decreases s.len(),
{
    if s.len() == 0 {
        assert forall|q: Seq<char>| !(#[trigger] has_key(s, q)) by {
            if has_key(s, q) {
                let i = choose|i: int| 0 <= i < s.len() && s[i].0 == q;
            }
        }
        assert(assoc_view(s).dom() =~= Set::<Seq<char>>::empty());
    } else {
        let s0 = s.drop_last();
        let last = s.last();
        assert forall|i: int, j: int| 0 <= i < j < s0.len() implies s0[i].0 != s0[j].0 by {
            assert(s0[i] == s[i] && s0[j] == s[j]);
        }
        assert forall|i: int| 0 <= i < s0.len() implies s0[i].0 != last.0 by {
            assert(s0[i] == s[i]);
            assert(s[i].0 != s[s.len() - 1].0);
        }
        if has_key(s0, last.0) {
            let i = choose|i: int| 0 <= i < s0.len() && s0[i].0 == last.0;
            assert(false);
        }
        lemma_assoc_len(s0);
        lemma_assoc_push(s0, last.0, last.1);
        assert(s0.push(last) =~= s);
        assert(assoc_view(s).dom() =~= assoc_view(s0).dom().insert(last.0));
        assert(!assoc_view(s0).dom().contains(last.0));
    }
}

/// Linear search for `key` among the pairs' keys.
pub fn find_key_index<V>(entries: &Vec<(String, V)>, key: &String) -> (r: Option<usize>)
    ensures
        match r {
            Some(i) => i < entries@.len() && entries@[i as int].0@ == key@,
            None => forall|i: int| 0 <= i < entries@.len() ==> entries@[i].0@ != key@,
        },
{
    let mut i: usize = 0;
    while i < entries.len()
        invariant
            i <= entries@.len(),
            forall|j: int| 0 <= j < i ==> entries@[j].0@ != key@,
        decreases entries@.len() - i,
    {
        if entries[i].0.eq(key) {
            return Some(i);
        }
        i = i + 1;
    }
    None
}

/// An empty association sequence stands for the empty map.
pub proof fn lemma_assoc_empty<V>(s: Seq<(Seq<char>, V)>)
    requires
        s.len() == 0,
    ensures
        assoc_view(s) == Map::<Seq<char>, V>::empty(),
{
    assert forall|q: Seq<char>| !(#[trigger] has_key(s, q)) by {
        if has_key(s, q) {
            let i = choose|i: int| 0 <= i < s.len() && s[i].0 == q;
        }
    }
    assert(assoc_view(s) =~= Map::<Seq<char>, V>::empty());
}

} // verus!
