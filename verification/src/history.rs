//! The per-group bounded history log.
//!
//! [`GroupHistoryCache`] maps a group key to an ordered log of records.
//! Records are appended at the tail in arrival order, whatever their own
//! timestamp field says, and when an append pushes a log past the bound the
//! single oldest record is dropped from the head: first in, first out.

use vstd::prelude::*;

use crate::assoc::{
    assoc_view, distinct_keys, find_key_index, has_key, lemma_assoc_at, lemma_assoc_empty,
    lemma_assoc_push, lemma_assoc_remove,
};

verus! {

/// One history record: a caller-supplied timestamp and an opaque payload.
pub struct HistoryEntry {
    pub timestamp: u32,
    pub content: String,
}

/// The mathematical content of one history record.
pub ghost struct HistoryEntryModel {
    pub timestamp: u32,
    pub content: Seq<char>,
}

impl View for HistoryEntry {
    type V = HistoryEntryModel;

    open spec fn view(&self) -> HistoryEntryModel {
        HistoryEntryModel { timestamp: self.timestamp, content: self.content@ }
    }
}

/// The views of a log's records, in log order.
pub open spec fn hist_view(h: Seq<HistoryEntry>) -> Seq<HistoryEntryModel> {
    h.map_values(|e: HistoryEntry| e@)
}

/// A group's log, where an unknown group reads as the empty log.
pub open spec fn spec_group(
    m: Map<Seq<char>, Seq<HistoryEntryModel>>,
    k: Seq<char>,
) -> Seq<HistoryEntryModel> {
    if m.dom().contains(k) {
        m[k]
    } else {
        Seq::empty()
    }
}

/// A log after one append under bound `max`: the record goes to the tail,
/// and if the log then exceeds the bound, exactly the oldest record leaves.
pub open spec fn spec_append(
    h: Seq<HistoryEntryModel>,
    e: HistoryEntryModel,
    max: int,
) -> Seq<HistoryEntryModel> {
    let grown = h.push(e);
    if grown.len() > max {
        grown.drop_first()
    } else {
        grown
    }
}

/// A map from group keys to bounded, arrival-ordered history logs.
pub struct GroupHistoryCache {
    groups: Vec<(String, Vec<HistoryEntry>)>,
    max_entries_per_group: usize,
}

impl View for GroupHistoryCache {
    type V = Map<Seq<char>, Seq<HistoryEntryModel>>;

    closed spec fn view(&self) -> Map<Seq<char>, Seq<HistoryEntryModel>> {
        assoc_view(self.model_seq())
    }
}

impl GroupHistoryCache {
    spec fn model_seq(&self) -> Seq<(Seq<char>, Seq<HistoryEntryModel>)> {
        self.groups@.map_values(|p: (String, Vec<HistoryEntry>)| (p.0@, hist_view(p.1@)))
    }

    /// The bound every group's log is kept under.
    pub closed spec fn max_entries(&self) -> usize {
        self.max_entries_per_group
    }

    /// The store's internal invariant: each group is stored once, and no log
    /// is longer than the bound.
    pub closed spec fn wf(&self) -> bool {
        &&& distinct_keys(self.model_seq())
        &&& forall|k: Seq<char>| #[trigger] self@.dom().contains(k) ==> self@[k].len()
            <= self.max_entries()
    }

    /// An empty store with the given per-group bound.
    pub fn new(max_entries: u32) -> (c: GroupHistoryCache)
        ensures
            c.wf(),
            c@ == Map::<Seq<char>, Seq<HistoryEntryModel>>::empty(),
            c.max_entries() == max_entries as usize,
    {
        let c = GroupHistoryCache {
            groups: Vec::new(),
            max_entries_per_group: max_entries as usize,
        };
        proof {
            lemma_assoc_empty(c.model_seq());
        }
        c
    }

    /// Append a record to a group's log, creating the log if the group is
    /// new; if the log then exceeds the bound, drop exactly its oldest
    /// record.
    pub fn add(&mut self, group_id: &String, entry: HistoryEntry)
        requires
            old(self).wf(),
        ensures
            final(self).wf(),
            final(self)@ == old(self)@.insert(
                group_id@,
                spec_append(
                    spec_group(old(self)@, group_id@),
                    entry@,
                    old(self).max_entries() as int,
                ),
            ),
            final(self).max_entries() == old(self).max_entries(),
    {
        let ghost m0 = self.model_seq();
        let ghost e = entry@;
        match find_key_index(&self.groups, group_id) {
            Some(i) => {
                proof {
                    assert(m0[i as int].0 == group_id@);
                    lemma_assoc_at(m0, i as int);
                    lemma_assoc_remove(m0, i as int);
                }
                let (g, mut h) = self.groups.remove(i);
                let ghost h0 = hist_view(h@);
                h.push(entry);
                proof {
                    assert(hist_view(h@) =~= h0.push(e));
                }
                if h.len() > self.max_entries_per_group {
                    h.remove(0);
                    proof {
                        assert(hist_view(h@) =~= h0.push(e).drop_first());
                    }
                }
                proof {
                    assert(hist_view(h@) == spec_append(h0, e, self.max_entries_per_group as int));
                    assert(!has_key(m0.remove(i as int), group_id@));
                    lemma_assoc_push(m0.remove(i as int), group_id@, hist_view(h@));
                }
                self.groups.push((g, h));
                proof {
                    assert(self.model_seq() =~= m0.remove(i as int).push((group_id@, hist_view(
                        h@,
                    ))));
                    assert(self@ =~= old(self)@.insert(
                        group_id@,
                        spec_append(
                            spec_group(old(self)@, group_id@),
                            e,
                            old(self).max_entries() as int,
                        ),
                    ));
                    assert forall|k: Seq<char>| #[trigger] self@.dom().contains(k)
                        implies self@[k].len() <= self.max_entries() by {
                        if k != group_id@ {
                            assert(old(self)@.dom().contains(k));
                            assert(self@[k] == old(self)@[k]);
                        }
                    }
                }
            },
            None => {
                proof {
                    if has_key(m0, group_id@) {
                        let j = choose|j: int| 0 <= j < m0.len() && m0[j].0 == group_id@;
                        assert(self.groups@[j].0@ == group_id@);
                    }
                }
                let mut h: Vec<HistoryEntry> = Vec::new();
                let ghost h0 = hist_view(h@);
                proof {
                    assert(h0 =~= Seq::<HistoryEntryModel>::empty());
                }
                h.push(entry);
                proof {
                    assert(hist_view(h@) =~= h0.push(e));
                }
                if h.len() > self.max_entries_per_group {
                    h.remove(0);
                    proof {
                        assert(hist_view(h@) =~= h0.push(e).drop_first());
                    }
                }
                proof {
                    assert(hist_view(h@) == spec_append(h0, e, self.max_entries_per_group as int));
                    lemma_assoc_push(m0, group_id@, hist_view(h@));
                }
                self.groups.push((group_id.clone(), h));
                proof {
                    assert(self.model_seq() =~= m0.push((group_id@, hist_view(h@))));
                    assert(self@ =~= old(self)@.insert(
                        group_id@,
                        spec_append(
                            spec_group(old(self)@, group_id@),
                            e,
                            old(self).max_entries() as int,
                        ),
                    ));
                    assert forall|k: Seq<char>| #[trigger] self@.dom().contains(k)
                        implies self@[k].len() <= self.max_entries() by {
                        if k != group_id@ {
                            assert(old(self)@.dom().contains(k));
                            assert(self@[k] == old(self)@[k]);
                        }
                    }
                }
            },
        }
    }

    /// A copy of a group's log in arrival order; an unknown group reads as
    /// an empty log, never as an error.
    pub fn get(&self, group_id: &String) -> (r: Vec<HistoryEntry>)
        requires
            self.wf(),
        ensures
            hist_view(r@) == spec_group(self@, group_id@),
    {
        let ghost m0 = self.model_seq();
        match find_key_index(&self.groups, group_id) {
            Some(i) => {
                proof {
                    assert(m0[i as int].0 == group_id@);
                    lemma_assoc_at(m0, i as int);
                }
                let h = &self.groups[i].1;
                let mut r: Vec<HistoryEntry> = Vec::new();
                let mut j: usize = 0;
                while j < h.len()
                    invariant
                        j <= h@.len(),
                        r@ =~= h@.subrange(0, j as int),
                    decreases h@.len() - j,
                {
                    r.push(
                        HistoryEntry {
                            timestamp: h[j].timestamp,
                            content: h[j].content.clone(),
                        },
                    );
                    proof {
                        assert(r@.last() == h@[j as int]);
                        assert(r@ =~= h@.subrange(0, j as int + 1));
                    }
                    j = j + 1;
                }
                proof {
                    assert(r@ =~= h@);
                    assert(hist_view(r@) =~= hist_view(h@));
                }
                r
            },
            None => {
                proof {
                    if has_key(m0, group_id@) {
                        let j = choose|j: int| 0 <= j < m0.len() && m0[j].0 == group_id@;
                        assert(self.groups@[j].0@ == group_id@);
                    }
                }
                let r: Vec<HistoryEntry> = Vec::new();
                proof {
                    assert(hist_view(r@) =~= Seq::<HistoryEntryModel>::empty());
                }
                r
            },
        }
    }

    /// Remove a group's whole log; a no-op when the group is unknown.
    pub fn clear_group(&mut self, group_id: &String)
        requires
            old(self).wf(),
        ensures
            final(self).wf(),
            final(self)@ == old(self)@.remove(group_id@),
            final(self).max_entries() == old(self).max_entries(),
    {
        let ghost m0 = self.model_seq();
        match find_key_index(&self.groups, group_id) {
            Some(i) => {
                proof {
                    assert(m0[i as int].0 == group_id@);
                    lemma_assoc_at(m0, i as int);
                    lemma_assoc_remove(m0, i as int);
                }
                self.groups.remove(i);
                proof {
                    assert(self.model_seq() =~= m0.remove(i as int));
                    assert(self@ == old(self)@.remove(group_id@));
                    assert forall|k: Seq<char>| #[trigger] self@.dom().contains(k)
                        implies self@[k].len() <= self.max_entries() by {
                        assert(old(self)@.dom().contains(k));
                        assert(self@[k] == old(self)@[k]);
                    }
                }
            },
            None => {
                proof {
                    if has_key(m0, group_id@) {
                        let j = choose|j: int| 0 <= j < m0.len() && m0[j].0 == group_id@;
                        assert(self.groups@[j].0@ == group_id@);
                    }
                    assert(old(self)@.remove(group_id@) =~= old(self)@);
                }
            },
        }
    }

    /// Every log this store holds is within the bound.
    pub proof fn lemma_history_bound(&self)
        requires
            self.wf(),
        ensures
            forall|k: Seq<char>| #[trigger] self@.dom().contains(k) ==> self@[k].len()
                <= self.max_entries(),
    {
    }
}

} // verus!
