//! What a merge gives: the old index with the changes on top.
use super::{
    all_events, bound, entry_of_change, events_for, ingested, ingests, last_place,
    lemma_bound_exists, merge_events, merged_changes, old_ok, same_block, MergeEvent, MergeState,
};
use crate::index::{law_key_order, IndexEntry, IndexKey, IndexValue};
use crate::pending_changes::{ascending, has_key, key_at, lemma_key_at, PendingChange};
use vstd::prelude::*;

verus! {

/// The entry is that of a change, or one of the old index whose key has no change.
pub open spec fn in_union(
    pend: Seq<(IndexKey, PendingChange)>,
    old: Seq<IndexEntry>,
    x: IndexEntry,
) -> bool {
    if has_key(pend, x.key) {
        x == entry_of_change(pend[key_at(pend, x.key)])
    } else {
        old.contains(x)
    }
}

/// Keys in ascending order, none twice.
pub open spec fn keys_ascend(s: Seq<IndexEntry>) -> bool {
    forall|i: int, j: int|
        0 <= i < j < s.len() ==> (#[trigger] s[i]).key.place() < (#[trigger] s[j]).key.place()
}

pub proof fn lemma_ingested_append(a: Seq<MergeEvent>, b: Seq<MergeEvent>)
    ensures
        ingested(a + b) == ingested(a) + ingested(b),
    decreases b.len(),
{
    if b.len() == 0 {
        assert(a + b =~= a);
        assert(ingested(a) + ingested(b) =~= ingested(a));
    } else {
        assert((a + b).drop_last() =~= a + b.drop_last());
        assert((a + b).last() == b.last());
        lemma_ingested_append(a, b.drop_last());
        assert(ingested(a + b) =~= ingested(a) + ingested(b));
    }
}

proof fn lemma_ingested_changes(s: Seq<(IndexKey, PendingChange)>)
    ensures
        ingested(ingests(s)) == s.map_values(|p: (IndexKey, PendingChange)| entry_of_change(p)),
    decreases s.len(),
{
    let f = |p: (IndexKey, PendingChange)| entry_of_change(p);
    if s.len() == 0 {
        assert(ingests(s) =~= Seq::<MergeEvent>::empty());
        assert(ingested(ingests(s)) =~= s.map_values(f));
    } else {
        lemma_ingested_changes(s.drop_last());
        assert(ingests(s).drop_last() =~= ingests(s.drop_last()));
        assert(ingests(s).last() == MergeEvent::Ingest(entry_of_change(s.last())));
        assert(ingested(ingests(s)) =~= s.map_values(f));
    }
}

/// What an old entry, or the change of its key, adds.
pub open spec fn result_for(pend: Seq<(IndexKey, PendingChange)>, e: IndexEntry) -> IndexEntry {
    if has_key(pend, e.key) {
        entry_of_change(pend[key_at(pend, e.key)])
    } else {
        e
    }
}

pub proof fn lemma_ingested_entry(pend: Seq<(IndexKey, PendingChange)>, e: IndexEntry)
    ensures
        ingested(events_for(pend, e)) == seq![result_for(pend, e)],
{
    reveal_with_fuel(ingested, 4);
    let s = events_for(pend, e);
    assert(ingested(s) =~= seq![result_for(pend, e)]);
}

/// The entries that the merge has added are those of the union up to the last key.
proof fn lemma_merged_so_far(
    pend: Seq<(IndexKey, PendingChange)>,
    start: Option<IndexKey>,
    old: Seq<IndexEntry>,
)
    requires
        ascending(pend),
        old_ok(start, old),
    ensures
        keys_ascend(ingested(merge_events(pend, start, old))),
        forall|x: IndexEntry|
            #[trigger] ingested(merge_events(pend, start, old)).contains(x) <==> {
                &&& last_place(start, Seq::<IndexEntry>::empty()) < x.key.place()
                &&& x.key.place() <= last_place(start, old)
                &&& in_union(pend, old, x)
            },
    decreases old.len(),
{
    let first = last_place(start, Seq::<IndexEntry>::empty());
    if old.len() == 0 {
        assert(old =~= Seq::<IndexEntry>::empty());
    } else {
        let o = old.drop_last();
        let e = old.last();
        assert(old_ok(start, o)) by {
            assert forall|i: int, j: int| 0 <= i < j < o.len() implies (
            #[trigger] o[i]).key.place() < (#[trigger] o[j]).key.place() by {
                assert(old[i].key.place() < old[j].key.place());
            }
            assert forall|i: int| 0 <= i < o.len() implies (#[trigger] o[i]).key.place() > first by {
                assert(old[i].key.place() > first);
            }
        }
        lemma_merged_so_far(pend, start, o);
        let prev = last_place(start, o);
        assert(prev < e.key.place()) by {
            if o.len() > 0 {
                assert(old[o.len() - 1].key.place() < old[old.len() - 1].key.place());
            } else {
                assert(o =~= Seq::<IndexEntry>::empty());
                assert(old[old.len() - 1].key.place() > first);
            }
        }
        assert(first <= prev) by {
            if o.len() > 0 {
                assert(old[o.len() - 1].key.place() > first);
            }
        }
        let lo = merged_changes(pend, start, o);
        let hi = bound(pend, e.key.place());
        lemma_bound_exists(pend, prev + 1);
        lemma_bound_exists(pend, e.key.place());
        assert(lo <= hi) by {
            if hi < lo {
                assert(pend[hi].0.place() < prev + 1);
            }
        }
        let mid = pend.subrange(lo, hi);
        let a = ingested(merge_events(pend, start, o));
        let f = |p: (IndexKey, PendingChange)| entry_of_change(p);
        let b = mid.map_values(f);
        let c = seq![result_for(pend, e)];
        lemma_ingested_append(merge_events(pend, start, o), ingests(mid));
        lemma_ingested_append(merge_events(pend, start, o) + ingests(mid), events_for(pend, e));
        lemma_ingested_changes(mid);
        lemma_ingested_entry(pend, e);
        let all = ingested(merge_events(pend, start, old));
        assert(all == a + b + c);
        // order
        assert(result_for(pend, e).key == e.key) by {
            if has_key(pend, e.key) {
                assert(pend[key_at(pend, e.key)].0 == e.key);
            }
        }
        assert forall|i: int| 0 <= i < a.len() implies (#[trigger] a[i]).key.place() <= prev by {
            assert(a.contains(a[i]));
        }
        assert forall|i: int| 0 <= i < b.len() implies prev < (#[trigger] b[i]).key.place()
            && b[i].key.place() < e.key.place() by {
            assert(b[i].key == pend[lo + i].0);
        }
        assert forall|i: int, j: int| 0 <= i < j < all.len() implies (
        #[trigger] all[i]).key.place() < (#[trigger] all[j]).key.place() by {
            let na = a.len();
            let nb = b.len();
            if j < na {
                assert(all[i] == a[i] && all[j] == a[j]);
            } else if j < na + nb {
                assert(all[j] == b[j - na]);
                if i < na {
                    assert(all[i] == a[i]);
                } else {
                    assert(all[i] == b[i - na]);
                    assert(pend[lo + i - na].0.place() < pend[lo + j - na].0.place());
                }
            } else {
                assert(all[j] == c[0]);
                if i < na {
                    assert(all[i] == a[i]);
                } else {
                    assert(all[i] == b[i - na]);
                }
            }
        }
        // members
        assert forall|x: IndexEntry| #[trigger] all.contains(x) <==> {
            &&& first < x.key.place()
            &&& x.key.place() <= e.key.place()
            &&& in_union(pend, old, x)
        } by {
            if all.contains(x) {
                let k = choose|k: int| 0 <= k < all.len() && all[k] == x;
                if k < a.len() {
                    assert(a[k] == x);
                    assert(a.contains(x));
                    lemma_union_below(pend, old, x);
                } else if k < a.len() + b.len() {
                    let i = lo + k - a.len();
                    assert(b[k - a.len()] == x);
                    assert(x == entry_of_change(pend[i]));
                    lemma_key_at(pend, i);
                } else {
                    assert(x == result_for(pend, e));
                    assert(old[old.len() - 1] == e);
                }
            }
            if first < x.key.place() && x.key.place() <= e.key.place() && in_union(
                pend,
                old,
                x,
            ) {
                if x.key.place() <= prev {
                    lemma_union_below(pend, old, x);
                    assert(a.contains(x));
                    let k = choose|k: int| 0 <= k < a.len() && a[k] == x;
                    assert(all[k] == x);
                } else if x.key.place() < e.key.place() {
                    if has_key(pend, x.key) {
                        let i = key_at(pend, x.key);
                        assert(pend[i].0 == x.key);
                        assert(lo <= i < hi);
                        assert(b[i - lo] == x);
                        assert(all[a.len() + i - lo] == x);
                    } else {
                        let k = choose|k: int| 0 <= k < old.len() && old[k] == x;
                        if k < o.len() {
                            assert(o[k] == x);
                            if k < o.len() - 1 {
                                assert(o[k].key.place() < o[o.len() - 1].key.place());
                            }
                        }
                    }
                } else {
                    law_key_order(x.key, e.key);
                    if !has_key(pend, x.key) {
                        let k = choose|k: int| 0 <= k < old.len() && old[k] == x;
                        if k < old.len() - 1 {
                            assert(old[k].key.place() < old[old.len() - 1].key.place());
                        }
                    }
                    assert(x == result_for(pend, e));
                    assert(all[all.len() - 1] == x);
                }
            }
        }
    }
}

/// Below the last old entry the last one does not matter.
proof fn lemma_union_below(
    pend: Seq<(IndexKey, PendingChange)>,
    old: Seq<IndexEntry>,
    x: IndexEntry,
)
    requires
        old.len() > 0,
        x.key.place() < old.last().key.place(),
    ensures
        in_union(pend, old, x) == in_union(pend, old.drop_last(), x),
{
    let o = old.drop_last();
    if old.contains(x) {
        let k = choose|k: int| 0 <= k < old.len() && old[k] == x;
        assert(o[k] == x);
    }
    if o.contains(x) {
        let k = choose|k: int| 0 <= k < o.len() && o[k] == x;
        assert(old[k] == x);
    }
}

/// A merge gives, behind the key where it starts, the old index with the changes on top: of each
/// key the value that its change has, and else the value that the old index has; in order, and
/// each key once.
pub proof fn law_merge_union(
    pend: Seq<(IndexKey, PendingChange)>,
    start: Option<IndexKey>,
    old: Seq<IndexEntry>,
)
    requires
        ascending(pend),
        old_ok(start, old),
    ensures
        keys_ascend(ingested(all_events(pend, start, old))),
        forall|x: IndexEntry|
            #[trigger] ingested(all_events(pend, start, old)).contains(x) <==> {
                &&& last_place(start, Seq::<IndexEntry>::empty()) < x.key.place()
                &&& in_union(pend, old, x)
            },
{
    let first = last_place(start, Seq::<IndexEntry>::empty());
    let prev = last_place(start, old);
    lemma_merged_so_far(pend, start, old);
    lemma_bound_exists(pend, prev + 1);
    let lo = merged_changes(pend, start, old);
    let rest = pend.skip(lo);
    let f = |p: (IndexKey, PendingChange)| entry_of_change(p);
    let a = ingested(merge_events(pend, start, old));
    let b = rest.map_values(f);
    lemma_ingested_append(merge_events(pend, start, old), ingests(rest));
    lemma_ingested_changes(rest);
    let all = ingested(all_events(pend, start, old));
    assert(all == a + b);
    assert(first <= prev) by {
        if old.len() > 0 {
            assert(old[old.len() - 1].key.place() > first);
        } else {
            assert(old =~= Seq::<IndexEntry>::empty());
        }
    }
    assert forall|i: int| 0 <= i < a.len() implies (#[trigger] a[i]).key.place() <= prev by {
        assert(a.contains(a[i]));
    }
    assert forall|i: int| 0 <= i < b.len() implies prev < (#[trigger] b[i]).key.place() by {
        assert(b[i].key == pend[lo + i].0);
    }
    assert forall|i: int, j: int| 0 <= i < j < all.len() implies (#[trigger] all[i]).key.place()
        < (#[trigger] all[j]).key.place() by {
        let na = a.len();
        if j < na {
            assert(all[i] == a[i] && all[j] == a[j]);
        } else {
            assert(all[j] == b[j - na]);
            if i < na {
                assert(all[i] == a[i]);
            } else {
                assert(all[i] == b[i - na]);
                assert(pend[lo + i - na].0.place() < pend[lo + j - na].0.place());
            }
        }
    }
    assert forall|x: IndexEntry| #[trigger] all.contains(x) <==> {
        &&& first < x.key.place()
        &&& in_union(pend, old, x)
    } by {
        if all.contains(x) {
            let k = choose|k: int| 0 <= k < all.len() && all[k] == x;
            if k < a.len() {
                assert(a[k] == x);
                assert(a.contains(x));
            } else {
                let i = lo + k - a.len();
                assert(b[k - a.len()] == x);
                assert(x == entry_of_change(pend[i]));
                lemma_key_at(pend, i);
            }
        }
        if first < x.key.place() && in_union(pend, old, x) {
            if x.key.place() <= prev {
                assert(a.contains(x));
                let k = choose|k: int| 0 <= k < a.len() && a[k] == x;
                assert(all[k] == x);
            } else if has_key(pend, x.key) {
                let i = key_at(pend, x.key);
                assert(pend[i].0 == x.key);
                assert(b[i - lo] == x);
                assert(all[a.len() + i - lo] == x);
            } else {
                let k = choose|k: int| 0 <= k < old.len() && old[k] == x;
                if k < old.len() - 1 {
                    assert(old[k].key.place() < old[old.len() - 1].key.place());
                }
            }
        }
    }
}

/// What the new index holds of a block depends on when it was accessed: one that is recent enough
/// has a location, a ghost has none.
pub proof fn law_kept_is_valid(m: MergeState, e: IndexEntry)
    requires
        m.kept(e) is Some,
    ensures
        m.kept(e)->0.key == e.key,
        m.kept(e)->0.value.atime == e.value.atime,
        m.kept(e)->0.value.location is Some <==> e.value.atime.0 >= m.eviction_cutoff.0,
        m.freed(e) is Some ==> m.kept(e)->0.value.location is None,
{
}

/// An access changes nothing of an entry but its access time.
pub proof fn law_access_keeps_block(pend: Seq<(IndexKey, PendingChange)>, e: IndexEntry)
    requires
        has_key(pend, e.key),
        pend[key_at(pend, e.key)].1 is UpdateAtime,
        same_block(pend[key_at(pend, e.key)].1, e.value),
        e.value.location is Some,
    ensures
        ({
            let atime = pend[key_at(pend, e.key)].1.spec_value().atime;
            events_for(pend, e) == seq![
                MergeEvent::Ingest(
                    IndexEntry { key: e.key, value: IndexValue { atime, ..e.value } },
                ),
            ]
        }),
{
}

} // verus!
