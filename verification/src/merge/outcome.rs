//! What becomes of each block in a merge.
use super::laws::{in_union, keys_ascend, law_merge_union};
use super::{
    all_events, bound, bytes_at, delivered, entries_of, events_for, frees_of, ingested, ingests,
    is_floor, last_place, law_remap_inside, lemma_bound_exists, merge_events, merged_changes,
    old_ok, remap_of, remaps_of, table_ok, IndexMessage, MergeEvent, MergeState, Progress,
};
use crate::base_types::{law_location_round_trip, DiskLocation, Extent};
use crate::index::{law_key_order, IndexEntry, IndexKey, IndexValue};
use crate::pending_changes::{ascending, has_key, key_at, lemma_key_at, PendingChange};
use crate::block_allocator::rebalance::RemapTable;
use vstd::prelude::*;

verus! {

/// If no two entries overlap, a block inside of an extent that was moved is as far behind the
/// start of where that went as it was behind the start of where that was. If the extent lost its
/// place, so did the block.
pub proof fn law_remap_moves(t: RemapTable, e: Extent, i: int)
    requires
        table_ok(t),
        e.wf(),
        e.size > 0,
        0 <= i < t.entries@.len(),
        e.disk_no() == t.entries@[i].0.disk_no(),
        t.entries@[i].0.start() <= e.start(),
        e.end() <= t.entries@[i].0.end(),
        forall|j: int|
            0 <= j < t.entries@.len() && j != i ==> !(#[trigger] t.entries@[j]).0.overlaps(
                t.entries@[i].0,
            ),
    ensures
        match t.entries@[i].1 {
            Some(new) => remap_of(t, e) matches Some(location) && location.disk_no()
                == new.disk_no() && location.off() - new.off() == e.start()
                - t.entries@[i].0.start(),
            None => remap_of(t, e) is None,
        },
{
    law_remap_inside(t, e, i);
    if let Some(new) = t.entries@[i].1 {
        law_location_round_trip(new.disk_no(), new.off() + (e.start() - t.entries@[i].0.start()));
    }
}

/// A block that is inside of no extent that was moved stays where it is.
pub proof fn law_remap_stays(t: RemapTable, e: Extent)
    requires
        forall|i: int|
            0 <= i < t.entries@.len() ==> e.disk_no() != (#[trigger] t.entries@[i]).0.disk_no()
                || e.start() < t.entries@[i].0.start() || t.entries@[i].0.end() < e.end(),
    ensures
        remap_of(t, e) == Some(e.location),
{
    assert forall|i: int| #[trigger] is_floor(t, e.location.raw, i) implies !t.entries@[i].0
        .spec_contains(e) by {}
}

/// Where a block is when the moves of a rebalance are done, if there is one.
pub open spec fn place_now(m: MergeState, v: IndexValue) -> Option<DiskLocation> {
    if v.location is Some && m.rebalance is Some {
        remap_of(m.rebalance->0.map, Extent { location: v.location->0, size: (v.sectors * 512) as u64 })
    } else {
        v.location
    }
}

/// A merge changes neither the size nor the access time of a block. One that is recent enough is
/// kept where it is, or where the rebalance has moved it; it is dropped only if it has no place.
/// One that is less recent is kept as a ghost, without a place, until it is too old for that.
pub proof fn law_merge_keeps(m: MergeState, e: IndexEntry)
    ensures
        m.kept(e) matches Some(k) ==> k.key == e.key && k.value.spec_size() == e.value.spec_size()
            && k.value.sectors == e.value.sectors && k.value.atime == e.value.atime,
        m.rebalance is None && e.value.location is Some && e.value.atime.0 >= m.eviction_cutoff.0
            ==> m.kept(e) == Some(e),
        e.value.atime.0 >= m.eviction_cutoff.0 && place_now(m, e.value) is None ==> m.kept(
            e,
        ) is None,
        e.value.atime.0 >= m.eviction_cutoff.0 && place_now(m, e.value) is Some ==> (m.kept(
            e,
        ) matches Some(k) && k.value.location == place_now(m, e.value)),
        m.ghost_cutoff.0 <= e.value.atime.0 && e.value.atime.0 < m.eviction_cutoff.0 ==> (m.kept(
            e,
        ) matches Some(k) && k.value.location is None),
        e.value.atime.0 < m.ghost_cutoff.0 && e.value.atime.0 < m.eviction_cutoff.0 ==> m.kept(
            e,
        ) is None,
{
}

/// A merge frees the space of a block exactly if the block is not recent enough and has a place:
/// that place, and as many bytes as the block has. What is kept in its place is not freed.
pub proof fn law_merge_frees(m: MergeState, e: IndexEntry)
    ensures
        m.freed(e) is Some <==> e.value.atime.0 < m.eviction_cutoff.0 && place_now(
            m,
            e.value,
        ) is Some,
        m.freed(e) matches Some(f) ==> Some(f.location) == place_now(m, e.value) && f.size
            == e.value.sectors * 512,
        !(m.freed(e) is Some && m.kept(e) is Some && m.kept(e)->0.value.location is Some),
{
}

/// A block is reported as moved exactly if its place changes, and then with its new place, or
/// with none if it was lost.
pub proof fn law_merge_moves(m: MergeState, e: IndexEntry)
    ensures
        m.location_after(e) == place_now(m, e.value),
        m.moved(e).key == e.key,
        m.moved(e).value.location == place_now(m, e.value),
        m.moved(e).value.sectors == e.value.sectors,
        m.moved(e).value.atime == e.value.atime,
{
}

/// The entry is that of a change.
pub open spec fn is_change(pend: Seq<(IndexKey, PendingChange)>, x: IndexEntry) -> bool {
    exists|i: int|
        0 <= i < pend.len() && (#[trigger] pend[i]).0 == x.key && match pend[i].1 {
            PendingChange::Insert(value) => x.value == value,
            PendingChange::UpdateAtime(update) => x.value == update.0,
        }
}

/// There is a change of the key.
pub open spec fn is_changed(pend: Seq<(IndexKey, PendingChange)>, key: IndexKey) -> bool {
    exists|i: int| 0 <= i < pend.len() && (#[trigger] pend[i]).0 == key
}

/// The block is in the cache when a merge starts: it has a change, or it is in the old index and
/// has none.
pub open spec fn is_cached(
    pend: Seq<(IndexKey, PendingChange)>,
    old: Seq<IndexEntry>,
    x: IndexEntry,
) -> bool {
    is_change(pend, x) || (old.contains(x) && !is_changed(pend, x.key))
}

/// The key is one that the merge has to do with: it is behind the one where the merge starts.
pub open spec fn is_behind(start: Option<IndexKey>, key: IndexKey) -> bool {
    start matches Some(first) ==> first.place() < key.place()
}

proof fn lemma_cached(
    pend: Seq<(IndexKey, PendingChange)>,
    start: Option<IndexKey>,
    old: Seq<IndexEntry>,
    x: IndexEntry,
)
    requires
        ascending(pend),
    ensures
        is_cached(pend, old, x) == in_union(pend, old, x),
        is_behind(start, x.key) == (last_place(start, Seq::<IndexEntry>::empty())
            < x.key.place()),
        is_changed(pend, x.key) == has_key(pend, x.key),
{
    if is_change(pend, x) {
        let i = choose|i: int|
            0 <= i < pend.len() && (#[trigger] pend[i]).0 == x.key && match pend[i].1 {
                PendingChange::Insert(value) => x.value == value,
                PendingChange::UpdateAtime(update) => x.value == update.0,
            };
        lemma_key_at(pend, i);
    }
    if has_key(pend, x.key) {
        assert(pend[key_at(pend, x.key)].0 == x.key);
        let i = choose|i: int| 0 <= i < pend.len() && (#[trigger] pend[i]).0 == x.key;
        lemma_key_at(pend, i);
    }
    law_key_order(x.key, x.key);
}

proof fn lemma_entries(m: MergeState, events: Seq<MergeEvent>, x: IndexEntry)
    ensures
        entries_of(m, events).contains(x) <==> exists|e: IndexEntry| #[trigger]
            ingested(events).contains(e) && m.kept(e) == Some(x),
    decreases events.len(),
{
    if events.len() > 0 {
        let before = events.drop_last();
        lemma_entries(m, before, x);
        let s = entries_of(m, before);
        let t = entries_of(m, events);
        let a = ingested(before);
        let b = ingested(events);
        assert forall|e: IndexEntry| #[trigger] a.contains(e) implies b.contains(e) by {
            let i = choose|i: int| 0 <= i < a.len() && a[i] == e;
            assert(b[i] == e);
        }
        if s.contains(x) {
            let i = choose|i: int| 0 <= i < s.len() && s[i] == x;
            assert(t[i] == x);
        }
        if let MergeEvent::Ingest(e) = events.last() {
            assert(b[a.len() as int] == e);
            assert(b.contains(e));
            if m.kept(e) == Some(x) {
                assert(t[s.len() as int] == x);
            }
            assert forall|g: IndexEntry| #[trigger] b.contains(g) implies g == e || a.contains(
                g,
            ) by {
                let i = choose|i: int| 0 <= i < b.len() && b[i] == g;
                if i < a.len() {
                    assert(a[i] == g);
                }
            }
        } else {
            assert(t =~= s);
        }
        if t.contains(x) {
            let i = choose|i: int| 0 <= i < t.len() && t[i] == x;
            if i < s.len() {
                assert(s[i] == x);
            }
        }
    }
}

proof fn lemma_entries_ascend(m: MergeState, events: Seq<MergeEvent>)
    requires
        keys_ascend(ingested(events)),
    ensures
        keys_ascend(entries_of(m, events)),
    decreases events.len(),
{
    if events.len() > 0 {
        let before = events.drop_last();
        let a = ingested(before);
        let b = ingested(events);
        assert(keys_ascend(a)) by {
            assert forall|i: int, j: int| 0 <= i < j < a.len() implies (
            #[trigger] a[i]).key.place() < (#[trigger] a[j]).key.place() by {
                assert(b[i] == a[i] && b[j] == a[j]);
            }
        }
        lemma_entries_ascend(m, before);
        let s = entries_of(m, before);
        let t = entries_of(m, events);
        if let MergeEvent::Ingest(e) = events.last() {
            if m.kept(e) is Some {
                assert forall|i: int| 0 <= i < s.len() implies (#[trigger] s[i]).key.place()
                    < e.key.place() by {
                    lemma_entries(m, before, s[i]);
                    assert(s.contains(s[i]));
                    let g = choose|g: IndexEntry| #[trigger]
                        a.contains(g) && m.kept(g) == Some(s[i]);
                    let k = choose|k: int| 0 <= k < a.len() && a[k] == g;
                    assert(b[k] == g && b[a.len() as int] == e);
                }
            }
        }
    }
}

/// The new index has of each block that is in the cache exactly one entry, in the order of the
/// keys: with its place after the rebalance if the block is recent enough, without one if it is
/// to be remembered, and else none. The size and the access time are those of its change if it
/// has one, and else those of the old index. The index has nothing else.
pub proof fn law_merged_index(m: MergeState, start: Option<IndexKey>, old: Seq<IndexEntry>)
    requires
        ascending(m.old_pending_changes.entries@),
        old_ok(start, old),
    ensures
        ({
            let pend = m.old_pending_changes.entries@;
            let index = entries_of(m, all_events(pend, start, old));
            &&& forall|i: int, j: int|
                0 <= i < j < index.len() ==> (#[trigger] index[i]).key.place() < (
                #[trigger] index[j]).key.place()
            &&& forall|x: IndexEntry|
                #[trigger] is_cached(pend, old, x) && is_behind(start, x.key) ==> {
                    let place = place_now(m, x.value);
                    let kept = IndexEntry {
                        key: x.key,
                        value: IndexValue {
                            location: place,
                            sectors: x.value.sectors,
                            atime: x.value.atime,
                        },
                    };
                    let remembered = IndexEntry {
                        key: x.key,
                        value: IndexValue {
                            location: None,
                            sectors: x.value.sectors,
                            atime: x.value.atime,
                        },
                    };
                    if x.value.atime.0 >= m.eviction_cutoff.0 {
                        if place is Some {
                            index.contains(kept)
                        } else {
                            forall|g: IndexEntry| #[trigger] index.contains(g) ==> g.key != x.key
                        }
                    } else if x.value.atime.0 >= m.ghost_cutoff.0 {
                        index.contains(remembered)
                    } else {
                        forall|g: IndexEntry| #[trigger] index.contains(g) ==> g.key != x.key
                    }
                }
            &&& forall|g: IndexEntry| #[trigger]
                index.contains(g) ==> exists|x: IndexEntry|
                    #[trigger] is_cached(pend, old, x) && is_behind(start, x.key) && x.key == g.key
        }),
{
    let pend = m.old_pending_changes.entries@;
    let events = all_events(pend, start, old);
    let index = entries_of(m, events);
    let all = ingested(events);
    law_merge_union(pend, start, old);
    lemma_entries_ascend(m, events);
    assert forall|x: IndexEntry| true implies all.contains(x) == (#[trigger] is_cached(
        pend,
        old,
        x,
    ) && is_behind(start, x.key)) by {
        lemma_cached(pend, start, old, x);
    }
    assert forall|g: IndexEntry| #[trigger] index.contains(g) implies exists|x: IndexEntry| #[trigger]
        is_cached(pend, old, x) && is_behind(start, x.key) && x.key == g.key && m.kept(x) == Some(
            g,
        ) by {
        lemma_entries(m, events, g);
        let e = choose|e: IndexEntry| #[trigger] all.contains(e) && m.kept(e) == Some(g);
        assert(is_cached(pend, old, e));
        law_merge_keeps(m, e);
    }
    assert forall|x: IndexEntry, g: IndexEntry|
        #[trigger] is_cached(pend, old, x) && is_behind(start, x.key) && #[trigger] index.contains(
            g,
        ) && g.key == x.key implies m.kept(x) == Some(g) by {
        let e = choose|e: IndexEntry| #[trigger]
            is_cached(pend, old, e) && is_behind(start, e.key) && e.key == g.key && m.kept(e)
                == Some(g);
        assert(all.contains(e) && all.contains(x));
        let i = choose|i: int| 0 <= i < all.len() && all[i] == e;
        let j = choose|j: int| 0 <= j < all.len() && all[j] == x;
        if i < j {
            assert(all[i].key.place() < all[j].key.place());
        } else if j < i {
            assert(all[j].key.place() < all[i].key.place());
        }
    }
    assert forall|x: IndexEntry| #[trigger] is_cached(pend, old, x) && is_behind(start, x.key)
        && m.kept(x) is Some implies index.contains(m.kept(x)->0) by {
        assert(all.contains(x));
        lemma_entries(m, events, m.kept(x)->0);
    }
}

/// An old entry is replaced exactly if a value was inserted for its key.
proof fn lemma_replaced(
    pend: Seq<(IndexKey, PendingChange)>,
    start: Option<IndexKey>,
    old: Seq<IndexEntry>,
    e: IndexEntry,
)
    ensures
        merge_events(pend, start, old).contains(MergeEvent::Evict(e)) <==> old.contains(e)
            && has_key(pend, e.key) && pend[key_at(pend, e.key)].1 is Insert,
    decreases old.len(),
{
    if old.len() > 0 {
        let o = old.drop_last();
        let last = old.last();
        lemma_replaced(pend, start, o, e);
        let a = merge_events(pend, start, o);
        let mid = pend.subrange(merged_changes(pend, start, o), bound(pend, last.key.place()));
        let b = ingests(mid);
        let c = events_for(pend, last);
        let all = merge_events(pend, start, old);
        let ev = MergeEvent::Evict(e);
        assert(all == a + b + c);
        if old.contains(e) {
            let k = choose|k: int| 0 <= k < old.len() && old[k] == e;
            if k < o.len() {
                assert(o[k] == e);
            }
        }
        if o.contains(e) {
            let k = choose|k: int| 0 <= k < o.len() && o[k] == e;
            assert(old[k] == e);
        }
        assert(old[old.len() - 1] == last);
        if all.contains(ev) {
            let k = choose|k: int| 0 <= k < all.len() && all[k] == ev;
            if k < a.len() {
                assert(a[k] == ev);
            } else if k < a.len() + b.len() {
                assert(b[k - a.len()] == ev);
            } else {
                assert(c[k - a.len() - b.len()] == ev);
            }
        }
        if a.contains(ev) {
            let k = choose|k: int| 0 <= k < a.len() && a[k] == ev;
            assert(all[k] == ev);
        }
        if last == e && has_key(pend, e.key) && pend[key_at(pend, e.key)].1 is Insert {
            assert(c[0] == ev);
            assert(all[(a.len() + b.len()) as int] == ev);
        }
    }
}

proof fn lemma_frees(m: MergeState, events: Seq<MergeEvent>, f: Extent)
    ensures
        frees_of(m, events).contains(f) <==> {
            ||| exists|e: IndexEntry|
                #[trigger] events.contains(MergeEvent::Evict(e)) && e.value.location == Some(
                    f.location,
                ) && f.size == (e.value.sectors * 512) as u64
            ||| exists|e: IndexEntry| #[trigger]
                ingested(events).contains(e) && m.freed(e) == Some(f)
        },
    decreases events.len(),
{
    if events.len() > 0 {
        let before = events.drop_last();
        lemma_frees(m, before, f);
        let s = frees_of(m, before);
        let t = frees_of(m, events);
        let a = ingested(before);
        let b = ingested(events);
        assert forall|e: IndexEntry| #[trigger] a.contains(e) implies b.contains(e) by {
            let i = choose|i: int| 0 <= i < a.len() && a[i] == e;
            assert(b[i] == e);
        }
        assert forall|ev: MergeEvent| #[trigger] before.contains(ev) implies events.contains(
            ev,
        ) by {
            let i = choose|i: int| 0 <= i < before.len() && before[i] == ev;
            assert(events[i] == ev);
        }
        assert forall|ev: MergeEvent| #[trigger] events.contains(ev) implies ev == events.last()
            || before.contains(ev) by {
            let i = choose|i: int| 0 <= i < events.len() && events[i] == ev;
            if i < before.len() {
                assert(before[i] == ev);
            }
        }
        assert(events[events.len() - 1] == events.last());
        assert(events.contains(events.last()));
        if s.contains(f) {
            let i = choose|i: int| 0 <= i < s.len() && s[i] == f;
            assert(t[i] == f);
        }
        if t.contains(f) {
            let i = choose|i: int| 0 <= i < t.len() && t[i] == f;
            if i < s.len() {
                assert(s[i] == f);
            }
        }
        match events.last() {
            MergeEvent::Ingest(e) => {
                assert(b[a.len() as int] == e);
                assert(b.contains(e));
                if m.freed(e) == Some(f) {
                    assert(t[s.len() as int] == f);
                }
                assert forall|g: IndexEntry| #[trigger] b.contains(g) implies g == e
                    || a.contains(g) by {
                    let i = choose|i: int| 0 <= i < b.len() && b[i] == g;
                    if i < a.len() {
                        assert(a[i] == g);
                    }
                }
            },
            MergeEvent::Evict(e) => {
                if e.value.location is Some {
                    assert(t[s.len() as int] == (Extent {
                        location: e.value.location->0,
                        size: (e.value.sectors * 512) as u64,
                    }));
                }
            },
        }
    }
}

/// A merge frees the places of the blocks for whose keys others were inserted, and the places of
/// those that are not recent enough, and nothing else.
pub proof fn law_merged_frees(
    m: MergeState,
    start: Option<IndexKey>,
    old: Seq<IndexEntry>,
    f: Extent,
)
    requires
        ascending(m.old_pending_changes.entries@),
        old_ok(start, old),
    ensures
        ({
            let pend = m.old_pending_changes.entries@;
            frees_of(m, all_events(pend, start, old)).contains(f) <==> {
                ||| exists|e: IndexEntry, i: int|
                    #[trigger] old.contains(e) && 0 <= i < pend.len() && (#[trigger] pend[i]).0
                        == e.key && pend[i].1 is Insert && e.value.location == Some(f.location)
                        && f.size == e.value.sectors * 512
                ||| exists|e: IndexEntry| #[trigger]
                    is_cached(pend, old, e) && is_behind(start, e.key) && e.value.atime.0
                        < m.eviction_cutoff.0 && place_now(m, e.value) == Some(f.location)
                        && f.size == e.value.sectors * 512
            }
        }),
{
    let pend = m.old_pending_changes.entries@;
    let events = all_events(pend, start, old);
    let all = ingested(events);
    let a = merge_events(pend, start, old);
    let b = ingests(pend.skip(merged_changes(pend, start, old)));
    law_merge_union(pend, start, old);
    lemma_bound_exists(pend, last_place(start, old) + 1);
    lemma_frees(m, events, f);
    assert(events == a + b);
    assert forall|e: IndexEntry| true implies all.contains(e) == (#[trigger] is_cached(
        pend,
        old,
        e,
    ) && is_behind(start, e.key)) by {
        lemma_cached(pend, start, old, e);
    }
    assert forall|e: IndexEntry| true implies #[trigger] events.contains(MergeEvent::Evict(e))
        == (old.contains(e) && has_key(pend, e.key) && pend[key_at(pend, e.key)].1 is Insert) by {
        let ev = MergeEvent::Evict(e);
        lemma_replaced(pend, start, old, e);
        if events.contains(ev) {
            let k = choose|k: int| 0 <= k < events.len() && events[k] == ev;
            if k < a.len() {
                assert(a[k] == ev);
            } else {
                assert(b[k - a.len()] == ev);
            }
        }
        if a.contains(ev) {
            let k = choose|k: int| 0 <= k < a.len() && a[k] == ev;
            assert(events[k] == ev);
        }
    }
    let frees = frees_of(m, events);
    if frees.contains(f) {
        if exists|e: IndexEntry|
            #[trigger] events.contains(MergeEvent::Evict(e)) && e.value.location == Some(
                f.location,
            ) && f.size == (e.value.sectors * 512) as u64 {
            let e = choose|e: IndexEntry|
                #[trigger] events.contains(MergeEvent::Evict(e)) && e.value.location == Some(
                    f.location,
                ) && f.size == (e.value.sectors * 512) as u64;
            let i = key_at(pend, e.key);
            assert(old.contains(e) && pend[i].0 == e.key);
        } else {
            let e = choose|e: IndexEntry| #[trigger] all.contains(e) && m.freed(e) == Some(f);
            law_merge_frees(m, e);
            assert(is_cached(pend, old, e));
        }
    }
    if exists|e: IndexEntry, i: int|
        #[trigger] old.contains(e) && 0 <= i < pend.len() && (#[trigger] pend[i]).0 == e.key
            && pend[i].1 is Insert && e.value.location == Some(f.location) && f.size
            == e.value.sectors * 512 {
        let (e, i) = choose|e: IndexEntry, i: int|
            #[trigger] old.contains(e) && 0 <= i < pend.len() && (#[trigger] pend[i]).0 == e.key
                && pend[i].1 is Insert && e.value.location == Some(f.location) && f.size
                == e.value.sectors * 512;
        lemma_key_at(pend, i);
        assert(events.contains(MergeEvent::Evict(e)));
    }
    if exists|e: IndexEntry| #[trigger]
        is_cached(pend, old, e) && is_behind(start, e.key) && e.value.atime.0 < m.eviction_cutoff.0
            && place_now(m, e.value) == Some(f.location) && f.size == e.value.sectors * 512 {
        let e = choose|e: IndexEntry| #[trigger]
            is_cached(pend, old, e) && is_behind(start, e.key) && e.value.atime.0
                < m.eviction_cutoff.0 && place_now(m, e.value) == Some(f.location) && f.size
                == e.value.sectors * 512;
        law_merge_frees(m, e);
        assert(all.contains(e));
        assert(m.freed(e) == Some(f));
    }
}

proof fn lemma_remaps(m: MergeState, events: Seq<MergeEvent>, x: IndexEntry)
    ensures
        remaps_of(m, events).contains(x) <==> exists|e: IndexEntry| #[trigger]
            ingested(events).contains(e) && m.location_after(e) != e.value.location && m.moved(e)
                == x,
    decreases events.len(),
{
    if events.len() > 0 {
        let before = events.drop_last();
        lemma_remaps(m, before, x);
        let s = remaps_of(m, before);
        let t = remaps_of(m, events);
        let a = ingested(before);
        let b = ingested(events);
        assert forall|e: IndexEntry| #[trigger] a.contains(e) implies b.contains(e) by {
            let i = choose|i: int| 0 <= i < a.len() && a[i] == e;
            assert(b[i] == e);
        }
        if s.contains(x) {
            let i = choose|i: int| 0 <= i < s.len() && s[i] == x;
            assert(t[i] == x);
        }
        if let MergeEvent::Ingest(e) = events.last() {
            assert(b[a.len() as int] == e);
            assert(b.contains(e));
            if m.location_after(e) != e.value.location && m.moved(e) == x {
                assert(t[s.len() as int] == x);
            }
            assert forall|g: IndexEntry| #[trigger] b.contains(g) implies g == e || a.contains(
                g,
            ) by {
                let i = choose|i: int| 0 <= i < b.len() && b[i] == g;
                if i < a.len() {
                    assert(a[i] == g);
                }
            }
        } else {
            assert(t =~= s);
        }
        if t.contains(x) {
            let i = choose|i: int| 0 <= i < t.len() && t[i] == x;
            if i < s.len() {
                assert(s[i] == x);
            }
        }
    }
}

/// A merge reports each block that is in the cache and whose place has changed, with its new
/// place or with none; and no other.
pub proof fn law_merged_moves(
    m: MergeState,
    start: Option<IndexKey>,
    old: Seq<IndexEntry>,
    x: IndexEntry,
)
    requires
        ascending(m.old_pending_changes.entries@),
        old_ok(start, old),
    ensures
        ({
            let pend = m.old_pending_changes.entries@;
            remaps_of(m, all_events(pend, start, old)).contains(x) <==> exists|e: IndexEntry|
                #[trigger] is_cached(pend, old, e) && is_behind(start, e.key) && x.key == e.key
                    && x.value.sectors == e.value.sectors && x.value.atime == e.value.atime
                    && x.value.location == place_now(m, e.value) && x.value.location
                    != e.value.location
        }),
{
    let pend = m.old_pending_changes.entries@;
    let events = all_events(pend, start, old);
    let all = ingested(events);
    law_merge_union(pend, start, old);
    lemma_remaps(m, events, x);
    assert forall|e: IndexEntry| true implies all.contains(e) == (#[trigger] is_cached(
        pend,
        old,
        e,
    ) && is_behind(start, e.key)) by {
        lemma_cached(pend, start, old, e);
    }
    if remaps_of(m, events).contains(x) {
        let e = choose|e: IndexEntry| #[trigger]
            all.contains(e) && m.location_after(e) != e.value.location && m.moved(e) == x;
        law_merge_moves(m, e);
        assert(is_cached(pend, old, e));
    }
    if exists|e: IndexEntry| #[trigger]
        is_cached(pend, old, e) && is_behind(start, e.key) && x.key == e.key && x.value.sectors
            == e.value.sectors && x.value.atime == e.value.atime && x.value.location == place_now(
            m,
            e.value,
        ) && x.value.location != e.value.location {
        let e = choose|e: IndexEntry| #[trigger]
            is_cached(pend, old, e) && is_behind(start, e.key) && x.key == e.key
                && x.value.sectors == e.value.sectors && x.value.atime == e.value.atime
                && x.value.location == place_now(m, e.value) && x.value.location
                != e.value.location;
        law_merge_moves(m, e);
        assert(m.moved(e) == x);
        assert(all.contains(e));
    }
}

/// A message is sent exactly if one of the lists is as long as it is to be; it has then all that
/// was collected, and nothing is left. Else all that was collected stays.
pub proof fn law_full_is_sent(
    a: Progress,
    b: Progress,
    last_key: Option<IndexKey>,
    entries: Seq<IndexEntry>,
    frees: Seq<Extent>,
    remaps: Seq<IndexEntry>,
    r: Option<IndexMessage>,
)
    requires
        delivered(a, b, last_key, entries, frees, remaps, r),
    ensures
        r is Some <==> entries.len() >= a.chunk || frees.len() >= a.chunk || remaps.len()
            >= a.chunk,
        r matches Some(message) ==> {
            &&& Some(message.last_key) == last_key
            &&& message.entries@ == entries && message.frees@ == frees && message.remaps@
                == remaps
            &&& b.entries@.len() == 0 && b.frees@.len() == 0 && b.remaps@.len() == 0
        },
        r is None ==> b.entries@ == entries && b.frees@ == frees && b.remaps@ == remaps,
{
}

/// Each block of the old index that was merged is one that the old index need not count any more,
/// with its bytes at its access time.
pub proof fn law_merged_bytes(old: Seq<IndexEntry>, e: IndexEntry, t: int)
    ensures
        bytes_at(old.push(e), t) == bytes_at(old, t) + if t == e.value.atime.0 {
            e.value.sectors * 512
        } else {
            0
        },
        bytes_at(Seq::empty(), t) == 0,
{
    assert(old.push(e).drop_last() =~= old);
}

} // verus!
