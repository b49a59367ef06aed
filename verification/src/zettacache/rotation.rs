//! What follows the progress and the end of a merge.
use super::rotated::{
    cached_change, is_live, law_changes_outlive_merge, law_merged_is_cached, value_of,
};
use super::ZettaCacheState;
use crate::base_types::{Atime, DiskLocation, Extent};
use crate::index::{IndexEntry, IndexKey, IndexValue};
use crate::lru_cache::{
    cache_key, cache_value, find, put_front, CacheKey, CacheValue, IndexCache,
};
use crate::merge::outcome::place_now;
use crate::merge::{located, remap_of, table_ok, MergeState, RebalanceState};
use crate::pending_changes::{ascending, PendingChange, PendingChanges, UpdateAtime};
use vstd::prelude::*;

verus! {

/// The cache without a key.
pub open spec fn cache_without(s: Seq<(CacheKey, CacheValue)>, k: CacheKey) -> Seq<
    (CacheKey, CacheValue),
> {
    match find(s, k) {
        Some(i) => s.remove(i),
        None => s,
    }
}

/// The cache after blocks have been moved or have lost their place.
pub open spec fn cache_moved(s: Seq<(CacheKey, CacheValue)>, remaps: Seq<IndexEntry>) -> Seq<
    (CacheKey, CacheValue),
>
    decreases remaps.len(),
{
    if remaps.len() == 0 {
        s
    } else {
        let t = cache_moved(s, remaps.drop_last());
        let e = remaps.last();
        match e.value.location {
            Some(location) => match find(t, cache_key(e.key)) {
                Some(i) => t.update(i, (cache_key(e.key), (location.raw, t[i].1.1, t[i].1.2))),
                None => t,
            },
            None => cache_without(t, cache_key(e.key)),
        }
    }
}

/// Where the block of a value is after the rebalance.
pub open spec fn place_after(rebalance: Option<RebalanceState>, v: IndexValue) -> Option<
    DiskLocation,
> {
    match rebalance {
        Some(r) => remap_of(
            r.map,
            Extent { location: v.location->0, size: v.spec_size() as u64 },
        ),
        None => v.location,
    }
}

/// The changes after the rebalance. A block that was inserted while the merge went on has not
/// been moved; one that was accessed may have been, or may have lost its place.
pub open spec fn changes_moved(
    rebalance: Option<RebalanceState>,
    s: Seq<(IndexKey, PendingChange)>,
) -> Seq<(IndexKey, PendingChange)>
    decreases s.len(),
{
    if s.len() == 0 {
        Seq::empty()
    } else {
        let t = changes_moved(rebalance, s.drop_last());
        let (key, change) = s.last();
        match change {
            PendingChange::Insert(_) => t.push((key, change)),
            PendingChange::UpdateAtime(u) => match place_after(rebalance, u.0) {
                Some(location) => t.push(
                    (
                        key,
                        change.with_value(IndexValue { location: Some(location), ..u.0 }),
                    ),
                ),
                None => t,
            },
        }
    }
}

/// The index cache after the merged changes have been added to it, as far as their blocks are
/// still in the cache.
pub open spec fn cache_filled(
    s: Seq<(CacheKey, CacheValue)>,
    cap: nat,
    live: Atime,
    rebalance: Option<RebalanceState>,
    changes: Seq<(IndexKey, PendingChange)>,
) -> Seq<(CacheKey, CacheValue)>
    decreases changes.len(),
{
    if changes.len() == 0 {
        s
    } else {
        let t = cache_filled(s, cap, live, rebalance, changes.drop_last());
        let (key, change) = changes.last();
        let v = change.spec_value();
        if v.atime.0 < live.0 {
            t
        } else {
            match place_after(rebalance, v) {
                Some(location) => put_front(
                    t,
                    cap,
                    cache_key(key),
                    cache_value(IndexValue { location: Some(location), ..v }),
                ),
                None => cache_without(t, cache_key(key)),
            }
        }
    }
}

/// The changes that are left have ascending keys.
proof fn lemma_changes_moved(
    rebalance: Option<RebalanceState>,
    s: Seq<(IndexKey, PendingChange)>,
)
    requires
        ascending(s),
    ensures
        ascending(changes_moved(rebalance, s)),
        forall|i: int|
            0 <= i < changes_moved(rebalance, s).len() ==> exists|j: int|
                0 <= j < s.len() && (#[trigger] s[j]).0 == (
                #[trigger] changes_moved(rebalance, s)[i]).0,
    decreases s.len(),
{
    if s.len() > 0 {
        let p = s.drop_last();
        assert(ascending(p)) by {
            assert forall|i: int, j: int| 0 <= i < j < p.len() implies (
            #[trigger] p[i]).0.place() < (#[trigger] p[j]).0.place() by {
                assert(s[i].0.place() < s[j].0.place());
            }
        }
        lemma_changes_moved(rebalance, p);
        let t = changes_moved(rebalance, p);
        let r = changes_moved(rebalance, s);
        assert forall|i: int| 0 <= i < r.len() implies exists|j: int|
            0 <= j < s.len() && (#[trigger] s[j]).0 == (#[trigger] r[i]).0 by {
            if i < t.len() {
                let j = choose|j: int| 0 <= j < p.len() && (#[trigger] p[j]).0 == t[i].0;
                assert(s[j].0 == r[i].0);
            } else {
                assert(s[s.len() - 1].0 == r[i].0);
            }
        }
        assert forall|i: int, j: int| 0 <= i < j < r.len() implies (#[trigger] r[i]).0.place() < (
        #[trigger] r[j]).0.place() by {
            if j < t.len() {
                assert(t[i].0.place() < t[j].0.place());
            } else {
                let k = choose|k: int| 0 <= k < p.len() && (#[trigger] p[k]).0 == t[i].0;
                assert(s[k].0.place() < s[s.len() - 1].0.place());
            }
        }
    }
}

/// The blocks of the changes can be looked up in the moves, and insertions were not moved.
pub open spec fn changes_fit(
    rebalance: Option<RebalanceState>,
    s: Seq<(IndexKey, PendingChange)>,
) -> bool {
    &&& rebalance matches Some(r) ==> table_ok(r.map)
    &&& forall|i: int|
        0 <= i < s.len() ==> {
            let v = (#[trigger] s[i]).1.spec_value();
            &&& v.location is Some
            &&& located(v)
            &&& s[i].1 is Insert ==> place_after(rebalance, v) == v.location
        }
}

/// The changes after a rebalance.
fn move_changes(rebalance: &Option<RebalanceState>, changes: &PendingChanges) -> (r:
    PendingChanges)
    requires
        changes.wf(),
        changes_fit(*rebalance, changes.entries@),
    ensures
        r.wf(),
        r.entries@ == changes_moved(*rebalance, changes.entries@),
{
    let ghost s = changes.entries@;
    let mut entries: Vec<(IndexKey, PendingChange)> = Vec::new();
    let mut i: usize = 0;
    assert(s.take(0) =~= Seq::<(IndexKey, PendingChange)>::empty());
    while i < changes.entries.len()
        invariant
            i <= s.len(),
            s == changes.entries@,
            changes_fit(*rebalance, s),
            entries@ == changes_moved(*rebalance, s.take(i as int)),
        decreases s.len() - i,
    {
        let (key, change) = changes.entries[i];
        proof {
            assert(s.take(i + 1).drop_last() =~= s.take(i as int));
            assert(s.take(i + 1).last() == s[i as int]);
            assert(s[i as int].1.spec_value().location is Some);
        }
        match change {
            PendingChange::Insert(_) => {
                entries.push((key, change));
            },
            PendingChange::UpdateAtime(update) => {
                let place = match rebalance {
                    Some(r) => r.remap(update.0.extent().unwrap()),
                    None => update.0.location,
                };
                if let Some(location) = place {
                    let mut value = update.0;
                    value.set_location(Some(location));
                    entries.push((key, PendingChange::UpdateAtime(UpdateAtime(value, update.1))));
                }
            },
        }
        i += 1;
    }
    proof {
        assert(s.take(i as int) =~= s);
        lemma_changes_moved(*rebalance, s);
    }
    PendingChanges { entries }
}

/// Adds the merged changes to the index cache.
fn fill_cache(
    cache: &mut IndexCache,
    live: Atime,
    rebalance: &Option<RebalanceState>,
    changes: &PendingChanges,
)
    requires
        old(cache).wf(),
        *rebalance matches Some(r) ==> table_ok(r.map),
        forall|i: int|
            0 <= i < changes.entries@.len() ==> {
                let v = (#[trigger] changes.entries@[i]).1.spec_value();
                &&& located(v)
                &&& v.atime.0 >= live.0 ==> v.location is Some
            },
    ensures
        final(cache).wf(),
        final(cache).cap() == old(cache).cap(),
        final(cache)@ == cache_filled(
            old(cache)@,
            old(cache).cap(),
            live,
            *rebalance,
            changes.entries@,
        ),
{
    let ghost s0 = cache@;
    let ghost cap = cache.cap();
    let ghost c = changes.entries@;
    let mut i: usize = 0;
    assert(c.take(0) =~= Seq::<(IndexKey, PendingChange)>::empty());
    while i < changes.entries.len()
        invariant
            i <= c.len(),
            c == changes.entries@,
            *rebalance matches Some(r) ==> table_ok(r.map),
            forall|k: int|
                0 <= k < c.len() ==> {
                    let v = (#[trigger] c[k]).1.spec_value();
                    &&& located(v)
                    &&& v.atime.0 >= live.0 ==> v.location is Some
                },
            cache.wf(),
            cache.cap() == cap,
            cache@ == cache_filled(s0, cap, live, *rebalance, c.take(i as int)),
        decreases c.len() - i,
    {
        let (key, change) = changes.entries[i];
        let mut value = change.value();
        proof {
            assert(c.take(i + 1).drop_last() =~= c.take(i as int));
            assert(c.take(i + 1).last() == c[i as int]);
            assert(located(c[i as int].1.spec_value()));
        }
        if value.atime.0 >= live.0 {
            let place = match rebalance {
                Some(r) => r.remap(value.extent().unwrap()),
                None => value.location,
            };
            match place {
                Some(location) => {
                    value.set_location(Some(location));
                    cache.put(key, value);
                },
                None => {
                    cache.pop(key);
                },
            }
        }
        i += 1;
    }
    assert(c.take(i as int) =~= c);
}

impl ZettaCacheState {
    /// Updates the index cache for blocks that have been moved or have lost their place.
    pub fn apply_remaps(&mut self, remaps: &Vec<IndexEntry>)
        requires
            old(self).wf(),
        ensures
            final(self).wf(),
            *final(self) == (ZettaCacheState {
                index_cache: final(self).index_cache,
                ..*old(self)
            }),
            final(self).index_cache.cap() == old(self).index_cache.cap(),
            final(self).index_cache@ == cache_moved(old(self).index_cache@, remaps@),
    {
        let ghost a = *self;
        let mut i: usize = 0;
        assert(remaps@.take(0) =~= Seq::<IndexEntry>::empty());
        while i < remaps.len()
            invariant
                i <= remaps@.len(),
                self.wf(),
                *self == (ZettaCacheState { index_cache: self.index_cache, ..a }),
                self.index_cache.cap() == a.index_cache.cap(),
                self.index_cache@ == cache_moved(a.index_cache@, remaps@.take(i as int)),
            decreases remaps@.len() - i,
        {
            let entry = remaps[i];
            proof {
                assert(remaps@.take(i + 1).drop_last() =~= remaps@.take(i as int));
                assert(remaps@.take(i + 1).last() == remaps@[i as int]);
            }
            match entry.value.location() {
                Some(location) => self.index_cache.set_location(entry.key, location),
                None => self.index_cache.pop(entry.key),
            }
            i += 1;
        }
        assert(remaps@.take(i as int) =~= remaps@);
    }

    /// The merge is complete: the new index takes the place of the old one. Returns what is
    /// left of the merge; its logs can be freed.
    pub fn rotate_index(&mut self) -> (r: MergeState)
        requires
            old(self).wf(),
            old(self).merge is Some,
            changes_fit(old(self).merge->0.rebalance, old(self).pending_changes.entries@),
            forall|i: int|
                0 <= i < old(self).merge->0.old_pending_changes.entries@.len() ==> {
                    let v = (#[trigger] old(
                        self).merge->0.old_pending_changes.entries@[i]).1.spec_value();
                    v.atime.0 >= old(self).merge->0.eviction_cutoff.0 ==> v.location is Some
                },
            old(self).atime_histogram.phys.histogram@.len() + 10 <= usize::MAX,
        ensures
            final(self).wf(),
            r == old(self).merge->0,
            final(self).merge is None,
            *final(self) == (ZettaCacheState {
                merge: None,
                pending_changes: final(self).pending_changes,
                index_cache: final(self).index_cache,
                atime_histogram: final(self).atime_histogram,
                ..*old(self)
            }),
            final(self).pending_changes.entries@ == if r.rebalance is Some {
                changes_moved(r.rebalance, old(self).pending_changes.entries@)
            } else {
                old(self).pending_changes.entries@
            },
            // what is older than the cutoffs is no longer counted, or counted as evicted
            final(self).atime_histogram.phys.first_ghost == r.ghost_cutoff,
            final(self).atime_histogram.phys.first_live == r.eviction_cutoff,
            final(self).atime_histogram.phys.end() == old(self).atime_histogram.phys.end(),
            forall|t: int|
                t >= r.ghost_cutoff.0 ==> #[trigger] final(self).atime_histogram.phys.at(t)
                    == old(self).atime_histogram.phys.at(t),
            forall|t: int|
                t < r.ghost_cutoff.0 ==> #[trigger] final(self).atime_histogram.phys.at(t) == 0,
            final(self).index_cache.cap() == old(self).index_cache.cap(),
            final(self).index_cache@ == cache_filled(
                old(self).index_cache@,
                old(self).index_cache.cap(),
                r.eviction_cutoff,
                r.rebalance,
                r.old_pending_changes.entries@,
            ),
            // an insertion that was pending still is
            forall|i: int|
                0 <= i < old(self).pending_changes.entries@.len() && (#[trigger] old(self).pending_changes.entries@[i]).1 is Insert ==> final(self).pending_changes.entries@.contains(old(self).pending_changes.entries@[i]),
            // a merged change is cached with the place where its block is now
            forall|i: int|
                0 <= i < r.old_pending_changes.entries@.len() && is_live(
                    r,
                    #[trigger] r.old_pending_changes.entries@[i],
                ) && place_now(r, value_of(r.old_pending_changes.entries@[i].1)) is Some
                    && r.old_pending_changes.entries@.len() - i <= old(self).index_cache.cap()
                    ==> final(self).index_cache@.contains(
                    cached_change(r, r.old_pending_changes.entries@[i]),
                ),
    {
        let ghost a = *self;
        let merge = self.merge.take().unwrap();
        if merge.rebalance.is_some() {
            self.pending_changes = move_changes(&merge.rebalance, &self.pending_changes);
        }
        self.atime_histogram.reset_first(merge.ghost_cutoff);
        let ghost h1 = self.atime_histogram;
        self.atime_histogram.reset_first_live(merge.eviction_cutoff);
        proof {
            assert forall|t: int|
                t >= merge.ghost_cutoff.0 implies #[trigger] self.atime_histogram.phys.at(t)
                == a.atime_histogram.phys.at(t) by {
                assert(h1.phys.at(t) == a.atime_histogram.phys.at(t));
            }
            assert forall|t: int|
                t < merge.ghost_cutoff.0 implies #[trigger] self.atime_histogram.phys.at(t)
                == 0 by {
                assert(h1.phys.at(t) == 0);
            }
        }
        let live = self.atime_histogram.first_live();
        fill_cache(
            &mut self.index_cache,
            live,
            &merge.rebalance,
            &merge.old_pending_changes,
        );
        proof {
            let s = a.pending_changes.entries@;
            let c = merge.old_pending_changes.entries@;
            assert forall|i: int| 0 <= i < s.len() && (
            #[trigger] s[i]).1 is Insert implies self.pending_changes.entries@.contains(s[i]) by {
                assert(s[i].1.spec_value().location is Some);
                if merge.rebalance is Some {
                    law_changes_outlive_merge(merge, s, i);
                }
            }
            assert forall|i: int|
                0 <= i < c.len() && is_live(merge, #[trigger] c[i]) implies value_of(
                c[i].1,
            ).location is Some by {
                assert(c[i].1.spec_value() == value_of(c[i].1));
            }
            assert forall|i: int|
                0 <= i < c.len() && is_live(merge, #[trigger] c[i]) && place_now(
                    merge,
                    value_of(c[i].1),
                ) is Some && c.len() - i <= a.index_cache.cap() implies self.index_cache@.contains(
                cached_change(merge, c[i]),
            ) by {
                law_merged_is_cached(merge, a.index_cache@, a.index_cache.cap(), c, i);
            }
        }
        merge
    }
}

} // verus!
