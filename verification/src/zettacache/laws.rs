//! What holds of the cache as a whole.
use super::insertion::{
    change_of, logged_bytes, logged_changes, logged_end, replaced_bytes,
};
use super::lookup::current_value;
use super::opening::{indexed_at, opened_end, opened_ghost, OpenMerge};
use super::sizing::MergePlan;
use super::{is_counted, CacheSettings, LookupSource, ValidIndexValue, ZettaCacheState};
use crate::atime_histogram::AtimeHistogram;
use crate::base_types::{Atime, DiskLocation};
use crate::binary_index_tree::{lemma_suffix_less, lemma_suffix_nonneg};
use crate::index::run::IndexRun;
use crate::index::{IndexKey, IndexValue};
use crate::lru_cache::lemma_find;
use crate::merge::OperationLogEntry;
use crate::pending_changes::{
    change_bytes, lemma_key_at, lemma_net_changed, lemma_net_of_inserts, net_bytes, value_bytes,
    PendingChange, PendingChanges, UpdateAtime,
};
use vstd::prelude::*;

verus! {

/// A block that has been inserted is found, at the place that it was written to, unless blocks
/// that are accessed now are evicted already.
pub proof fn law_inserted_is_found(
    a: ZettaCacheState,
    key: IndexKey,
    location: DiskLocation,
    size: u32,
    b: ZettaCacheState,
)
    requires
        a.inserted(key, location, size, b),
        a.live_cutoff().0 <= a.atime.0,
    ensures
        b.remembered(key) == Some(a.new_value(location, size)),
        b.valid(b.remembered(key)->0) == Some(ValidIndexValue(a.new_value(location, size))),
        a.new_value(location, size).location == Some(location),
{
}

/// Other blocks are found as before.
pub proof fn law_insert_keeps_others(
    a: ZettaCacheState,
    key: IndexKey,
    location: DiskLocation,
    size: u32,
    b: ZettaCacheState,
    other: IndexKey,
)
    requires
        a.inserted(key, location, size, b),
        other != key,
    ensures
        b.remembered(other) == a.remembered(other),
        forall|v: IndexValue| #[trigger] b.valid(v) == a.valid(v),
{
}

/// The changes have the same inserted blocks as the log, with the same size at the same place.
/// The atimes can differ: an access is not logged.
pub open spec fn same_blocks(
    changes: Map<IndexKey, PendingChange>,
    logged: Map<IndexKey, PendingChange>,
) -> bool {
    forall|k: IndexKey|
        {
            &&& #[trigger] logged.contains_key(k) <==> changes.contains_key(k) && changes[k]
                is Insert
            &&& logged.contains_key(k) ==> {
                &&& logged[k].spec_value().location == changes[k].spec_value().location
                &&& logged[k].spec_value().sectors == changes[k].spec_value().sectors
            }
        }
}

/// An insertion is logged: what is read back from the log after it are the blocks that have been
/// inserted.
pub proof fn law_insert_is_logged(
    a: ZettaCacheState,
    key: IndexKey,
    location: DiskLocation,
    size: u32,
    b: ZettaCacheState,
    log: Seq<OperationLogEntry>,
)
    requires
        a.inserted(key, location, size, b),
        same_blocks(a.pending_changes@, logged_changes(log)),
    ensures
        same_blocks(
            b.pending_changes@,
            logged_changes(
                log.push(OperationLogEntry::Insert(key, a.new_value(location, size))),
            ),
        ),
{
    let value = a.new_value(location, size);
    let e = OperationLogEntry::Insert(key, value);
    assert(log.push(e).drop_last() =~= log);
    let before = logged_changes(log);
    let after = logged_changes(log.push(e));
    assert(after == before.insert(key, PendingChange::Insert(value)));
    assert forall|k: IndexKey| {
        &&& #[trigger] after.contains_key(k) <==> b.pending_changes@.contains_key(k)
            && b.pending_changes@[k] is Insert
        &&& after.contains_key(k) ==> {
            &&& after[k].spec_value().location == b.pending_changes@[k].spec_value().location
            &&& after[k].spec_value().sectors == b.pending_changes@[k].spec_value().sectors
        }
    } by {
        if k != key {
            assert(before.contains_key(k) <==> after.contains_key(k));
        }
    }
}

/// An access changes no block, only atimes: the log is still right.
pub proof fn law_access_keeps_log(
    a: ZettaCacheState,
    key: IndexKey,
    value: ValidIndexValue,
    source: LookupSource,
    b: ZettaCacheState,
    log: Seq<OperationLogEntry>,
)
    requires
        a.accessed(key, value, source, b),
        value.0 == current_value(a.pending_changes, key, value.0),
        same_blocks(a.pending_changes@, logged_changes(log)),
    ensures
        same_blocks(b.pending_changes@, logged_changes(log)),
{
    let l = logged_changes(log);
    let before = a.pending_changes@;
    let after = b.pending_changes@;
    assert forall|k: IndexKey| {
        &&& #[trigger] l.contains_key(k) <==> after.contains_key(k) && after[k] is Insert
        &&& l.contains_key(k) ==> {
            &&& l[k].spec_value().location == after[k].spec_value().location
            &&& l[k].spec_value().sectors == after[k].spec_value().sectors
        }
    } by {
        assert(l.contains_key(k) <==> before.contains_key(k) && before[k] is Insert);
    }
}

/// A block that has been inserted since the last merge is found after the cache is opened again,
/// with the changes that are read from the log: it has the same size, at the same place.
pub proof fn law_reopened_has_blocks(
    a: ZettaCacheState,
    b: ZettaCacheState,
    log: Seq<OperationLogEntry>,
    key: IndexKey,
)
    requires
        same_blocks(a.pending_changes@, logged_changes(log)),
        b.pending_changes@ == logged_changes(log),
        a.pending_changes@.contains_key(key),
        a.pending_changes@[key] is Insert,
    ensures
        a.remembered(key) is Some,
        b.remembered(key) is Some,
        b.remembered(key)->0.location == a.remembered(key)->0.location,
        b.remembered(key)->0.spec_size() == a.remembered(key)->0.spec_size(),
{
    assert(logged_changes(log).contains_key(key));
}

/// A block that has been accessed is found where it was, and other blocks as before. If the
/// access is remembered the block is found as one that was accessed now.
pub proof fn law_accessed_is_found(
    a: ZettaCacheState,
    key: IndexKey,
    value: ValidIndexValue,
    source: LookupSource,
    b: ZettaCacheState,
)
    requires
        a.accessed(key, value, source, b),
        value.0 == current_value(a.pending_changes, key, value.0),
    ensures
        b.pending_changes@.contains_key(key) ==> b.remembered(key) == Some(a.touched(value.0)),
        !b.pending_changes@.contains_key(key) ==> b.remembered(key) == a.remembered(key),
        a.touched(value.0).location == value.0.location,
        a.touched(value.0).spec_size() == value.0.spec_size(),
        forall|other: IndexKey|
            other != key ==> #[trigger] b.remembered(other) == a.remembered(other),
        forall|v: IndexValue| #[trigger] b.valid(v) == a.valid(v),
{
}

/// The histogram counts what the index has, as `indexed` says for each atime, and the changes.
pub open spec fn counts_all(s: ZettaCacheState, indexed: spec_fn(int) -> int) -> bool {
    forall|t: int|
        #[trigger] s.atime_histogram.phys.at(t) == indexed(t) + net_bytes(
            s.pending_changes.entries@,
            t,
        ) + match s.merge {
            Some(m) => net_bytes(m.old_pending_changes.entries@, t),
            None => 0,
        }
}

/// After an insertion the histogram still counts what the index has, and the changes.
pub proof fn law_insert_is_counted(
    a: ZettaCacheState,
    key: IndexKey,
    location: DiskLocation,
    size: u32,
    b: ZettaCacheState,
    indexed: spec_fn(int) -> int,
)
    requires
        a.wf(),
        b.wf(),
        a.inserted(key, location, size, b),
        counts_all(a, indexed),
    ensures
        counts_all(b, indexed),
{
    let change = PendingChange::Insert(a.new_value(location, size));
    assert forall|t: int|
        #[trigger] b.atime_histogram.phys.at(t) == indexed(t) + net_bytes(
            b.pending_changes.entries@,
            t,
        ) + match b.merge {
            Some(m) => net_bytes(m.old_pending_changes.entries@, t),
            None => 0,
        } by {
        assert(a.atime_histogram.phys.at(t) == indexed(t) + net_bytes(
            a.pending_changes.entries@,
            t,
        ) + match a.merge {
            Some(m) => net_bytes(m.old_pending_changes.entries@, t),
            None => 0,
        });
        lemma_net_changed(a.pending_changes, b.pending_changes, key, change, t);
    }
}

/// After an access that is remembered the histogram still counts what the index has, and the
/// changes.
pub proof fn law_access_is_counted(
    a: ZettaCacheState,
    key: IndexKey,
    value: ValidIndexValue,
    source: LookupSource,
    b: ZettaCacheState,
    indexed: spec_fn(int) -> int,
)
    requires
        a.wf(),
        b.wf(),
        a.accessed(key, value, source, b),
        value.0 == current_value(a.pending_changes, key, value.0),
        b.pending_changes@.contains_key(key),
        counts_all(a, indexed),
    ensures
        counts_all(b, indexed),
{
    assert forall|t: int|
        #[trigger] b.atime_histogram.phys.at(t) == indexed(t) + net_bytes(
            b.pending_changes.entries@,
            t,
        ) + match b.merge {
            Some(m) => net_bytes(m.old_pending_changes.entries@, t),
            None => 0,
        } by {
        assert(a.atime_histogram.phys.at(t) == indexed(t) + net_bytes(
            a.pending_changes.entries@,
            t,
        ) + match a.merge {
            Some(m) => net_bytes(m.old_pending_changes.entries@, t),
            None => 0,
        });
        lemma_net_changed(
            a.pending_changes,
            b.pending_changes,
            key,
            b.pending_changes@[key],
            t,
        );
    }
}

/// When a merge starts, the changes are counted as those that are merged.
pub proof fn law_merge_start_is_counted(
    a: ZettaCacheState,
    b: ZettaCacheState,
    indexed: spec_fn(int) -> int,
)
    requires
        a.merge is None,
        b.merge is Some,
        b.merge->0.old_pending_changes == a.pending_changes,
        b.pending_changes.entries@.len() == 0,
        b.atime_histogram == a.atime_histogram,
        counts_all(a, indexed),
    ensures
        counts_all(b, indexed),
{
    assert forall|t: int|
        #[trigger] b.atime_histogram.phys.at(t) == indexed(t) + net_bytes(
            b.pending_changes.entries@,
            t,
        ) + net_bytes(b.merge->0.old_pending_changes.entries@, t) by {
        assert(a.atime_histogram.phys.at(t) == indexed(t) + net_bytes(
            a.pending_changes.entries@,
            t,
        ));
    }
}

/// A histogram of what the index has, to which the blocks of the log have been added, counts
/// these as changes.
pub proof fn law_loaded_is_counted(entries: Seq<OperationLogEntry>, r: PendingChanges, t: int)
    requires
        r.wf(),
        r@ == logged_changes(entries),
    ensures
        net_bytes(r.entries@, t) == change_bytes(r.entries@, t),
{
    lemma_only_inserts(entries);
    assert forall|i: int| 0 <= i < r.entries@.len() implies (#[trigger] r.entries@[i]).1
        is Insert by {
        lemma_key_at(r.entries@, i);
        assert(r@.contains_key(r.entries@[i].0));
        assert(r@[r.entries@[i].0] == r.entries@[i].1);
    }
    lemma_net_of_inserts(r.entries@, t);
}

/// Only insertions are logged.
proof fn lemma_only_inserts(entries: Seq<OperationLogEntry>)
    ensures
        forall|k: IndexKey|
            #[trigger] logged_changes(entries).contains_key(k) ==> logged_changes(entries)[k]
                is Insert,
    decreases entries.len(),
{
    if entries.len() > 0 {
        lemma_only_inserts(entries.drop_last());
    }
}

/// A block whose last access is at or behind the cutoff is found as it is, whatever the time is
/// now. One that was accessed before the cutoff is not found. While a merge goes on the cutoff is
/// what the merge evicts, and else where the live atimes begin.
pub proof fn law_recent_is_found(s: ZettaCacheState, value: IndexValue, cutoff: Atime)
    requires
        s.merge matches Some(m) ==> cutoff == m.eviction_cutoff,
        s.merge is None ==> cutoff == s.atime_histogram.phys.first_live,
    ensures
        value.atime.0 >= cutoff.0 ==> s.valid(value) == Some(ValidIndexValue(value)),
        value.atime.0 < cutoff.0 ==> s.valid(value) is None,
{
}

/// What is found does not depend on the time, on the changes, or on what is cached.
pub proof fn law_found_by_atime_alone(a: ZettaCacheState, b: ZettaCacheState, value: IndexValue)
    requires
        a.merge == b.merge,
        a.atime_histogram.phys.first_live == b.atime_histogram.phys.first_live,
    ensures
        a.valid(value) == b.valid(value),
{
}

/// A block that was accessed later than one that is found is found too.
pub proof fn law_later_is_found(s: ZettaCacheState, v: IndexValue, w: IndexValue)
    requires
        s.valid(v) is Some,
        v.atime.0 <= w.atime.0,
    ensures
        s.valid(w) == Some(ValidIndexValue(w)),
{
}

/// A change counts more than what is being merged, and that more than what is cached.
pub proof fn law_newest_is_remembered(s: ZettaCacheState, key: IndexKey, v: IndexValue, t: Atime)
    ensures
        s.pending_changes@.contains_pair(key, PendingChange::Insert(v)) ==> s.remembered(key)
            == Some(v),
        s.pending_changes@.contains_pair(
            key,
            PendingChange::UpdateAtime(UpdateAtime(v, t)),
        ) ==> s.remembered(key) == Some(v),
        !s.pending_changes@.contains_key(key) ==> (s.merge matches Some(m) ==> {
            &&& m.old_pending_changes@.contains_pair(key, PendingChange::Insert(v))
                ==> s.remembered(key) == Some(v)
            &&& m.old_pending_changes@.contains_pair(
                key,
                PendingChange::UpdateAtime(UpdateAtime(v, t)),
            ) ==> s.remembered(key) == Some(v)
        }),
{
}

/// A key that has no change is remembered exactly if it is cached, with the value that is cached.
pub proof fn law_cached_is_remembered(s: ZettaCacheState, key: IndexKey)
    requires
        s.index_cache.wf(),
        !s.pending_changes@.contains_key(key),
        s.merge matches Some(m) ==> !m.old_pending_changes@.contains_key(key),
    ensures
        forall|i: int|
            0 <= i < s.index_cache@.len() && (#[trigger] s.index_cache@[i]).0 == (
                key.id.0,
                key.block.0,
            ) ==> {
                let (raw, sectors, atime) = s.index_cache@[i].1;
                &&& s.remembered(key) matches Some(v)
                &&& v.sectors == sectors
                &&& v.atime.0 == atime
                &&& raw != 0 ==> v.location == Some(DiskLocation { raw })
            },
        (forall|i: int|
            0 <= i < s.index_cache@.len() ==> (#[trigger] s.index_cache@[i]).0 != (
                key.id.0,
                key.block.0,
            )) ==> s.remembered(key) is None,
{
    assert forall|i: int|
        0 <= i < s.index_cache@.len() && (#[trigger] s.index_cache@[i]).0 == (
            key.id.0,
            key.block.0,
        ) implies {
        let (raw, sectors, atime) = s.index_cache@[i].1;
        &&& s.remembered(key) matches Some(v)
        &&& v.sectors == sectors
        &&& v.atime.0 == atime
        &&& raw != 0 ==> v.location == Some(DiskLocation { raw })
    } by {
        lemma_find(s.index_cache@, i);
    }
}

/// The index is believed only where there is no change: a block that was inserted or accessed
/// since is found as the change has it.
pub proof fn law_index_comes_last(
    changes: PendingChanges,
    key: IndexKey,
    indexed: IndexValue,
    v: IndexValue,
    t: Atime,
)
    ensures
        !changes@.contains_key(key) ==> current_value(changes, key, indexed) == indexed,
        changes@.contains_pair(key, PendingChange::Insert(v)) ==> current_value(
            changes,
            key,
            indexed,
        ) == v,
        changes@.contains_pair(key, PendingChange::UpdateAtime(UpdateAtime(v, t)))
            ==> current_value(changes, key, indexed) == v,
{
}

/// A block that is inserted has the place and the size that were given, and the time of now.
pub proof fn law_inserted_value(
    a: ZettaCacheState,
    key: IndexKey,
    location: DiskLocation,
    size: u32,
    b: ZettaCacheState,
)
    requires
        a.inserted(key, location, size, b),
        size % 512 == 0,
        size / 512 <= u16::MAX,
    ensures
        b.pending_changes@.contains_key(key),
        b.pending_changes@[key] matches PendingChange::Insert(v) && v.location == Some(location)
            && v.sectors * 512 == size && v.atime == a.atime,
        forall|k: IndexKey|
            k != key ==> (#[trigger] b.pending_changes@.contains_key(k)
                <==> a.pending_changes@.contains_key(k)),
        forall|k: IndexKey|
            k != key && #[trigger] b.pending_changes@.contains_key(k) ==> b.pending_changes@[k]
                == a.pending_changes@[k],
        b.operation_log.pending_entries@.len() == a.operation_log.pending_entries@.len() + 1,
        b.operation_log.pending_entries@.last() == OperationLogEntry::Insert(
            key,
            b.pending_changes@[key].spec_value(),
        ),
{
}

/// An access that is remembered makes the block one that was accessed now, at the place and of
/// the size that it had. A block that was inserted stays an insertion, so that it is not lost; of
/// one that the index has, the atime that the index has is kept.
pub proof fn law_access_renews(
    a: ZettaCacheState,
    key: IndexKey,
    value: ValidIndexValue,
    source: LookupSource,
    b: ZettaCacheState,
)
    requires
        a.accessed(key, value, source, b),
        a.pending_changes@.contains_key(key) || a.pending_changes.entries@.len() + match a.merge {
            Some(m) => m.old_pending_changes.entries@.len(),
            None => 0,
        } < a.pending_changes_cap,
    ensures
        b.pending_changes@.contains_key(key),
        ({
            let now = IndexValue {
                location: value.0.location,
                sectors: value.0.sectors,
                atime: a.atime,
            };
            if a.pending_changes@.contains_key(key) {
                match a.pending_changes@[key] {
                    PendingChange::Insert(_) => b.pending_changes@[key] == PendingChange::Insert(
                        now,
                    ),
                    PendingChange::UpdateAtime(u) => b.pending_changes@[key]
                        == PendingChange::UpdateAtime(UpdateAtime(now, u.1)),
                }
            } else {
                b.pending_changes@[key] == PendingChange::UpdateAtime(
                    UpdateAtime(now, value.0.atime),
                )
            }
        }),
        b.operation_log == a.operation_log,
{
}

/// Without room an access of a block that has no change leaves the changes as they are.
pub proof fn law_access_without_room(
    a: ZettaCacheState,
    key: IndexKey,
    value: ValidIndexValue,
    source: LookupSource,
    b: ZettaCacheState,
)
    requires
        a.accessed(key, value, source, b),
        !a.pending_changes@.contains_key(key),
        a.pending_changes.entries@.len() + match a.merge {
            Some(m) => m.old_pending_changes.entries@.len(),
            None => 0,
        } >= a.pending_changes_cap,
    ensures
        b.pending_changes@ == a.pending_changes@,
{
}

/// The bytes of a block that is accessed are counted for now, and no longer for when it was
/// accessed before; all others are counted as before.
pub proof fn law_access_moves_bytes(
    a: ZettaCacheState,
    key: IndexKey,
    value: ValidIndexValue,
    source: LookupSource,
    b: ZettaCacheState,
)
    requires
        a.accessed(key, value, source, b),
    ensures
        value.0.atime == a.atime ==> forall|t: int|
            #[trigger] b.atime_histogram.phys.at(t) == a.atime_histogram.phys.at(t),
        value.0.atime != a.atime ==> {
            let h = a.atime_histogram.phys;
            let g = b.atime_histogram.phys;
            let before = value.0.atime.0 as int;
            let now = a.atime.0 as int;
            &&& g.at(before) == h.at(before) - value.0.sectors * 512
            &&& g.at(now) == h.at(now) + value.0.sectors * 512
            &&& forall|t: int| t != before && t != now ==> #[trigger] g.at(t) == h.at(t)
        },
{
}

/// A read of a block that is found is one more hit, in a cache that is as large as what was
/// accessed since, with the metadata. Nothing else is counted.
pub proof fn law_read_is_counted(
    a: ZettaCacheState,
    key: IndexKey,
    value: ValidIndexValue,
    source: LookupSource,
    b: ZettaCacheState,
    bucket: int,
)
    requires
        a.wf(),
        a.can_count(),
        a.accessed(key, value, source, b),
        a.atime_histogram.phys.first_ghost.0 <= value.0.atime.0,
        bucket * a.size_histogram.bucket_size <= a.atime_histogram.phys.from(
            value.0.atime.0 as int,
        ) + a.size_histogram.meta_overhead < (bucket + 1) * a.size_histogram.bucket_size,
    ensures
        b.size_histogram.ghost_histogram == a.size_histogram.ghost_histogram,
        b.size_histogram.live_histogram@.len() == a.size_histogram.live_histogram@.len(),
        forall|i: int|
            0 <= i < a.size_histogram.live_histogram@.len() ==> #[trigger] b.size_histogram.live_histogram@[i]
                == a.size_histogram.live_histogram@[i] + if i == bucket && source
                == LookupSource::Read {
                1int
            } else {
                0int
            },
{
    let h = a.atime_histogram.phys;
    let z = a.size_histogram.bucket_size as int;
    let x = h.from(value.0.atime.0 as int) + a.size_histogram.meta_overhead;
    lemma_suffix_less(h.histogram@, 0, value.0.atime.0 - h.first_ghost.0);
    lemma_suffix_nonneg(h.histogram@, value.0.atime.0 - h.first_ghost.0);
    lemma_bucket(x, z, bucket);
}

proof fn lemma_bucket(x: int, z: int, bucket: int)
    requires
        z > 0,
        bucket * z <= x < (bucket + 1) * z,
    ensures
        x / z == bucket,
{
    assert(x / z == bucket) by (nonlinear_arith)
        requires
            z > 0,
            bucket * z <= x < (bucket + 1) * z,
    ;
}

/// A read of a block that has been evicted but is remembered is one more hit of a ghost, in a
/// cache that would have kept it. Other lookups count nothing, and so do blocks that are in the
/// cache or that are forgotten.
pub proof fn law_ghost_is_counted(
    s: ZettaCacheState,
    value: IndexValue,
    source: LookupSource,
    live: Atime,
    ghost_from: Atime,
    bucket: int,
)
    requires
        s.wf(),
        s.can_count(),
        s.merge matches Some(m) ==> live == m.eviction_cutoff && ghost_from == m.ghost_cutoff,
        s.merge is None ==> live == s.atime_histogram.phys.first_live && ghost_from
            == s.atime_histogram.phys.first_ghost,
        s.atime_histogram.phys.first_ghost.0 <= value.atime.0,
        bucket * s.size_histogram.bucket_size <= s.atime_histogram.phys.from(
            value.atime.0 as int,
        ) + s.size_histogram.meta_overhead < (bucket + 1) * s.size_histogram.bucket_size,
    ensures
        ({
            let h = s.size_histogram.ghost_histogram@;
            let g = s.ghost_counted(value, source);
            let is_ghost = ghost_from.0 <= value.atime.0 && value.atime.0 < live.0;
            &&& g.len() == h.len()
            &&& forall|i: int|
                0 <= i < h.len() ==> #[trigger] g[i] == h[i] + if i == bucket && is_ghost
                    && source == LookupSource::Read {
                    1int
                } else {
                    0int
                }
        }),
{
    let h = s.atime_histogram.phys;
    let x = h.from(value.atime.0 as int) + s.size_histogram.meta_overhead;
    lemma_suffix_less(h.histogram@, 0, value.atime.0 - h.first_ghost.0);
    lemma_suffix_nonneg(h.histogram@, value.atime.0 - h.first_ghost.0);
    lemma_bucket(x, s.size_histogram.bucket_size as int, bucket);
}

/// A merge is planned whenever there are at least as many changes as are to start one, or the
/// cache is at least as full as the high water mark, or slabs are to be emptied; and never
/// otherwise.
pub proof fn law_reasons_for_a_merge(
    s: ZettaCacheState,
    size: int,
    available: int,
    rebalance_needed: bool,
    settings: CacheSettings,
)
    ensures
        s.pending_changes.entries@.len() >= s.pending_changes_trigger ==> s.merge_needed(
            size,
            available,
            rebalance_needed,
            settings,
        ),
        size - available >= (size / 100) * settings.high_water_cache_size_pct ==> s.merge_needed(
            size,
            available,
            rebalance_needed,
            settings,
        ),
        rebalance_needed ==> s.merge_needed(size, available, rebalance_needed, settings),
        s.merge_needed(size, available, rebalance_needed, settings) ==> rebalance_needed
            || s.pending_changes.entries@.len() >= s.pending_changes_trigger || size - available
            >= (size / 100) * settings.high_water_cache_size_pct,
{
}

/// A reason for a merge does not go away when there are more changes, or when the cache is fuller.
pub proof fn law_reasons_stay(
    a: ZettaCacheState,
    b: ZettaCacheState,
    size: int,
    available: int,
    less: int,
    rebalance_needed: bool,
    settings: CacheSettings,
)
    requires
        a.merge_needed(size, available, rebalance_needed, settings),
        b.pending_changes_trigger == a.pending_changes_trigger,
        b.pending_changes.entries@.len() >= a.pending_changes.entries@.len(),
        less <= available,
    ensures
        b.merge_needed(size, less, rebalance_needed, settings),
{
}

/// What a merge evicts is enough, and not more than enough: without the blocks that were last
/// accessed before the cutoff the cache is not beyond its target size, unless everything goes,
/// and with any earlier cutoff it would be. Nothing is evicted from a cache that is not beyond
/// it.
pub proof fn law_eviction_reaches_target(
    s: ZettaCacheState,
    size: int,
    available: int,
    plan: MergePlan,
    settings: CacheSettings,
)
    requires
        s.planned(size, available, plan, settings),
    ensures
        ({
            let h = s.atime_histogram.phys;
            let used = size - available;
            let target = (size / 100) * settings.target_cache_size_pct;
            let first = h.first_live.0 as int;
            let cutoff = plan.eviction_atime.0 as int;
            &&& used <= target ==> cutoff == first
            &&& used > target && cutoff < h.end() ==> used - (h.from(first) - h.from(cutoff))
                <= target
            &&& used > target ==> cutoff >= first && forall|t: int|
                first <= t < cutoff ==> used - (h.from(first) - #[trigger] h.from(t)) > target
        }),
{
}

/// What a merge forgets is enough, and not more than enough: the ghosts that stay, with those
/// that the merge makes, are not beyond the size that is remembered, unless all old ones go; and
/// with any earlier cutoff they would be.
pub proof fn law_forgetting_reaches_target(
    s: ZettaCacheState,
    size: int,
    available: int,
    plan: MergePlan,
    settings: CacheSettings,
)
    requires
        s.planned(size, available, plan, settings),
        s.atime_histogram.phys.first_ghost.0 <= s.atime_histogram.phys.first_live.0,
        s.atime_histogram.phys.first_live.0 <= s.atime_histogram.phys.end(),
    ensures
        ({
            let h = s.atime_histogram.phys;
            let used = size - available;
            let target = (size / 100) * settings.target_cache_size_pct;
            let made = if used > target {
                used - target
            } else {
                0
            };
            let most = (size / 100) * settings.ghost_cache_size_pct;
            let live = h.first_live.0 as int;
            let first = h.first_ghost.0 as int;
            let cutoff = plan.ghost_atime.0 as int;
            &&& first <= cutoff <= live
            &&& h.from(first) - h.from(live) + made <= most ==> cutoff == first
            &&& cutoff < live ==> h.from(cutoff) - h.from(live) + made <= most
            &&& forall|t: int|
                first <= t < cutoff ==> #[trigger] h.from(t) - h.from(live) + made > most
        }),
{
}

/// An insertion counts the bytes of the block for now. If it replaces an insertion, the bytes of
/// that are no longer counted. If it replaces an access, the bytes of the block that is in the
/// index are again counted for when that was accessed before. All else stays.
pub proof fn law_insert_counts_bytes(
    a: ZettaCacheState,
    key: IndexKey,
    location: DiskLocation,
    size: u32,
    b: ZettaCacheState,
    t: int,
)
    requires
        a.inserted(key, location, size, b),
        size % 512 == 0,
        size / 512 <= u16::MAX,
    ensures
        ({
            let before = a.atime_histogram.phys.at(t);
            let after = b.atime_histogram.phys.at(t);
            let new = if t == a.atime.0 {
                size as int
            } else {
                0
            };
            if !a.pending_changes@.contains_key(key) {
                after == before + new
            } else {
                match a.pending_changes@[key] {
                    PendingChange::Insert(v) => after == before + new - if t == v.atime.0 {
                        v.sectors * 512
                    } else {
                        0
                    },
                    PendingChange::UpdateAtime(u) => after == before + new - (if t
                        == u.0.atime.0 {
                        u.0.sectors * 512
                    } else {
                        0
                    }) + if t == u.1.0 {
                        u.0.sectors * 512
                    } else {
                        0
                    },
                }
            }
        }),
{
    let change = change_of(a.pending_changes, key);
    assert(b.atime_histogram.phys.at(t) == a.atime_histogram.phys.at(t) + value_bytes(
        a.new_value(location, size),
        t,
    ) + replaced_bytes(change, t));
}

/// Of several insertions of a key the log stands for the last one, and it stands for nothing that
/// was not inserted.
pub proof fn law_last_logged_counts(entries: Seq<OperationLogEntry>, i: int)
    requires
        0 <= i < entries.len(),
        forall|j: int|
            i < j < entries.len() ==> (#[trigger] entries[j])->Insert_0 != entries[i]->Insert_0,
    ensures
        logged_changes(entries).contains_pair(
            entries[i]->Insert_0,
            PendingChange::Insert(entries[i]->Insert_1),
        ),
        forall|k: IndexKey| #[trigger]
            logged_changes(entries).contains_key(k) ==> exists|j: int|
                0 <= j < entries.len() && (#[trigger] entries[j])->Insert_0 == k,
    decreases entries.len(),
{
    lemma_logged_keys(entries);
    let p = entries.drop_last();
    if i < entries.len() - 1 {
        assert(p[i] == entries[i]);
        assert forall|j: int| i < j < p.len() implies (#[trigger] p[j])->Insert_0
            != p[i]->Insert_0 by {
            assert(p[j] == entries[j]);
        }
        law_last_logged_counts(p, i);
        assert(entries[entries.len() - 1]->Insert_0 != entries[i]->Insert_0);
    }
}

proof fn lemma_logged_keys(entries: Seq<OperationLogEntry>)
    ensures
        forall|k: IndexKey| #[trigger]
            logged_changes(entries).contains_key(k) ==> exists|j: int|
                0 <= j < entries.len() && (#[trigger] entries[j])->Insert_0 == k,
    decreases entries.len(),
{
    if entries.len() > 0 {
        let p = entries.drop_last();
        lemma_logged_keys(p);
        assert forall|k: IndexKey| #[trigger] logged_changes(entries).contains_key(
            k,
        ) implies exists|j: int|
            0 <= j < entries.len() && (#[trigger] entries[j])->Insert_0 == k by {
            if logged_changes(p).contains_key(k) {
                let j = choose|j: int| 0 <= j < p.len() && (#[trigger] p[j])->Insert_0 == k;
                assert(entries[j] == p[j]);
            } else {
                assert(entries[entries.len() - 1]->Insert_0 == k);
            }
        }
    }
}

/// The atimes of the histogram go as far as those of the blocks that were logged, and not further
/// than those and what there was.
pub proof fn law_logged_end(entries: Seq<OperationLogEntry>, end: int)
    ensures
        logged_end(entries, end) >= end,
        forall|i: int|
            0 <= i < entries.len() ==> (#[trigger] entries[i])->Insert_1.atime.0 < logged_end(
                entries,
                end,
            ),
        logged_end(entries, end) == end || exists|i: int|
            0 <= i < entries.len() && (#[trigger] entries[i])->Insert_1.atime.0 + 1 == logged_end(
                entries,
                end,
            ),
    decreases entries.len(),
{
    if entries.len() > 0 {
        let p = entries.drop_last();
        let n = entries.len() - 1;
        law_logged_end(p, end);
        assert forall|i: int| 0 <= i < entries.len() implies (
        #[trigger] entries[i])->Insert_1.atime.0 < logged_end(entries, end) by {
            if i < n {
                assert(p[i] == entries[i]);
            }
        }
        assert(entries[n] == entries.last());
        if logged_end(entries, end) == logged_end(p, end) && logged_end(p, end) != end {
            let i = choose|i: int|
                0 <= i < p.len() && (#[trigger] p[i])->Insert_1.atime.0 + 1 == logged_end(p, end);
            assert(entries[i] == p[i]);
        }
    }
}

/// The bytes of what was logged are those of each block.
pub proof fn law_logged_bytes(entries: Seq<OperationLogEntry>, key: IndexKey, v: IndexValue)
    ensures
        logged_bytes(entries.push(OperationLogEntry::Insert(key, v))) == logged_bytes(entries)
            + v.sectors * 512,
        logged_bytes(Seq::empty()) == 0,
{
    assert(entries.push(OperationLogEntry::Insert(key, v)).drop_last() =~= entries);
}

/// A histogram that is put together from two indexes starts with the earlier one of them, and
/// goes as far as the later one.
pub proof fn law_opened_range(
    old_index: IndexRun,
    merge: Option<OpenMerge>,
    entries: Seq<OperationLogEntry>,
)
    ensures
        opened_ghost(old_index, merge) <= old_index.atime_histogram_phys.first_ghost.0,
        opened_end(old_index, merge, entries) >= old_index.atime_histogram_phys.end(),
        merge matches Some(m) ==> {
            &&& opened_ghost(old_index, merge) <= m.new_index.atime_histogram_phys.first_ghost.0
            &&& opened_ghost(old_index, merge) == old_index.atime_histogram_phys.first_ghost.0
                || opened_ghost(old_index, merge)
                == m.new_index.atime_histogram_phys.first_ghost.0
            &&& opened_end(old_index, merge, entries) >= m.new_index.atime_histogram_phys.end()
            &&& forall|i: int|
                0 <= i < m.entries@.len() ==> (#[trigger] m.entries@[i])->Insert_1.atime.0
                    < opened_end(old_index, merge, entries)
        },
        merge is None ==> opened_ghost(old_index, merge)
            == old_index.atime_histogram_phys.first_ghost.0,
        forall|i: int|
            0 <= i < entries.len() ==> (#[trigger] entries[i])->Insert_1.atime.0 < opened_end(
                old_index,
                merge,
                entries,
            ),
{
    let end = old_index.atime_histogram_phys.end();
    match merge {
        Some(m) => {
            let both = if m.new_index.atime_histogram_phys.end() > end {
                m.new_index.atime_histogram_phys.end()
            } else {
                end
            };
            law_logged_end(m.entries@, both);
            law_logged_end(entries, logged_end(m.entries@, both));
        },
        None => law_logged_end(entries, end),
    }
}

/// What two indexes count together is what each counts.
pub proof fn law_indexed_at(old_index: IndexRun, merge: Option<OpenMerge>, t: int)
    ensures
        merge is None ==> indexed_at(old_index, merge, t) == old_index.atime_histogram_phys.at(t),
        merge matches Some(m) ==> indexed_at(old_index, merge, t)
            - m.new_index.atime_histogram_phys.at(t) == old_index.atime_histogram_phys.at(t),
{
}

/// The changes that are being merged take up room as well.
pub proof fn law_pending_len(s: ZettaCacheState)
    ensures
        s.merge matches Some(m) ==> s.spec_pending_len() == s.pending_changes.entries@.len()
            + m.old_pending_changes.entries@.len(),
        s.merge is None ==> s.spec_pending_len() == s.pending_changes.entries@.len(),
{
}

/// An access changes neither what is cached, nor what is being merged, nor what is logged, nor
/// the time. The histogram goes as far as now.
pub proof fn law_access_keeps_rest(
    a: ZettaCacheState,
    key: IndexKey,
    value: ValidIndexValue,
    source: LookupSource,
    b: ZettaCacheState,
)
    requires
        a.accessed(key, value, source, b),
    ensures
        b.index_cache == a.index_cache,
        b.merge == a.merge,
        b.operation_log == a.operation_log,
        b.atime == a.atime,
        b.atime_histogram.phys.first_live == a.atime_histogram.phys.first_live,
        b.atime_histogram.phys.first_ghost == a.atime_histogram.phys.first_ghost,
        b.atime_histogram.phys.end() >= a.atime_histogram.phys.end(),
        b.atime_histogram.phys.end() > a.atime.0,
        b.atime_histogram.phys.end() == a.atime_histogram.phys.end()
            || b.atime_histogram.phys.end() == a.atime.0 + 1,
        forall|k: IndexKey|
            k != key ==> (#[trigger] b.pending_changes@.contains_key(k)
                <==> a.pending_changes@.contains_key(k)),
        forall|k: IndexKey|
            k != key && #[trigger] b.pending_changes@.contains_key(k) ==> b.pending_changes@[k]
                == a.pending_changes@[k],
{
}

/// An insertion changes neither what is cached, nor what is being merged, nor the hits, nor the
/// time.
pub proof fn law_insert_keeps_rest(
    a: ZettaCacheState,
    key: IndexKey,
    location: DiskLocation,
    size: u32,
    b: ZettaCacheState,
)
    requires
        a.inserted(key, location, size, b),
    ensures
        b.index_cache == a.index_cache,
        b.merge == a.merge,
        b.size_histogram == a.size_histogram,
        b.atime == a.atime,
        b.atime_histogram.phys.first_live == a.atime_histogram.phys.first_live,
        b.atime_histogram.phys.first_ghost == a.atime_histogram.phys.first_ghost,
        b.atime_histogram.phys.end() >= a.atime_histogram.phys.end(),
        b.atime_histogram.phys.end() > a.atime.0,
        forall|i: int|
            0 <= i < a.operation_log.pending_entries@.len()
                ==> #[trigger] b.operation_log.pending_entries@[i]
                == a.operation_log.pending_entries@[i],
{
}

/// A value is counted exactly if its atime is in the histogram, with at least its bytes.
pub proof fn law_counted_value(h: AtimeHistogram, value: IndexValue)
    ensures
        is_counted(h, value) <==> {
            &&& value.atime.0 >= h.phys.first_ghost.0
            &&& value.atime.0 - h.phys.first_ghost.0 < h.phys.histogram@.len()
            &&& h.phys.histogram@[value.atime.0 - h.phys.first_ghost.0] >= value.sectors * 512
        },
{
}

} // verus!
