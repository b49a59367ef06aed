//! Checkpoints: where they go, how a merge gets into them and out of them again.
use super::lookup::WhichIndex;
use super::ZettaCacheState;
use crate::atime_histogram::AtimeHistogramPhys;
use crate::base_types::{DiskLocation, Extent};
use crate::block_allocator::rebalance::RemapTable;
use crate::block_based_log::BlockBasedLogPhys;
use crate::checkpoint::{CheckpointPhys, MergeProgressPhys};
use crate::index::run::{counts_fit, end_after, not_after, sizes_at, IndexRun, IndexRunPhys};
use crate::index::{IndexEntry, IndexKey};
use crate::merge::{
    located, table_ok, MergeState, OperationLogEntry, RebalanceLogEntry, RebalanceState,
};
use crate::pending_changes::PendingChanges;
use crate::slab_allocator::SlabAccess;
use vstd::prelude::*;

verus! {

/// The place behind the current checkpoint; the start of the region if that has moved.
pub open spec fn next_place(region: Extent, current: Extent) -> int {
    if region.spec_contains(current) {
        current.end()
    } else {
        region.start()
    }
}

/// Where the next checkpoint goes: behind the current one, if that is in the region and there
/// is space; else at the start of the region.
pub open spec fn checkpoint_start(region: Extent, current: Extent, len: int) -> int {
    if next_place(region, current) + len <= region.end() {
        next_place(region, current)
    } else {
        region.start()
    }
}

/// There is space for the next checkpoint: behind the current one, or before it.
pub open spec fn checkpoint_fits(region: Extent, current: Extent, len: int) -> bool {
    ||| next_place(region, current) + len <= region.end()
    ||| region.start() + len <= region.end() && region.start() + len <= current.start()
}

/// Where the next checkpoint of `len` bytes goes.
pub fn place_checkpoint(region: &Extent, current: &Extent, len: u64) -> (r: Extent)
    requires
        region.wf(),
        current.wf(),
        current.aligned(),
        len <= region.size,
        checkpoint_fits(*region, *current, len as int),
    ensures
        r.wf(),
        r.size == len,
        r.disk_no() == region.disk_no(),
        r.start() == checkpoint_start(*region, *current, len as int),
        // the current checkpoint is not overwritten
        current.size > 0 && (region.spec_contains(*current) || !region.overlaps(*current))
            ==> region.spec_contains(r) && !r.overlaps(*current),
{
    if region.contains(current) {
        let offset: u64 = current.location.offset() - region.location.offset();
        let behind: u64 = offset + current.size;
        if len <= region.size - behind {
            return region.range(behind, len);
        }
    }
    region.range(0, len)
}

/// A checkpoint is in the region, and it does not overwrite the current one, so that there is
/// always one to go back to.
pub proof fn law_checkpoint_apart(region: Extent, current: Extent, next: Extent)
    requires
        region.wf(),
        current.wf(),
        current.size > 0,
        checkpoint_fits(region, current, next.size as int),
        next.disk_no() == region.disk_no(),
        next.start() == checkpoint_start(region, current, next.size as int),
        region.spec_contains(current) || !region.overlaps(current),
    ensures
        region.spec_contains(next),
        !next.overlaps(current),
{
}

impl IndexRun {
    /// Takes a part of a merge: its entries are appended, and the run now goes to the last key
    /// that was processed.
    pub fn take_part(&mut self, entries: Vec<IndexEntry>, last_key: IndexKey)
        requires
            entries@.len() > 0 ==> {
                &&& not_after(old(self).last_key, entries@.last().key)
                &&& entries@.last().key.place() <= last_key.place()
            },
            not_after(old(self).last_key, last_key),
            old(self).atime_histogram_phys.wf(),
            counts_fit(old(self).atime_histogram_phys, entries@),
        ensures
            final(self).trim_key == old(self).trim_key,
            final(self).last_key == Some(last_key),
            final(self).atime_histogram_phys.wf(),
            final(self).atime_histogram_phys.first_ghost
                == old(self).atime_histogram_phys.first_ghost,
            final(self).atime_histogram_phys.first_live
                == old(self).atime_histogram_phys.first_live,
            forall|t: int|
                #[trigger] final(self).atime_histogram_phys.at(t) == old(
                    self).atime_histogram_phys.at(t) + sizes_at(entries@, t),
            final(self).atime_histogram_phys.end() == end_after(
                entries@,
                old(self).atime_histogram_phys.end(),
            ),
            final(self).log.readonly == old(self).log.readonly,
            final(self).log.chunk_summary == old(self).log.chunk_summary,
            final(self).log.this.phys == old(self).log.this.phys,
            final(self).log.this.pending_entries@ == old(self).log.this.pending_entries@
                + entries@,
    {
        self.append(entries);
        self.update_last_key(last_key);
    }

    /// Takes note of what a merge has done: what the new index has is gone from this one.
    pub fn progress(&mut self, new_last_key: Option<IndexKey>, obsoleted: &AtimeHistogramPhys)
        requires
            new_last_key matches Some(last) ==> {
                &&& not_after(old(self).trim_key, last)
                &&& old(self).atime_histogram_phys.wf()
                &&& old(self).atime_histogram_phys.first_ghost.0 <= obsoleted.first_ghost.0
                &&& obsoleted.end() <= old(self).atime_histogram_phys.end()
                &&& forall|t: int|
                    #[trigger] obsoleted.at(t) <= old(self).atime_histogram_phys.at(t)
            },
        ensures
            new_last_key is None ==> *final(self) == *old(self),
            new_last_key matches Some(last) ==> {
                &&& final(self).trim_key == Some(last)
                &&& final(self).last_key == match old(self).last_key {
                    Some(k) => if k.place() > last.place() {
                        Some(k)
                    } else {
                        Some(last)
                    },
                    None => Some(last),
                }
                &&& final(self).log == old(self).log
                &&& final(self).atime_histogram_phys.wf()
                &&& final(self).atime_histogram_phys.first_ghost
                    == old(self).atime_histogram_phys.first_ghost
                &&& final(self).atime_histogram_phys.first_live
                    == old(self).atime_histogram_phys.first_live
                &&& final(self).atime_histogram_phys.end() == old(
                    self).atime_histogram_phys.end()
                &&& forall|t: int|
                    #[trigger] final(self).atime_histogram_phys.at(t) == old(
                        self).atime_histogram_phys.at(t) - obsoleted.at(t)
            },
    {
        if let Some(last) = new_last_key {
            self.trim(last, obsoleted);
        }
    }
}

/// While a merge goes on, each key is looked for in the one index that has it: the old index is
/// never asked for a key that it was trimmed of.
pub proof fn law_one_index(
    key: IndexKey,
    trim_key: Option<IndexKey>,
    new_last_key: Option<IndexKey>,
    which: WhichIndex,
)
    requires
        trim_key == new_last_key,
        which == match new_last_key {
            Some(last) => if key.place() <= last.place() {
                WhichIndex::New
            } else {
                WhichIndex::Old
            },
            None => WhichIndex::Old,
        },
    ensures
        which is Old <==> (trim_key matches Some(k) ==> k.place() < key.place()),
{
}

/// The last entry that says where an extent goes.
pub open spec fn logged(entries: Seq<RebalanceLogEntry>) -> Map<Extent, Option<DiskLocation>>
    decreases entries.len(),
{
    if entries.len() == 0 {
        Map::empty()
    } else {
        logged(entries.drop_last()).insert(entries.last().old, entries.last().new)
    }
}

/// The entries of a log are moves of extents.
pub open spec fn moves_ok(entries: Seq<RebalanceLogEntry>) -> bool {
    forall|i: int|
        0 <= i < entries.len() ==> {
            &&& (#[trigger] entries[i]).old.wf()
            &&& entries[i].new matches Some(new) ==> new.wf() && new.off() + entries[i].old.size
                <= u64::MAX
        }
}

proof fn lemma_logged(entries: Seq<RebalanceLogEntry>, e: Extent)
    requires
        moves_ok(entries),
        logged(entries).contains_key(e),
    ensures
        e.wf(),
        logged(entries)[e] matches Some(new) ==> new.wf() && new.off() + e.size <= u64::MAX,
    decreases entries.len(),
{
    if entries.len() > 0 {
        let last = entries.last();
        assert(entries[entries.len() - 1] == last);
        if e != last.old {
            assert forall|i: int| 0 <= i < entries.drop_last().len() implies {
                &&& (#[trigger] entries.drop_last()[i]).old.wf()
                &&& entries.drop_last()[i].new matches Some(new) ==> new.wf() && new.off()
                    + entries.drop_last()[i].old.size <= u64::MAX
            } by {
                assert(entries.drop_last()[i] == entries[i]);
            }
            lemma_logged(entries.drop_last(), e);
        }
    }
}

impl RebalanceState {
    /// The moves that were logged.
    pub fn from_log(
        entries: &Vec<RebalanceLogEntry>,
        log_phys: BlockBasedLogPhys<RebalanceLogEntry>,
    ) -> (r: RebalanceState)
        requires
            moves_ok(entries@),
        ensures
            table_ok(r.map),
            r.map@ == logged(entries@),
            r.log_phys == log_phys,
    {
        let mut map = RemapTable::new();
        let mut i: usize = 0;
        assert(entries@.take(0) =~= Seq::<RebalanceLogEntry>::empty());
        while i < entries.len()
            invariant
                i <= entries@.len(),
                map.wf(),
                map@ == logged(entries@.take(i as int)),
            decreases entries@.len() - i,
        {
            proof {
                assert(entries@.take(i + 1).drop_last() =~= entries@.take(i as int));
            }
            map.insert(entries[i].old, entries[i].new);
            i += 1;
        }
        proof {
            assert(entries@.take(i as int) =~= entries@);
            assert forall|k: int| 0 <= k < map.entries@.len() implies {
                &&& (#[trigger] map.entries@[k]).0.wf()
                &&& map.entries@[k].1 matches Some(new) ==> new.wf() && new.off()
                    + map.entries@[k].0.size <= u64::MAX
            } by {
                map.lemma_place(k);
                lemma_logged(entries@, map.entries@[k].0);
            }
        }
        RebalanceState { map, log_phys }
    }
}

impl ZettaCacheState {
    /// Goes on with a merge that was stored: what is evicted is what was to be evicted when the
    /// merge began.
    pub fn resume_merge(
        &mut self,
        old_pending_changes: PendingChanges,
        old_operation_log_phys: BlockBasedLogPhys<OperationLogEntry>,
        rebalance: Option<RebalanceState>,
        new_index: &IndexRun,
    )
        requires
            old(self).wf(),
            old(self).merge is None,
            old_pending_changes.wf(),
            forall|i: int|
                0 <= i < old_pending_changes.entries@.len() ==> located(
                    (#[trigger] old_pending_changes.entries@[i]).1.spec_value(),
                ),
            rebalance matches Some(r) ==> table_ok(r.map),
            ({
                let h = old(self).atime_histogram.phys;
                let n = new_index.atime_histogram_phys;
                &&& h.first_ghost.0 <= n.first_ghost.0
                &&& n.first_ghost.0 <= h.first_live.0
                &&& n.first_ghost.0 <= h.end()
                &&& h.first_live.0 <= n.first_live.0
            }),
        ensures
            final(self).wf(),
            *final(self) == (ZettaCacheState {
                merge: Some(
                    MergeState {
                        rebalance,
                        old_pending_changes,
                        old_operation_log_phys,
                        eviction_cutoff: new_index.atime_histogram_phys.first_live,
                        ghost_cutoff: new_index.atime_histogram_phys.first_ghost,
                    },
                ),
                ..*old(self)
            }),
    {
        self.merge = Some(
            MergeState {
                rebalance,
                old_pending_changes,
                old_operation_log_phys,
                eviction_cutoff: new_index.first_live_atime(),
                ghost_cutoff: new_index.first_ghost_atime(),
            },
        );
    }

    /// What is stored of the merge that goes on. There is a new index exactly if there is a
    /// merge.
    pub fn merge_progress(&self, new_index: Option<IndexRunPhys>) -> (r: Option<MergeProgressPhys>)
        requires
            self.merge is Some <==> new_index is Some,
        ensures
            r is Some <==> self.merge is Some,
            r matches Some(p) ==> {
                let m = self.merge->0;
                &&& p.new_index == new_index->0
                &&& p.operation_log.slabs@ == m.old_operation_log_phys.slabs@
                &&& p.operation_log.next_chunk == m.old_operation_log_phys.next_chunk
                &&& p.operation_log.next_chunk_offset
                    == m.old_operation_log_phys.next_chunk_offset
                &&& p.operation_log.num_entries == m.old_operation_log_phys.num_entries
                &&& p.rebalance_log is Some <==> m.rebalance is Some
                &&& p.rebalance_log matches Some(log) ==> {
                    &&& log.slabs@ == m.rebalance->0.log_phys.slabs@
                    &&& log.next_chunk == m.rebalance->0.log_phys.next_chunk
                    &&& log.next_chunk_offset == m.rebalance->0.log_phys.next_chunk_offset
                    &&& log.num_entries == m.rebalance->0.log_phys.num_entries
                }
            },
    {
        match &self.merge {
            Some(m) => {
                let rebalance_log = match &m.rebalance {
                    Some(rebalance) => Some(rebalance.log_phys.copy()),
                    None => None,
                };
                match new_index {
                    Some(new_index) => Some(
                        MergeProgressPhys {
                            rebalance_log,
                            operation_log: m.old_operation_log_phys.copy(),
                            new_index,
                        },
                    ),
                    None => None,
                }
            },
            None => None,
        }
    }
}

/// Whether a cached block has to be replaced by what the object store has, which is preferred.
pub fn heal_needed(cached: &Vec<u8>, object: &Vec<u8>) -> (r: bool)
    ensures
        r <==> cached@ != object@,
{
    if cached.len() != object.len() {
        return true;
    }
    let mut i: usize = 0;
    while i < cached.len()
        invariant
            i <= cached@.len(),
            cached@.len() == object@.len(),
            forall|k: int| 0 <= k < i ==> cached@[k] == object@[k],
        decreases cached@.len() - i,
    {
        if cached[i] != object[i] {
            assert(cached@[i as int] != object@[i as int]);
            return true;
        }
        i += 1;
    }
    assert(cached@ =~= object@);
    false
}

/// The bytes of the logs of a checkpoint.
pub open spec fn log_bytes_of(c: CheckpointPhys) -> int {
    c.operation_log.next_chunk_offset.0 + c.block_allocator.spacemap.log.next_chunk_offset.0
        + c.block_allocator.spacemap_next.log.next_chunk_offset.0
        + c.old_index.log.chunk_summary.next_chunk_offset.0
        + c.old_index.log.this.next_chunk_offset.0 + match c.merge_progress {
        Some(p) => p.operation_log.next_chunk_offset.0
            + p.new_index.log.chunk_summary.next_chunk_offset.0
            + p.new_index.log.this.next_chunk_offset.0,
        None => 0,
    }
}

/// The number of slabs that the logs of a checkpoint hold.
pub open spec fn log_slabs_of(c: CheckpointPhys) -> int {
    c.operation_log.slabs@.len() + c.block_allocator.spacemap.log.slabs@.len()
        + c.block_allocator.spacemap_next.log.slabs@.len()
        + c.old_index.log.chunk_summary.slabs@.len() + c.old_index.log.this.slabs@.len()
        + match c.merge_progress {
        Some(p) => (p.operation_log.slabs@.len() + p.new_index.log.chunk_summary.slabs@.len()
            + p.new_index.log.this.slabs@.len()) as int,
        None => 0,
    }
}

/// The logs of a checkpoint fit in their slabs.
pub open spec fn logs_fit(c: CheckpointPhys, slab_size: u64) -> bool {
    &&& c.operation_log.wf(slab_size)
    &&& c.block_allocator.spacemap.log.wf(slab_size)
    &&& c.block_allocator.spacemap_next.log.wf(slab_size)
    &&& c.old_index.log.this.wf(slab_size)
    &&& c.old_index.log.chunk_summary.wf(slab_size)
    &&& c.merge_progress matches Some(p) ==> {
        &&& p.operation_log.wf(slab_size)
        &&& p.new_index.log.this.wf(slab_size)
        &&& p.new_index.log.chunk_summary.wf(slab_size)
    }
}

/// The bytes of all slabs are those of the slabs of each log.
proof fn lemma_log_slabs(c: CheckpointPhys, z: int)
    ensures
        log_slabs_of(c) * z == c.operation_log.slabs@.len() * z
            + c.block_allocator.spacemap.log.slabs@.len() * z
            + c.block_allocator.spacemap_next.log.slabs@.len() * z
            + c.old_index.log.chunk_summary.slabs@.len() * z + c.old_index.log.this.slabs@.len()
            * z + match c.merge_progress {
            Some(p) => p.operation_log.slabs@.len() * z
                + p.new_index.log.chunk_summary.slabs@.len() * z
                + p.new_index.log.this.slabs@.len() * z,
            None => 0,
        },
{
    let a = c.operation_log.slabs@.len() as int;
    let b = c.block_allocator.spacemap.log.slabs@.len() as int;
    let d = c.block_allocator.spacemap_next.log.slabs@.len() as int;
    let e = c.old_index.log.chunk_summary.slabs@.len() as int;
    let f = c.old_index.log.this.slabs@.len() as int;
    let (g, h, i) = match c.merge_progress {
        Some(p) => (
            p.operation_log.slabs@.len() as int,
            p.new_index.log.chunk_summary.slabs@.len() as int,
            p.new_index.log.this.slabs@.len() as int,
        ),
        None => (0, 0, 0),
    };
    assert((a + b + d + e + f + (g + h + i)) * z == a * z + b * z + d * z + e * z + f * z + (g * z
        + h * z + i * z)) by (nonlinear_arith);
}

impl CheckpointPhys {
    /// How many bytes the logs of the checkpoint have.
    pub fn metadata_used(&self) -> (r: u64)
        requires
            log_bytes_of(*self) <= u64::MAX,
        ensures
            r == log_bytes_of(*self),
    {
        let base: u64 = self.operation_log.bytes() + self.block_allocator.spacemap_bytes()
            + self.block_allocator.spacemap_next_bytes() + self.old_index.log_bytes();
        match &self.merge_progress {
            Some(p) => base + p.operation_log.bytes() + p.new_index.log_bytes(),
            None => base,
        }
    }

    /// How many bytes the slabs have that the logs of the checkpoint hold.
    pub fn metadata_allocated(&self, access: &SlabAccess) -> (r: u64)
        requires
            logs_fit(*self, access.slab_size),
            log_slabs_of(*self) * access.slab_size <= u64::MAX,
        ensures
            r == log_slabs_of(*self) * access.slab_size,
    {
        proof {
            lemma_log_slabs(*self, access.slab_size as int);
        }
        let base: u64 = self.operation_log.capacity_bytes(access)
            + self.block_allocator.spacemap_capacity_bytes(access)
            + self.block_allocator.spacemap_next_capacity_bytes(access)
            + self.old_index.log_capacity_bytes(access);
        match &self.merge_progress {
            Some(p) => base + p.operation_log.capacity_bytes(access)
                + p.new_index.log_capacity_bytes(access),
            None => base,
        }
    }
}

/// When the next checkpoint is due: an interval after the last one was, but not in the past.
pub fn next_checkpoint(now: u64, last: u64, interval: u64) -> (r: u64)
    requires
        last + interval <= u64::MAX,
    ensures
        r == if now > last + interval {
            now as int
        } else {
            last + interval
        },
        r >= now && r >= last + interval,
        r == now || r == last + interval,
{
    let due: u64 = last + interval;
    if now > due {
        now
    } else {
        due
    }
}

/// Checkpoints go round: each is right behind the one before, as long as there is space for it in
/// the region; and else, or if the region is another one, at the start of the region.
pub proof fn law_checkpoints_go_round(region: Extent, current: Extent, len: int)
    ensures
        ({
            let inside = current.disk_no() == region.disk_no() && region.start()
                <= current.start() && current.end() <= region.end();
            let next = checkpoint_start(region, current, len);
            &&& inside && current.end() + len <= region.end() ==> next == current.end()
            &&& inside && current.end() + len > region.end() ==> next == region.start()
            &&& !inside ==> next == region.start()
        }),
{
}

/// Each log of a checkpoint counts, with its bytes and with its slabs.
pub proof fn law_each_log_counts(a: CheckpointPhys, b: CheckpointPhys)
    requires
        a.merge_progress is Some <==> b.merge_progress is Some,
    ensures
        ({
            let x = a.merge_progress->0;
            let y = b.merge_progress->0;
            let merging = if a.merge_progress is Some {
                y.operation_log.next_chunk_offset.0 - x.operation_log.next_chunk_offset.0
                    + y.new_index.log.this.next_chunk_offset.0
                    - x.new_index.log.this.next_chunk_offset.0
                    + y.new_index.log.chunk_summary.next_chunk_offset.0
                    - x.new_index.log.chunk_summary.next_chunk_offset.0
            } else {
                0
            };
            log_bytes_of(b) - log_bytes_of(a) == b.operation_log.next_chunk_offset.0
                - a.operation_log.next_chunk_offset.0
                + b.block_allocator.spacemap.log.next_chunk_offset.0
                - a.block_allocator.spacemap.log.next_chunk_offset.0
                + b.block_allocator.spacemap_next.log.next_chunk_offset.0
                - a.block_allocator.spacemap_next.log.next_chunk_offset.0
                + b.old_index.log.this.next_chunk_offset.0
                - a.old_index.log.this.next_chunk_offset.0
                + b.old_index.log.chunk_summary.next_chunk_offset.0
                - a.old_index.log.chunk_summary.next_chunk_offset.0 + merging
        }),
        ({
            let x = a.merge_progress->0;
            let y = b.merge_progress->0;
            let merging = if a.merge_progress is Some {
                y.operation_log.slabs@.len() - x.operation_log.slabs@.len()
                    + y.new_index.log.this.slabs@.len() - x.new_index.log.this.slabs@.len()
                    + y.new_index.log.chunk_summary.slabs@.len()
                    - x.new_index.log.chunk_summary.slabs@.len()
            } else {
                0
            };
            log_slabs_of(b) - log_slabs_of(a) == b.operation_log.slabs@.len()
                - a.operation_log.slabs@.len() + b.block_allocator.spacemap.log.slabs@.len()
                - a.block_allocator.spacemap.log.slabs@.len()
                + b.block_allocator.spacemap_next.log.slabs@.len()
                - a.block_allocator.spacemap_next.log.slabs@.len()
                + b.old_index.log.this.slabs@.len() - a.old_index.log.this.slabs@.len()
                + b.old_index.log.chunk_summary.slabs@.len()
                - a.old_index.log.chunk_summary.slabs@.len() + merging
        }),
{
}

/// Logs that are empty count for nothing.
pub proof fn law_empty_logs_count_nothing(c: CheckpointPhys)
    requires
        c.merge_progress is None,
        c.operation_log.next_chunk_offset.0 == 0 && c.operation_log.slabs@.len() == 0,
        c.block_allocator.spacemap.log.next_chunk_offset.0 == 0,
        c.block_allocator.spacemap.log.slabs@.len() == 0,
        c.block_allocator.spacemap_next.log.next_chunk_offset.0 == 0,
        c.block_allocator.spacemap_next.log.slabs@.len() == 0,
        c.old_index.log.this.next_chunk_offset.0 == 0 && c.old_index.log.this.slabs@.len() == 0,
        c.old_index.log.chunk_summary.next_chunk_offset.0 == 0,
        c.old_index.log.chunk_summary.slabs@.len() == 0,
    ensures
        log_bytes_of(c) == 0,
        log_slabs_of(c) == 0,
{
}

/// Of several moves of an extent in the log the last one counts, and no other extent was moved.
pub proof fn law_last_move_counts(entries: Seq<RebalanceLogEntry>, i: int)
    requires
        0 <= i < entries.len(),
        forall|j: int| i < j < entries.len() ==> (#[trigger] entries[j]).old != entries[i].old,
    ensures
        logged(entries).contains_pair(entries[i].old, entries[i].new),
        forall|e: Extent| #[trigger]
            logged(entries).contains_key(e) ==> exists|j: int|
                0 <= j < entries.len() && (#[trigger] entries[j]).old == e,
    decreases entries.len(),
{
    lemma_logged_moves(entries);
    if i < entries.len() - 1 {
        let p = entries.drop_last();
        assert(p[i] == entries[i]);
        assert forall|j: int| i < j < p.len() implies (#[trigger] p[j]).old != p[i].old by {
            assert(p[j] == entries[j]);
        }
        law_last_move_counts(p, i);
        assert(entries[entries.len() - 1].old != entries[i].old);
    }
}

proof fn lemma_logged_moves(entries: Seq<RebalanceLogEntry>)
    ensures
        forall|e: Extent| #[trigger]
            logged(entries).contains_key(e) ==> exists|j: int|
                0 <= j < entries.len() && (#[trigger] entries[j]).old == e,
    decreases entries.len(),
{
    if entries.len() > 0 {
        let p = entries.drop_last();
        lemma_logged_moves(p);
        assert forall|e: Extent| #[trigger] logged(entries).contains_key(e) implies exists|j: int|
            0 <= j < entries.len() && (#[trigger] entries[j]).old == e by {
            if logged(p).contains_key(e) {
                let j = choose|j: int| 0 <= j < p.len() && (#[trigger] p[j]).old == e;
                assert(entries[j] == p[j]);
            } else {
                assert(entries[entries.len() - 1].old == e);
            }
        }
    }
}

} // verus!
