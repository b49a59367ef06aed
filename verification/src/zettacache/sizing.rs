//! Sizes: how a cache is divided up, how much memory it uses, and when it is emptied.
use super::{CacheSettings, ZettaCacheState};
use crate::base_types::{law_location_round_trip, Atime, DiskId, Extent, SECTOR};
use crate::binary_index_tree::{lemma_suffix_less, suffix};
use crate::block_based_log::BlockBasedLogPhys;
use crate::merge::{located, table_ok, MergeState, OperationLogEntry, RebalanceState};
use crate::superblock::SUPERBLOCK_SIZE;
use vstd::prelude::*;

verus! {

/// A key of 9 bytes, a value of 14 and two pointers.
pub const INDEX_CACHE_ENTRY_BYTES: usize = 39;

/// What the table of the cache takes up beside each entry.
pub const INDEX_CACHE_OVERHEAD_BYTES: usize = 40;

/// A key of 9 bytes and a change of 19.
pub const PENDING_CHANGE_ENTRY_BYTES: usize = 28;

/// How many entries fit in the memory that is for the index cache, which is `mem_pct` percent of
/// all.
pub fn index_cache_estimate_capacity(mem_pct: usize, system_memory: usize) -> (r: usize)
    requires
        mem_pct * system_memory <= usize::MAX,
    ensures
        r == (mem_pct * system_memory) / 100 / (INDEX_CACHE_ENTRY_BYTES
            + INDEX_CACHE_OVERHEAD_BYTES) as int,
        // as many as fit
        r * (INDEX_CACHE_ENTRY_BYTES + INDEX_CACHE_OVERHEAD_BYTES) * 100 <= mem_pct
            * system_memory,
        (r + 1) * (INDEX_CACHE_ENTRY_BYTES + INDEX_CACHE_OVERHEAD_BYTES) * 100 > mem_pct
            * system_memory,
{
    let bytes: usize = (mem_pct * system_memory) / 100;
    bytes / (INDEX_CACHE_ENTRY_BYTES + INDEX_CACHE_OVERHEAD_BYTES)
}

/// How many changes fit in the memory that is for them, and at how many a merge is started. A
/// tree has an overhead of about a third. While a merge goes on there are old changes beside
/// the new ones, so it has to be started early.
pub fn pending_changes_limits(max_bytes: usize) -> (r: (usize, usize))
    requires
        max_bytes * 65 <= usize::MAX,
    ensures
        r.0 == max_bytes * 65 / 100 / PENDING_CHANGE_ENTRY_BYTES as int,
        r.1 == r.0 as int / 3,
        // as many as fit in 65 percent
        r.0 * PENDING_CHANGE_ENTRY_BYTES * 100 <= max_bytes * 65,
        (r.0 + 1) * PENDING_CHANGE_ENTRY_BYTES * 100 > max_bytes * 65,
        3 * r.1 <= r.0 < 3 * r.1 + 3,
{
    let cap: usize = max_bytes * 65 / 100 / PENDING_CHANGE_ENTRY_BYTES;
    (cap, cap / 3)
}

/// The last of the largest extents.
pub open spec fn is_last_largest(extents: Seq<Extent>, i: int) -> bool {
    &&& 0 <= i < extents.len()
    &&& forall|j: int| 0 <= j < extents.len() ==> (#[trigger] extents[j]).size <= extents[i].size
    &&& forall|j: int| i < j < extents.len() ==> (#[trigger] extents[j]).size < extents[i].size
}

/// What is left of an extent beside the checkpoint.
pub open spec fn beside(extent: Extent, checkpoint: Extent, rest: Extent) -> bool {
    if extent.spec_contains(checkpoint) {
        &&& rest.wf()
        &&& rest.aligned()
        &&& rest.disk_no() == extent.disk_no()
        &&& rest.start() == checkpoint.end()
        &&& rest.end() == extent.end()
    } else {
        rest == extent
    }
}

/// How new capacity is divided up. The checkpoint is on the largest extent; metadata is on each,
/// behind the checkpoint if it is there; the rest is for data.
pub open spec fn divided(
    extents: Seq<Extent>,
    checkpoint_size: u64,
    metadata_sizes: Seq<u64>,
    r: (Extent, Seq<Extent>, Seq<Extent>),
) -> bool {
    &&& exists|i: int| #[trigger]
        is_last_largest(extents, i) && r.0 == Extent::at(
            extents[i].disk_no(),
            extents[i].start(),
            checkpoint_size as int,
        )
    &&& r.1.len() == extents.len()
    &&& r.2.len() == extents.len()
    &&& forall|k: int|
        0 <= k < extents.len() ==> #[trigger] divided_one(
            extents[k],
            r.0,
            metadata_sizes[k],
            r.1[k],
            r.2[k],
        )
}

/// The metadata is at the head of what the checkpoint leaves, and the data behind it.
pub open spec fn divided_one(
    extent: Extent,
    checkpoint: Extent,
    metadata_size: u64,
    metadata: Extent,
    data: Extent,
) -> bool {
    &&& metadata.disk_no() == extent.disk_no()
    &&& metadata.size == metadata_size
    &&& metadata.start() == if extent.spec_contains(checkpoint) {
        checkpoint.end()
    } else {
        extent.start()
    }
    &&& data.wf()
    &&& data.disk_no() == extent.disk_no()
    &&& data.start() == metadata.end()
    &&& data.end() == extent.end()
}

/// No byte of an extent is used twice, and those that are not before the checkpoint are used.
pub proof fn law_divided_apart(
    extent: Extent,
    checkpoint: Extent,
    metadata_size: u64,
    metadata: Extent,
    data: Extent,
    disk: int,
    o: int,
)
    requires
        divided_one(extent, checkpoint, metadata_size, metadata, data),
        extent.has_byte(disk, o),
        extent.spec_contains(checkpoint) ==> checkpoint.start() == extent.start(),
    ensures
        !(metadata.has_byte(disk, o) && data.has_byte(disk, o)),
        extent.spec_contains(checkpoint) ==> {
            &&& !(checkpoint.has_byte(disk, o) && metadata.has_byte(disk, o))
            &&& !(checkpoint.has_byte(disk, o) && data.has_byte(disk, o))
            &&& checkpoint.has_byte(disk, o) || metadata.has_byte(disk, o) || data.has_byte(
                disk,
                o,
            )
        },
        !extent.spec_contains(checkpoint) ==> metadata.has_byte(disk, o) || data.has_byte(disk, o),
{
}

/// Divides new capacity up; returns the checkpoint, the metadata and the data.
pub fn divide_new_capacity(
    new_capacity: &Vec<Extent>,
    checkpoint_size: u64,
    metadata_sizes: &Vec<u64>,
) -> (r: (Extent, Vec<Extent>, Vec<Extent>))
    requires
        new_capacity@.len() > 0,
        metadata_sizes@.len() == new_capacity@.len(),
        checkpoint_size % SECTOR == 0,
        forall|k: int|
            0 <= k < new_capacity@.len() ==> {
                &&& (#[trigger] new_capacity@[k]).wf()
                &&& new_capacity@[k].aligned()
                &&& metadata_sizes@[k] % SECTOR == 0
                &&& metadata_sizes@[k] <= new_capacity@[k].size
            },
        forall|i: int|
            #[trigger] is_last_largest(new_capacity@, i) ==> checkpoint_size
                <= new_capacity@[i].size,
        forall|i: int, k: int|
            #[trigger] is_last_largest(new_capacity@, i) && 0 <= k < new_capacity@.len()
                && (#[trigger] new_capacity@[k]).spec_contains(
                Extent::at(
                    new_capacity@[i].disk_no(),
                    new_capacity@[i].start(),
                    checkpoint_size as int,
                ),
            ) ==> new_capacity@[i].start() + checkpoint_size + metadata_sizes@[k]
                <= new_capacity@[k].end(),
    ensures
        divided(new_capacity@, checkpoint_size, metadata_sizes@, (r.0, r.1@, r.2@)),
{
    let ghost s = new_capacity@;
    let mut largest: usize = 0;
    let mut i: usize = 1;
    while i < new_capacity.len()
        invariant
            s == new_capacity@,
            0 <= largest < i <= s.len(),
            forall|j: int| 0 <= j < i ==> (#[trigger] s[j]).size <= s[largest as int].size,
            forall|j: int| largest < j < i ==> (#[trigger] s[j]).size < s[largest as int].size,
        decreases s.len() - i,
    {
        if new_capacity[i].size >= new_capacity[largest].size {
            largest = i;
        }
        i += 1;
    }
    assert(is_last_largest(s, largest as int));
    let checkpoint = new_capacity[largest].range(0, checkpoint_size);
    let mut metadata: Vec<Extent> = Vec::new();
    let mut data: Vec<Extent> = Vec::new();
    let mut k: usize = 0;
    while k < new_capacity.len()
        invariant
            s == new_capacity@,
            k <= s.len(),
            metadata_sizes@.len() == s.len(),
            metadata@.len() == k,
            data@.len() == k,
            is_last_largest(s, largest as int),
            checkpoint.wf(),
            checkpoint.aligned(),
            checkpoint == Extent::at(
                s[largest as int].disk_no(),
                s[largest as int].start(),
                checkpoint_size as int,
            ),
            checkpoint.end() == s[largest as int].start() + checkpoint_size,
            forall|x: int|
                0 <= x < s.len() ==> {
                    &&& (#[trigger] s[x]).wf()
                    &&& s[x].aligned()
                    &&& metadata_sizes@[x] % SECTOR == 0
                    &&& metadata_sizes@[x] <= s[x].size
                },
            forall|j: int, x: int|
                #[trigger] is_last_largest(s, j) && 0 <= x < s.len() && (
                #[trigger] s[x]).spec_contains(
                    Extent::at(s[j].disk_no(), s[j].start(), checkpoint_size as int),
                ) ==> s[j].start() + checkpoint_size + metadata_sizes@[x] <= s[x].end(),
            forall|x: int|
                0 <= x < k ==> #[trigger] divided_one(
                    s[x],
                    checkpoint,
                    metadata_sizes@[x],
                    metadata@[x],
                    data@[x],
                ),
        decreases s.len() - k,
    {
        let extent = new_capacity[k];
        assert(s[k as int].wf());
        let rest = match extent.after(&checkpoint) {
            Some(after) => after,
            None => extent,
        };
        let m = rest.range(0, metadata_sizes[k]);
        let d = extent.after(&m).unwrap();
        let ghost m0 = metadata@;
        let ghost d0 = data@;
        metadata.push(m);
        data.push(d);
        proof {
            assert forall|x: int| 0 <= x < k + 1 implies #[trigger] divided_one(
                s[x],
                checkpoint,
                metadata_sizes@[x],
                metadata@[x],
                data@[x],
            ) by {
                if x < k {
                    assert(divided_one(s[x], checkpoint, metadata_sizes@[x], m0[x], d0[x]));
                }
            }
        }
        k += 1;
    }
    (checkpoint, metadata, data)
}

/// The space by which a disk has grown, if it is worth using: there has to be room for a
/// checkpoint and a slab, and it has to have grown by more than `min_pct` percent.
pub open spec fn grown_by(
    old_size: int,
    new_size: int,
    checkpoint_size: int,
    slab_size: int,
    min_pct: int,
) -> Option<int> {
    let added = new_size - old_size;
    if added > 0 && added > checkpoint_size + slab_size && added * 100 > old_size
        * min_pct {
        Some(added)
    } else {
        None
    }
}

/// The extent by which a disk has grown, if it is to be used.
pub fn expanded_extent(
    disk: DiskId,
    old_size: u64,
    new_size: u64,
    checkpoint_size: u64,
    slab_size: u64,
    min_pct: u64,
) -> (r: Option<Extent>)
    requires
        disk.wf(),
        old_size % SECTOR == 0,
        new_size % SECTOR == 0,
    ensures
        r == match grown_by(
            old_size as int,
            new_size as int,
            checkpoint_size as int,
            slab_size as int,
            min_pct as int,
        ) {
            Some(added) => Some(Extent::at(disk.0 as int, old_size as int, added)),
            None => None,
        },
{
    if new_size <= old_size {
        return None;
    }
    let added: u64 = new_size - old_size;
    proof {
        let (x, y) = (old_size as int, min_pct as int);
        assert(x * y <= 0xffff_ffff_ffff_ffff * 0xffff_ffff_ffff_ffff) by (nonlinear_arith)
            requires
                0 <= x <= 0xffff_ffff_ffff_ffff,
                0 <= y <= 0xffff_ffff_ffff_ffff,
        ;
    }
    if added as u128 > checkpoint_size as u128 + slab_size as u128 && added as u128 * 100
        > old_size as u128 * min_pct as u128 {
        Some(Extent::new(disk, old_size, added))
    } else {
        None
    }
}

/// The extents by which disks have grown, as far as they are to be used. Of each disk there is
/// its size so far and its size now.
pub open spec fn expansions(
    disks: Seq<(DiskId, u64, u64)>,
    checkpoint_size: int,
    slab_size: int,
    min_pct: int,
) -> Seq<Extent>
    decreases disks.len(),
{
    if disks.len() == 0 {
        Seq::empty()
    } else {
        let before = expansions(disks.drop_last(), checkpoint_size, slab_size, min_pct);
        let (disk, old_size, new_size) = disks.last();
        match grown_by(old_size as int, new_size as int, checkpoint_size, slab_size, min_pct) {
            Some(added) => before.push(Extent::at(disk.0 as int, old_size as int, added)),
            None => before,
        }
    }
}

/// The capacity that is added by disks that have grown.
pub fn expanded_capacity(
    disks: &Vec<(DiskId, u64, u64)>,
    checkpoint_size: u64,
    slab_size: u64,
    min_pct: u64,
) -> (r: Vec<Extent>)
    requires
        forall|i: int|
            0 <= i < disks@.len() ==> {
                &&& (#[trigger] disks@[i]).0.wf()
                &&& disks@[i].1 % SECTOR == 0
                &&& disks@[i].2 % SECTOR == 0
            },
    ensures
        r@ == expansions(disks@, checkpoint_size as int, slab_size as int, min_pct as int),
{
    let mut r: Vec<Extent> = Vec::new();
    let mut i: usize = 0;
    assert(disks@.take(0) =~= Seq::<(DiskId, u64, u64)>::empty());
    while i < disks.len()
        invariant
            i <= disks@.len(),
            forall|k: int|
                0 <= k < disks@.len() ==> {
                    &&& (#[trigger] disks@[k]).0.wf()
                    &&& disks@[k].1 % SECTOR == 0
                    &&& disks@[k].2 % SECTOR == 0
                },
            r@ == expansions(
                disks@.take(i as int),
                checkpoint_size as int,
                slab_size as int,
                min_pct as int,
            ),
        decreases disks@.len() - i,
    {
        assert(disks@.take(i + 1).drop_last() =~= disks@.take(i as int));
        let (disk, old_size, new_size) = disks[i];
        assert(disks@[i as int].0.wf());
        if let Some(extent) = expanded_extent(
            disk,
            old_size,
            new_size,
            checkpoint_size,
            slab_size,
            min_pct,
        ) {
            r.push(extent);
        }
        i += 1;
    }
    assert(disks@.take(i as int) =~= disks@);
    r
}

/// The capacity of a disk that is added: what is behind its superblock, in whole sectors.
pub fn new_disk_extent(disk: DiskId, size: u64) -> (r: Extent)
    requires
        disk.wf(),
        size > SUPERBLOCK_SIZE,
    ensures
        r == Extent::at(
            disk.0 as int,
            SUPERBLOCK_SIZE as int,
            size - SUPERBLOCK_SIZE - (size - SUPERBLOCK_SIZE) % SECTOR as int,
        ),
        // all that is behind the superblock, in whole sectors
        r.disk_no() == disk.0,
        r.start() == SUPERBLOCK_SIZE,
        r.end() <= size < r.end() + SECTOR,
        r.size % SECTOR == 0,
{
    proof {
        law_location_round_trip(disk.0 as int, SUPERBLOCK_SIZE as int);
    }
    let usable: u64 = size - SUPERBLOCK_SIZE;
    Extent::new(disk, SUPERBLOCK_SIZE, usable - usable % SECTOR)
}

/// What a merge evicts and forgets.
#[derive(Debug, Clone, Copy, PartialEq, Eq, Structural)]
pub struct MergePlan {
    pub eviction_atime: Atime,
    pub ghost_atime: Atime,
}

/// How much is beyond a limit.
pub open spec fn beyond(used: int, limit: int) -> int {
    if used > limit {
        used - limit
    } else {
        0
    }
}

impl ZettaCacheState {
    /// There is a reason for a merge: many changes, a full cache, or slabs to evacuate.
    pub open spec fn merge_needed(
        &self,
        size: int,
        available: int,
        rebalance_needed: bool,
        settings: CacheSettings,
    ) -> bool {
        ||| self.pending_changes.entries@.len() >= self.pending_changes_trigger
        ||| size - available >= (size / 100) * settings.high_water_cache_size_pct
        ||| rebalance_needed
    }

    /// What is evicted so that the cache shrinks to its target size, and what is forgotten so
    /// that what is remembered does too.
    pub open spec fn planned(
        &self,
        size: int,
        available: int,
        plan: MergePlan,
        settings: CacheSettings,
    ) -> bool {
        let h = self.atime_histogram.phys;
        let reduction = beyond(size - available, (size / 100) * settings.target_cache_size_pct);
        let ghosts = h.from(h.first_ghost.0 as int) - h.from(h.first_live.0 as int) + reduction;
        let ghost_reduction = beyond(ghosts, (size / 100) * settings.ghost_cache_size_pct);
        &&& h.reaches(h.first_live.0 as int, reduction, plan.eviction_atime.0 as int)
        &&& exists|t: int| #[trigger]
            h.reaches(h.first_ghost.0 as int, ghost_reduction, t) && plan.ghost_atime.0 == if t
                < h.first_live.0 {
                t
            } else {
                h.first_live.0 as int
            }
    }

    /// Plans a merge, if there is a reason for one. `size` and `available` are of the block
    /// allocator.
    pub fn plan_merge(
        &self,
        size: u64,
        available: u64,
        rebalance_needed: bool,
        settings: &CacheSettings,
    ) -> (r: Option<MergePlan>)
        requires
            self.wf(),
            settings.suit(size as int),
            available <= size,
            self.atime_histogram.phys.first_live.0 <= self.atime_histogram.phys.end(),
            suffix(self.atime_histogram.phys.histogram@, 0) + size <= u64::MAX,
        ensures
            r is Some <==> self.merge_needed(
                size as int,
                available as int,
                rebalance_needed,
                *settings,
            ),
            self.pending_changes.entries@.len() >= self.pending_changes_trigger ==> r is Some,
            size - available >= (size / 100) * settings.high_water_cache_size_pct ==> r is Some,
            rebalance_needed ==> r is Some,
            r matches Some(plan) ==> {
                &&& self.planned(size as int, available as int, plan, *settings)
                &&& self.atime_histogram.phys.first_live.0 <= plan.eviction_atime.0
                &&& self.atime_histogram.phys.first_ghost.0 <= plan.ghost_atime.0
                &&& plan.ghost_atime.0 <= self.atime_histogram.phys.first_live.0
            },
    {
        let used: u64 = size - available;
        if self.pending_changes.len() < self.pending_changes_trigger && used < (size / 100)
            * settings.high_water_cache_size_pct && !rebalance_needed {
            return None;
        }
        let target_size: u64 = (size / 100) * settings.target_cache_size_pct;
        let target_reduction: u64 = if used > target_size {
            used - target_size
        } else {
            0
        };
        let eviction_atime = self.atime_histogram.atime_for_eviction_target(target_reduction);
        proof {
            let h = self.atime_histogram.phys;
            lemma_suffix_less(h.histogram@, 0, h.first_live.0 - h.first_ghost.0);
        }
        let ghost_size: u64 = self.atime_histogram.sum_ghost() + target_reduction;
        let ghost_target: u64 = (size / 100) * settings.ghost_cache_size_pct;
        let ghost_reduction: u64 = if ghost_size > ghost_target {
            ghost_size - ghost_target
        } else {
            0
        };
        let ghost_atime = self.atime_histogram.atime_for_ghost_target(ghost_reduction);
        let plan = MergePlan { eviction_atime, ghost_atime };
        proof {
            let h = self.atime_histogram.phys;
            let t = choose|t: int| #[trigger]
                h.reaches(h.first_ghost.0 as int, ghost_reduction as int, t) && ghost_atime.0
                    == if t < h.first_live.0 {
                    t
                } else {
                    h.first_live.0 as int
                };
            assert(h.reaches(h.first_ghost.0 as int, ghost_reduction as int, t));
            let reduction = beyond(
                size as int - available as int,
                (size as int / 100) * settings.target_cache_size_pct,
            );
            let ghosts = h.from(h.first_ghost.0 as int) - h.from(h.first_live.0 as int)
                + reduction;
            assert(target_reduction == reduction);
            assert(ghost_size == ghosts);
            assert(ghost_reduction == beyond(
                ghosts,
                (size as int / 100) * settings.ghost_cache_size_pct,
            ));
        }
        Some(plan)
    }

    /// Starts a merge: the changes so far become those that are merged, and new ones are
    /// collected beside them.
    pub fn start_merge(
        &mut self,
        plan: MergePlan,
        old_operation_log_phys: BlockBasedLogPhys<OperationLogEntry>,
        rebalance: Option<RebalanceState>,
    )
        requires
            old(self).wf(),
            old(self).merge is None,
            old(self).atime_histogram.phys.first_live.0 <= plan.eviction_atime.0,
            old(self).atime_histogram.phys.first_ghost.0 <= plan.ghost_atime.0,
            plan.ghost_atime.0 <= old(self).atime_histogram.phys.first_live.0,
            plan.ghost_atime.0 <= old(self).atime_histogram.phys.end(),
            rebalance matches Some(r) ==> table_ok(r.map),
            forall|i: int|
                0 <= i < old(self).pending_changes.entries@.len() ==> located(
                    (#[trigger] old(self).pending_changes.entries@[i]).1.spec_value(),
                ),
        ensures
            final(self).wf(),
            final(self).merge == Some(
                MergeState {
                    rebalance,
                    old_pending_changes: old(self).pending_changes,
                    old_operation_log_phys,
                    eviction_cutoff: plan.eviction_atime,
                    ghost_cutoff: plan.ghost_atime,
                },
            ),
            *final(self) == (ZettaCacheState {
                merge: final(self).merge,
                pending_changes: final(self).pending_changes,
                ..*old(self)
            }),
            final(self).pending_changes.entries@.len() == 0,
    {
        let old_pending_changes = self.pending_changes.take();
        self.merge = Some(
            MergeState {
                rebalance,
                old_pending_changes,
                old_operation_log_phys,
                eviction_cutoff: plan.eviction_atime,
                ghost_cutoff: plan.ghost_atime,
            },
        );
    }
}

/// A disk that has grown is used as far as it has grown, if that is more than a checkpoint and a
/// slab take and more than the given part of the disk; and not at all otherwise.
pub proof fn law_growth_is_used(
    old_size: int,
    new_size: int,
    checkpoint_size: int,
    slab_size: int,
    min_pct: int,
)
    requires
        0 <= old_size,
        0 <= checkpoint_size,
        0 <= slab_size,
        0 <= min_pct,
    ensures
        match grown_by(old_size, new_size, checkpoint_size, slab_size, min_pct) {
            Some(added) => {
                &&& old_size + added == new_size
                &&& added > checkpoint_size + slab_size
                &&& added * 100 > old_size * min_pct
            },
            None => new_size - old_size <= checkpoint_size + slab_size || (new_size - old_size)
                * 100 <= old_size * min_pct,
        },
{
}

/// A disk that has grown more is used if one that has grown less is.
pub proof fn law_more_growth_is_used(
    old_size: int,
    new_size: int,
    more: int,
    checkpoint_size: int,
    slab_size: int,
    min_pct: int,
)
    requires
        grown_by(old_size, new_size, checkpoint_size, slab_size, min_pct) is Some,
        new_size <= more,
    ensures
        grown_by(old_size, more, checkpoint_size, slab_size, min_pct) == Some(more - old_size),
{
}

/// The extent is what was added to the disk, and that is enough to be used.
pub open spec fn is_growth(
    disk: (DiskId, u64, u64),
    checkpoint_size: int,
    slab_size: int,
    min_pct: int,
    e: Extent,
) -> bool {
    &&& e == Extent::at(disk.0.0 as int, disk.1 as int, disk.2 - disk.1)
    &&& disk.2 - disk.1 > checkpoint_size + slab_size
    &&& (disk.2 - disk.1) * 100 > disk.1 * min_pct
}

/// What is used of the disks that have grown is what was added to each, and nothing else.
pub proof fn law_all_growth_is_used(
    disks: Seq<(DiskId, u64, u64)>,
    checkpoint_size: int,
    slab_size: int,
    min_pct: int,
    e: Extent,
)
    requires
        0 <= checkpoint_size,
        0 <= slab_size,
        0 <= min_pct,
    ensures
        expansions(disks, checkpoint_size, slab_size, min_pct).contains(e) <==> exists|i: int|
            0 <= i < disks.len() && is_growth(
                #[trigger] disks[i],
                checkpoint_size,
                slab_size,
                min_pct,
                e,
            ),
    decreases disks.len(),
{
    if disks.len() > 0 {
        let p = disks.drop_last();
        let n = disks.len() - 1;
        law_all_growth_is_used(p, checkpoint_size, slab_size, min_pct, e);
        let s = expansions(p, checkpoint_size, slab_size, min_pct);
        let t = expansions(disks, checkpoint_size, slab_size, min_pct);
        law_growth_is_used(
            disks[n].1 as int,
            disks[n].2 as int,
            checkpoint_size,
            slab_size,
            min_pct,
        );
        if exists|i: int|
            0 <= i < disks.len() && is_growth(
                #[trigger] disks[i],
                checkpoint_size,
                slab_size,
                min_pct,
                e,
            ) {
            let i = choose|i: int|
                0 <= i < disks.len() && is_growth(
                    #[trigger] disks[i],
                    checkpoint_size,
                    slab_size,
                    min_pct,
                    e,
                );
            if i < n {
                assert(p[i] == disks[i]);
                let k = choose|k: int| 0 <= k < s.len() && s[k] == e;
                assert(t[k] == e);
            } else {
                assert(t[s.len() as int] == e);
            }
        }
        if t.contains(e) {
            let k = choose|k: int| 0 <= k < t.len() && t[k] == e;
            if k < s.len() {
                assert(s[k] == e);
                let i = choose|i: int|
                    0 <= i < p.len() && is_growth(
                        #[trigger] p[i],
                        checkpoint_size,
                        slab_size,
                        min_pct,
                        e,
                    );
                assert(disks[i] == p[i]);
            } else {
                assert(is_growth(disks[n], checkpoint_size, slab_size, min_pct, e));
            }
        }
    }
}

/// The checkpoint is at the head of an extent that no other one is larger than, and all later
/// ones are smaller than. Of each extent there is metadata of the given size, and with the data,
/// and with the checkpoint where that is, it takes up the whole extent.
pub proof fn law_division_is_whole(
    extents: Seq<Extent>,
    checkpoint_size: u64,
    metadata_sizes: Seq<u64>,
    r: (Extent, Seq<Extent>, Seq<Extent>),
    k: int,
)
    requires
        divided(extents, checkpoint_size, metadata_sizes, r),
        forall|i: int|
            0 <= i < extents.len() ==> (#[trigger] extents[i]).wf() && extents[i].start() % 512
                == 0,
        0 <= k < extents.len(),
    ensures
        r.0.size == checkpoint_size,
        exists|i: int|
            0 <= i < extents.len() && r.0.disk_no() == (#[trigger] extents[i]).disk_no()
                && r.0.start() == extents[i].start() && (forall|j: int|
                0 <= j < extents.len() ==> (#[trigger] extents[j]).size <= extents[i].size) && (
            forall|j: int|
                i < j < extents.len() ==> (#[trigger] extents[j]).size < extents[i].size),
        r.1.len() == extents.len() && r.2.len() == extents.len(),
        r.1[k].size == metadata_sizes[k],
        r.1[k].disk_no() == extents[k].disk_no() && r.2[k].disk_no() == extents[k].disk_no(),
        r.1[k].end() == r.2[k].start(),
        r.2[k].end() == extents[k].end(),
        r.0.disk_no() == extents[k].disk_no() && extents[k].start() <= r.0.start() && r.0.end()
            <= extents[k].end() ==> r.1[k].start() == r.0.end(),
        !(r.0.disk_no() == extents[k].disk_no() && extents[k].start() <= r.0.start()
            && r.0.end() <= extents[k].end()) ==> r.1[k].start() == extents[k].start(),
{
    let i = choose|i: int| #[trigger]
        is_last_largest(extents, i) && r.0 == Extent::at(
            extents[i].disk_no(),
            extents[i].start(),
            checkpoint_size as int,
        );
    assert(extents[i].wf());
    law_location_round_trip(extents[i].disk_no(), extents[i].start());
    assert(divided_one(extents[k], r.0, metadata_sizes[k], r.1[k], r.2[k]));
}

} // verus!
