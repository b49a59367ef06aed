//! Allocation of blocks within slabs.
use crate::base_types::{DiskId, Extent};
use crate::block_allocator::buckets::{
    before, has_slab, is_next, SlabAllocationBuckets, SlabBucket, SlabBucketEntry,
};
use crate::block_allocator::invariants::{
    alloc_on, blocked, buckets_ok, dirty_ok, free_on, home, ids_match, inside, lemma_blocked_same,
    lemma_buckets_add, lemma_buckets_same, lemma_dirty_change, lemma_exact_same, lemma_inside_add,
    lemma_logs_append, lemma_logs_same, lemma_noalloc_add, lemma_records_same,
    lemma_same_kinds_insert, lemma_members_trans, lemma_same_members, lemma_stats_at_least,
    lemma_stats_change, lemma_stats_fit, lemma_stats_same, logs_ok, noalloc_exact, noalloc_ok,
    same_kind, same_kinds, same_members, same_state, same_states, sizes_ok, stats_ok, DiskStats,
};
use crate::block_allocator::slab::{usable_bytes, Slab, SlabEnum};
use crate::block_allocator::slabs::{
    entry_placed, indexable, lemma_sum_slabs_change, mentions, record_after, record_of, slab_ok,
    slabs_ok, sum_slabs, touches, Slabs,
};
use crate::slab_allocator::{SlabAllocator, SlabId};
use crate::space_map::{continued, extent_bytes, SpaceMap, SpaceMapEntry};
use crate::vec_map::VecMap;
use vstd::prelude::*;

pub mod bitmap_slab;
pub mod buckets;
pub mod builder;
pub mod choices;
pub mod evacuation;
pub mod extent_slab;
pub mod flush;
pub mod freeing;
pub mod invariants;
pub mod moving;
pub mod rebalance;
pub mod release;
pub mod removal;
pub mod sizes;
pub mod slab;
pub mod slabs;
pub mod sums;
pub mod zcdb;

verus! {

/// What a slab is used for, as recorded in the space maps.
#[derive(Debug, Clone, Copy, PartialEq, Eq, Structural)]
pub enum SlabPhysType {
    BitmapBased { block_size: u32 },
    ExtentBased { max_size: u32 },
    Free,
    Evacuating,
}

/// Allocates blocks from slabs, and logs what it does in two space maps.
///
/// At first all slabs log to the first space map. Slabs are condensed in turn: what is known of
/// a slab is written to the second space map, and the slab logs there from then on. When all
/// slabs have been condensed, the first space map is dropped, the second takes its place, and
/// the next round starts with an empty second one.
pub struct BlockAllocator {
    pub slab_size: u32,
    pub spacemap: SpaceMap,
    pub spacemap_next: SpaceMap,
    pub next_slab_to_condense: SlabId,
    pub slabs: Slabs,
    pub dirty_slabs: Vec<SlabId>,
    pub evacuating_slabs: Vec<SlabId>,
    /// By disk that is being removed and has slabs here: those slabs, which are in no bucket.
    pub noalloc_state: VecMap<Vec<SlabId>>,
    pub slab_buckets: SlabAllocationBuckets,
    pub per_disk_stats: VecMap<DiskStats>,
    /// Used to estimate how many slabs to condense.
    pub checkpoint_allocated_bytes: u64,
    pub segments_at_last_merge: u64,
    /// The slabs that are about to be evacuated, which are in no bucket.
    pub aside: Ghost<Set<int>>,
}

/// The slabs that are tried in turn.
pub open spec fn tried(bucket: SlabBucket) -> Seq<SlabBucketEntry> {
    match bucket.last_allocated {
        None => Seq::empty(),
        Some(e) => if bucket.been_through_once {
            seq![e]
        } else {
            bucket.by_freeness@.skip(bucket.by_freeness@.index_of(e))
        },
    }
}

/// The first `k` of the slabs have no room; the next one has, if there is one.
pub open spec fn first_room(
    m: Map<int, Slab>,
    entries: Seq<SlabBucketEntry>,
    size: int,
    k: int,
) -> bool {
    &&& 0 <= k <= entries.len()
    &&& forall|j: int| 0 <= j < k ==> !m[(#[trigger] entries[j]).slab_id.0 as int].has_room(size)
    &&& k < entries.len() ==> m[entries[k].slab_id.0 as int].has_room(size)
}

/// A block was allocated in a slab; the other slabs are as before.
pub open spec fn allocated_in(
    a: Map<int, Slab>,
    b: Map<int, Slab>,
    id: SlabId,
    size: int,
    extent: Extent,
) -> bool {
    let i = id.0 as int;
    &&& a.contains_key(i)
    &&& b.contains_key(i)
    &&& a[i].has_room(size)
    &&& a[i].picks(size, extent)
    &&& a[i].is_block(extent)
    &&& extent_bytes(extent).subset_of(a[i].free_bytes())
    &&& b[i].same_slab(&a[i])
    &&& b[i].is_dirty
    &&& b[i].free_bytes() == a[i].free_bytes().difference(extent_bytes(extent))
    &&& b[i].allocating_bytes() == a[i].allocating_bytes().union(extent_bytes(extent))
    &&& b[i].freeing_bytes() == a[i].freeing_bytes()
    &&& same_states(a.remove(i), b.remove(i))
}

/// The list of dirty slabs with a slab that has become dirty.
pub open spec fn dirtied(list: Seq<SlabId>, was_dirty: bool, id: SlabId) -> Seq<SlabId> {
    if was_dirty {
        list
    } else {
        list.push(id)
    }
}

impl BlockAllocator {
    /// Which slabs are in use, and by whom.
    #[verifier::opaque]
    pub open spec fn owned_ok(&self, sa: SlabAllocator) -> bool {
        &&& sa.wf()
        &&& indexable(sa.access)
        &&& self.slab_size == sa.access.slab_size
        &&& slabs_ok(sa.access, self.slabs@)
        &&& forall|id: int|
            #[trigger] self.slabs@.contains_key(id) ==> sa.allocated(SlabId(id as u64))
        &&& self.spacemap.log.wf(sa)
        &&& self.spacemap_next.log.wf(sa)
        &&& forall|k: int|
            0 <= k < self.spacemap.log.phys.slabs@.len() ==> {
                let s = #[trigger] self.spacemap.log.phys.slabs@[k];
                &&& !self.slabs@.contains_key(s.0 as int)
                &&& !self.spacemap_next.log.phys.slabs@.contains(s)
            }
        &&& forall|k: int|
            0 <= k < self.spacemap_next.log.phys.slabs@.len() ==> !self.slabs@.contains_key(
                (#[trigger] self.spacemap_next.log.phys.slabs@[k]).0 as int,
            )
    }

    pub open spec fn wf(&self, sa: SlabAllocator) -> bool {
        &&& self.owned_ok(sa)
        &&& forall|id: int| self.aside@.contains(id) ==> #[trigger] self.slabs@.contains_key(id)
        &&& noalloc_ok(self.noalloc_state@, self.evacuating_slabs@, self.slabs@)
        &&& sizes_ok(self.slab_buckets, self.slab_size)
        &&& buckets_ok(self.slab_buckets, self.slabs@, self.inside())
        &&& stats_ok(self.per_disk_stats@, self.slabs@, sa.access.next_slab_id.0 as int)
        &&& dirty_ok(self.dirty_slabs@, self.slabs@)
        &&& forall|k: int|
            0 <= k < self.dirty_slabs@.len() ==> (#[trigger] self.dirty_slabs@[k]).0
                < sa.access.next_slab_id.0
        &&& logs_ok(
            sa.access,
            self.slabs@,
            self.spacemap.all(),
            self.spacemap_next.all(),
            self.next_slab_to_condense.0,
        )
    }

    /// The slabs of the disk are put aside, since the disk is being removed.
    pub open spec fn is_blocked(&self, d: int) -> bool {
        blocked(self.noalloc_state@, self.slabs@, d)
    }

    /// The slabs that can be allocated from.
    pub open spec fn inside(&self) -> Set<int> {
        inside(self.noalloc_state@, self.slabs@, self.aside@)
    }

    /// What cannot be allocated is counted exactly.
    pub open spec fn exact(&self) -> bool {
        noalloc_exact(self.per_disk_stats@, self.noalloc_state@, self.slabs@)
    }

    /// Slabs that can be taken are on disks that are known and not being removed.
    pub open spec fn ready(&self, sa: SlabAllocator) -> bool {
        &&& self.exact()
        &&& forall|k: int|
            0 <= k < sa.allocatable@.len() ==> {
                let d = sa.access.slab_disk(#[trigger] sa.allocatable@[k]);
                &&& self.per_disk_stats@.contains_key(d)
                &&& !self.is_blocked(d)
            }
    }

    proof fn lemma_same_states(a: BlockAllocator, b: BlockAllocator, sa: SlabAllocator)
        requires
            a.wf(sa),
            same_states(a.slabs@, b.slabs@),
            b.slab_size == a.slab_size,
            b.spacemap == a.spacemap,
            b.spacemap_next == a.spacemap_next,
            b.next_slab_to_condense == a.next_slab_to_condense,
            b.dirty_slabs == a.dirty_slabs,
            b.evacuating_slabs == a.evacuating_slabs,
            b.noalloc_state == a.noalloc_state,
            b.aside == a.aside,
            b.per_disk_stats == a.per_disk_stats,
            same_members(a.slab_buckets, b.slab_buckets),
            b.slab_buckets == a.slab_buckets || b.slab_buckets.wf(),
        ensures
            b.wf(sa),
            a.exact() ==> b.exact(),
            a.ready(sa) ==> b.ready(sa),
            forall|d: int| #[trigger] b.is_blocked(d) == a.is_blocked(d),
    {
        let m = a.slabs@;
        assert(same_kinds(m, b.slabs@));
        assert(a.slab_buckets.wf()) by {
            reveal(buckets_ok);
        }
        lemma_blocked_same(a.noalloc_state@, a.evacuating_slabs@, m, b.slabs@);
        lemma_buckets_same(
            a.slab_buckets,
            a.noalloc_state@,
            a.evacuating_slabs@,
            m,
            b.slabs@,
            a.aside@,
        );
        lemma_same_members(
            a.slab_buckets,
            b.slab_buckets,
            b.slabs@,
            b.inside(),
            a.slab_size,
        );
        lemma_stats_same(a.per_disk_stats@, m, b.slabs@, sa.access.next_slab_id.0 as int);
        reveal(BlockAllocator::owned_ok);
        lemma_records_same(
            sa.access,
            m,
            b.slabs@,
            a.dirty_slabs@,
            a.spacemap.all(),
            a.spacemap_next.all(),
            a.next_slab_to_condense.0,
        );
        if a.exact() {
            lemma_exact_same(a.per_disk_stats@, a.noalloc_state@, m, b.slabs@);
        }
        assert forall|d: int| #[trigger] b.is_blocked(d) == a.is_blocked(d) by {
            assert(blocked(b.noalloc_state@, b.slabs@, d) == blocked(a.noalloc_state@, m, d));
        }
    }

    /// Lists a slab as dirty, unless it is listed.
    fn dirty_slab_id(&mut self, slab_id: SlabId)
        requires
            old(self).slabs@.contains_key(slab_id.0 as int),
            old(self).slabs@[slab_id.0 as int].id == slab_id,
            slab_id.0 < usize::MAX,
        ensures
            *final(self) == (BlockAllocator {
                slabs: final(self).slabs,
                dirty_slabs: final(self).dirty_slabs,
                ..*old(self)
            }),
            final(self).slabs@ == old(self).slabs@.insert(
                slab_id.0 as int,
                Slab { is_dirty: true, ..old(self).slabs@[slab_id.0 as int] },
            ),
            final(self).dirty_slabs@ == dirtied(
                old(self).dirty_slabs@,
                old(self).slabs@[slab_id.0 as int].is_dirty,
                slab_id,
            ),
    {
        let mut slab = self.slabs.remove(slab_id).unwrap();
        if !slab.is_dirty {
            self.dirty_slabs.push(slab_id);
            slab.is_dirty = true;
        }
        let _ = self.slabs.insert(slab_id, slab);
        assert(self.slabs@ =~= old(self).slabs@.insert(
            slab_id.0 as int,
            Slab { is_dirty: true, ..old(self).slabs@[slab_id.0 as int] },
        ));
    }

    /// Counts a new allocation.
    fn stats_track_allocation(&mut self, extent: Extent)
        requires
            extent.location.wf(),
            old(self).per_disk_stats@.contains_key(extent.disk_no()),
            extent.size <= old(self).per_disk_stats@[extent.disk_no()].free_bytes,
            old(self).per_disk_stats@[extent.disk_no()].alloc_bytes + extent.size <= u64::MAX,
            old(self).per_disk_stats@[extent.disk_no()].noalloc_bytes == 0,
        ensures
            *final(self) == (BlockAllocator {
                per_disk_stats: final(self).per_disk_stats,
                checkpoint_allocated_bytes: final(self).checkpoint_allocated_bytes,
                ..*old(self)
            }),
            ({
                let d = extent.disk_no();
                let s = old(self).per_disk_stats@[d];
                final(self).per_disk_stats@ == old(self).per_disk_stats@.insert(
                    d,
                    DiskStats {
                        alloc_bytes: (s.alloc_bytes + extent.size) as u64,
                        free_bytes: (s.free_bytes - extent.size) as u64,
                        noalloc_bytes: s.noalloc_bytes,
                    },
                )
            }),
            final(self).checkpoint_allocated_bytes == old(
                self).checkpoint_allocated_bytes.wrapping_add(extent.size),
    {
        let disk = extent.location.disk().index();
        let mut stats = self.per_disk_stats.remove(disk).unwrap();
        stats.free_bytes = stats.free_bytes - extent.size;
        stats.alloc_bytes = stats.alloc_bytes + extent.size;
        let _ = self.per_disk_stats.insert(disk, stats);
        proof {
            let d = extent.disk_no();
            assert(self.per_disk_stats@ =~= old(self).per_disk_stats@.insert(d, stats));
        }
        self.checkpoint_allocated_bytes = self.checkpoint_allocated_bytes.wrapping_add(
            extent.size,
        );
    }

    /// One slab was changed within its kind, and listed as dirty; nothing that was recorded of
    /// it changed.
    proof fn lemma_slab_changed(
        a: BlockAllocator,
        b: BlockAllocator,
        sa: SlabAllocator,
        id: SlabId,
        d: int,
    )
        requires
            a.wf(sa),
            a.slabs@.contains_key(id.0 as int),
            b.slabs@.contains_key(id.0 as int),
            a.slabs@.remove(id.0 as int) =~= b.slabs@.remove(id.0 as int),
            b.slabs@[id.0 as int].same_slab(&a.slabs@[id.0 as int]),
            b.slabs@[id.0 as int].wf(),
            b.slabs@[id.0 as int].is_dirty,
            b.slabs@[id.0 as int].live(),
            b.slabs@[id.0 as int].recorded_free() == a.slabs@[id.0 as int].recorded_free(),
            d == a.slabs@[id.0 as int].disk(),
            b == (BlockAllocator {
                slabs: b.slabs,
                dirty_slabs: b.dirty_slabs,
                per_disk_stats: b.per_disk_stats,
                checkpoint_allocated_bytes: b.checkpoint_allocated_bytes,
                ..a
            }),
            b.dirty_slabs@ == dirtied(a.dirty_slabs@, a.slabs@[id.0 as int].is_dirty, id),
            a.per_disk_stats@.contains_key(d),
            b.per_disk_stats@ =~= a.per_disk_stats@.insert(d, b.per_disk_stats@[d]),
            b.per_disk_stats@[d].alloc_bytes == a.per_disk_stats@[d].alloc_bytes
                + b.slabs@[id.0 as int].allocated_bytes().len()
                - a.slabs@[id.0 as int].allocated_bytes().len(),
            b.per_disk_stats@[d].free_bytes == a.per_disk_stats@[d].free_bytes
                + b.slabs@[id.0 as int].free_bytes().len()
                - a.slabs@[id.0 as int].free_bytes().len(),
            b.per_disk_stats@[d].noalloc_bytes == a.per_disk_stats@[d].noalloc_bytes,
            b.per_disk_stats@[d].noalloc_bytes <= b.per_disk_stats@[d].free_bytes,
        ensures
            b.wf(sa),
            forall|x: int| #[trigger] b.is_blocked(x) == a.is_blocked(x),
            a.exact() && (!a.is_blocked(d) || b.per_disk_stats@[d].free_bytes
                == a.per_disk_stats@[d].free_bytes) ==> b.exact(),
            a.ready(sa) && b.exact() ==> b.ready(sa),
    {
        let i = id.0 as int;
        let m = a.slabs@;
        let m2 = b.slabs@;
        reveal(BlockAllocator::owned_ok);
        assert(slab_ok(sa.access, m[i], i));
        assert(same_kind(m[i], m2[i]));
        lemma_same_kinds_insert(m, m2, i);
        lemma_blocked_same(a.noalloc_state@, a.evacuating_slabs@, m, m2);
        lemma_buckets_same(
            a.slab_buckets,
            a.noalloc_state@,
            a.evacuating_slabs@,
            m,
            m2,
            a.aside@,
        );
        assert(m2[i].slab_type() == m[i].slab_type());
        assert forall|k: int| #[trigger] m2.contains_key(k) implies slab_ok(
            sa.access,
            m2[k],
            k,
        ) by {
            if k != i {
                assert(m2.remove(i).contains_key(k));
                assert(m.remove(i).contains_key(k));
                assert(m.remove(i)[k] == m2.remove(i)[k]);
            }
        }
        sa.access.lemma_id_below_next(id);
        lemma_stats_change(
            a.per_disk_stats@,
            b.per_disk_stats@,
            m,
            m2,
            i,
            sa.access.next_slab_id.0 as int,
            d,
        );
        assert forall|s: SlabId| #[trigger] a.dirty_slabs@.contains(s) implies b.dirty_slabs@.contains(
            s,
        ) by {
            crate::block_based_log::lemma_contains_push(a.dirty_slabs@, id, s);
        }
        crate::block_based_log::lemma_contains_push(a.dirty_slabs@, id, id);
        assert(b.dirty_slabs@.contains(m2[i].id)) by {
            reveal(dirty_ok);
        }
        lemma_dirty_change(a.dirty_slabs@, b.dirty_slabs@, m, m2, i);
        assert forall|x: SlabId|
            #[trigger] record_of(m2, x.0 as int) == record_of(m, x.0 as int) by {
            if x != id {
                let k = x.0 as int;
                assert(m2.remove(i).contains_key(k) == m2.contains_key(k));
                assert(m.remove(i).contains_key(k) == m.contains_key(k));
                assert(m.remove(i)[k] == m2.remove(i)[k]);
            }
        }
        lemma_logs_same(
            sa.access,
            m,
            m2,
            a.spacemap.all(),
            a.spacemap_next.all(),
            a.next_slab_to_condense.0,
        );
        assert forall|x: int| #[trigger] b.is_blocked(x) == a.is_blocked(x) by {
            assert(blocked(b.noalloc_state@, m2, x) == blocked(a.noalloc_state@, m, x));
        }
        if a.exact() && (!a.is_blocked(d) || b.per_disk_stats@[d].free_bytes
            == a.per_disk_stats@[d].free_bytes) {
            reveal(noalloc_exact);
            assert forall|x: int| #[trigger] b.per_disk_stats@.contains_key(
                x,
            ) implies b.per_disk_stats@[x].noalloc_bytes == if blocked(b.noalloc_state@, m2, x) {
                b.per_disk_stats@[x].free_bytes
            } else {
                0
            } by {
                assert(a.per_disk_stats@.contains_key(x));
                assert(b.is_blocked(x) == a.is_blocked(x));
            }
        }
    }

    /// Tries to allocate from one slab.
    fn allocate_in(&mut self, sa: &SlabAllocator, id: SlabId, size: u32) -> (r: Option<Extent>)
        requires
            old(self).wf(*sa),
            old(self).exact(),
            old(self).slabs@.contains_key(id.0 as int),
            old(self).slabs@[id.0 as int].live(),
            !old(self).is_blocked(old(self).slabs@[id.0 as int].disk()),
            size > 0,
            size % 512 == 0,
            old(self).slabs@[id.0 as int].inner is BitmapBased ==> size <= old(
                self).slabs@[id.0 as int].spec_max_size(),
        ensures
            final(self).wf(*sa),
            final(self).exact(),
            old(self).ready(*sa) ==> final(self).ready(*sa),
            forall|x: int| #[trigger] final(self).is_blocked(x) == old(self).is_blocked(x),
            r is Some <==> old(self).slabs@[id.0 as int].has_room(size as int),
            r is None ==> {
                &&& same_states(old(self).slabs@, final(self).slabs@)
                &&& *final(self) == (BlockAllocator { slabs: final(self).slabs, ..*old(self) })
            },
            r matches Some(extent) ==> {
                &&& allocated_in(old(self).slabs@, final(self).slabs@, id, size as int, extent)
                &&& *final(self) == (BlockAllocator {
                    slabs: final(self).slabs,
                    dirty_slabs: final(self).dirty_slabs,
                    per_disk_stats: final(self).per_disk_stats,
                    checkpoint_allocated_bytes: final(self).checkpoint_allocated_bytes,
                    ..*old(self)
                })
                &&& final(self).dirty_slabs@ == dirtied(
                    old(self).dirty_slabs@,
                    old(self).slabs@[id.0 as int].is_dirty,
                    id,
                )
                &&& final(self).checkpoint_allocated_bytes == old(
                    self).checkpoint_allocated_bytes.wrapping_add(extent.size)
                &&& final(self).per_disk_stats@.dom() == old(self).per_disk_stats@.dom()
            },
    {
        let ghost a = *self;
        let ghost i = id.0 as int;
        proof {
            reveal(BlockAllocator::owned_ok);
            assert(slab_ok(sa.access, a.slabs@[i], i));
            sa.access.lemma_id_below_next(id);
            sa.access.lemma_slab_extent(sa.access.holder(id), id);
            a.slabs@[i].lemma_within(sa.access.slab_extent(id));
            lemma_stats_at_least(sa.access, a.per_disk_stats@, a.slabs@, i);
        }
        let mut slab = self.slabs.remove(id).unwrap();
        let r = slab.allocate(size);
        let _ = self.slabs.insert(id, slab);
        let ghost b = *self;
        assert(b.slabs@ =~= a.slabs@.insert(i, slab));
        match r {
            None => {
                proof {
                    Self::lemma_same_states(a, b, *sa);
                }
                None
            },
            Some(extent) => {
                self.dirty_slab_id(id);
                let ghost c = *self;
                proof {
                    let d = a.slabs@[i].disk();
                    let s2 = c.slabs@[i];
                    assert(c.slabs@ =~= a.slabs@.insert(i, s2));
                    assert(s2.same_slab(&a.slabs@[i]));
                    Slab::lemma_allocated_sizes(&a.slabs@[i], &s2, extent);
                    a.slabs@[i].lemma_sizes();
                    assert(slabs_ok(sa.access, c.slabs@));
                    lemma_stats_fit(sa.access, c.slabs@, d);
                    lemma_sum_slabs_change(
                        a.slabs@,
                        c.slabs@,
                        i,
                        sa.access.next_slab_id.0 as int,
                        alloc_on(d),
                    );
                    reveal(stats_ok);
                    reveal(noalloc_exact);
                    a.slabs@[i].lemma_block_disk(extent);
                }
                self.stats_track_allocation(extent);
                proof {
                    let d = a.slabs@[i].disk();
                    Self::lemma_slab_changed(a, *self, *sa, id, d);
                    assert(same_states(a.slabs@.remove(i), self.slabs@.remove(i)));
                    assert(self.per_disk_stats@.dom() =~= a.per_disk_stats@.dom());
                }
                Some(extent)
            },
        }
    }

    /// Counts a newly created slab.
    fn stats_add_new_slab(&mut self, slab: &Slab)
        requires
            slab.wf(),
            slab.spec_location().wf(),
            old(self).per_disk_stats@.contains_key(slab.disk()),
            old(self).per_disk_stats@[slab.disk()].free_bytes + slab.whole().len() <= u64::MAX,
        ensures
            *final(self) == (BlockAllocator {
                per_disk_stats: final(self).per_disk_stats,
                ..*old(self)
            }),
            ({
                let d = slab.disk();
                let s = old(self).per_disk_stats@[d];
                final(self).per_disk_stats@ == old(self).per_disk_stats@.insert(
                    d,
                    DiskStats { free_bytes: (s.free_bytes + slab.whole().len()) as u64, ..s },
                )
            }),
    {
        let disk = slab.location().disk().index();
        let mut stats = self.per_disk_stats.remove(disk).unwrap();
        stats.free_bytes = stats.free_bytes + slab.capacity_bytes();
        let _ = self.per_disk_stats.insert(disk, stats);
        assert(self.per_disk_stats@ =~= old(self).per_disk_stats@.insert(slab.disk(), stats));
    }

    /// Records in the right space map what a slab is used for.
    pub(crate) fn mark_slab_info(&mut self, id: SlabId)
        requires
            old(self).slabs@.contains_key(id.0 as int),
            old(self).slabs@[id.0 as int].id == id,
            id.0 <= usize::MAX,
        ensures
            *final(self) == (BlockAllocator {
                spacemap: final(self).spacemap,
                spacemap_next: final(self).spacemap_next,
                ..*old(self)
            }),
            logged(
                *old(self),
                *final(self),
                id,
                seq![SpaceMapEntry::SlabInfo(id, old(self).slabs@[id.0 as int].slab_type())],
            ),
    {
        let slab = self.slabs.get(id);
        if self.next_slab_to_condense.0 <= id.0 {
            slab.mark_slab_info(&mut self.spacemap);
        } else {
            slab.mark_slab_info(&mut self.spacemap_next);
        }
    }

    /// Takes a slab into use for a request, and allocates from it.
    fn allocate_from_new_slab(&mut self, sa: &mut SlabAllocator, request_size: u32) -> (r: Option<
        Extent,
    >)
        requires
            old(self).wf(*old(sa)),
            old(self).ready(*old(sa)),
            request_size > 0,
            request_size % 512 == 0,
            request_size <= old(self).slab_size,
            exists|i: int|
                0 <= i < old(self).slab_buckets.len() && #[trigger] old(self).slab_buckets.size(i)
                    >= request_size,
        ensures
            final(self).wf(*final(sa)),
            final(self).ready(*final(sa)),
            final(sa).access == old(sa).access,
            old(sa).separate() ==> final(sa).separate(),
            forall|x: int| #[trigger] final(self).is_blocked(x) == old(self).is_blocked(x),
            kept_by_allocation(*old(self), *final(self)),
            r is Some <==> old(sa).allocatable@.len() > old(sa).reserved_slabs,
            r is None ==> *final(self) == *old(self) && *final(sa) == *old(sa),
            r matches Some(extent) ==> new_slab_allocated(
                *old(self),
                *final(self),
                *old(sa),
                *final(sa),
                request_size,
                extent,
            ),
    {
        let ghost a = *self;
        let ghost sa0 = *sa;
        proof {
            reveal(BlockAllocator::owned_ok);
        }
        let new_id = match sa.allocate() {
            Some(id) => id,
            None => {
                return None;
            },
        };
        let ghost i = new_id.0 as int;
        let ghost d = sa.access.slab_disk(new_id);
        proof {
            assert(sa0.allocatable@[sa0.allocatable@.len() - 1] == new_id);
            assert(self.per_disk_stats@.contains_key(d));
            assert(!self.is_blocked(d));
            if a.slabs@.contains_key(i) {
                assert(sa0.allocated(SlabId(i as u64)));
            }
            sa.access.lemma_slab_extent(sa.access.holder(new_id), new_id);
            sa.access.lemma_id_below_next(new_id);
        }
        let extent = sa.slab_id_to_extent(new_id);
        let j = self.slab_buckets.find(request_size);
        let bucket_size = self.slab_buckets.buckets[j].0;
        let is_extent_based = self.slab_buckets.buckets[j].1.is_extent_based;
        proof {
            assert(self.slab_buckets.size(j as int) == bucket_size.0);
        }
        let mut new_slab = if is_extent_based {
            Slab::new_extent_based(new_id, extent, bucket_size.0)
        } else {
            Slab::new_bitmap(new_id, extent, bucket_size.0)
        };
        let ghost fresh = new_slab;
        let entry = new_slab.to_slab_bucket_entry();
        proof {
            fresh.lemma_within(extent);
            fresh.lemma_sizes();
            lemma_not_in_buckets(a.slab_buckets, a.slabs@, a.inside(), new_id);
            assert(a.slab_buckets.bucket(j as int).wf()) by {
                reveal(buckets_ok);
            }
        }
        self.slab_buckets.buckets[j].1.insert(entry);
        proof {
            lemma_fresh_room(fresh, extent, request_size, bucket_size.0);
        }
        let r = new_slab.allocate(request_size).unwrap();
        proof {
            fresh.lemma_block_disk(r);
            Slab::lemma_allocated_sizes(&fresh, &new_slab, r);
            let m2 = a.slabs@.insert(i, new_slab);
            assert(slab_ok(sa.access, new_slab, i));
            assert(slabs_ok(sa.access, m2));
            lemma_stats_fit(sa.access, m2, d);
            lemma_stats_fit(sa.access, a.slabs@.insert(i, fresh), d);
            assert(slab_ok(sa.access, fresh, i));
            let n = sa.access.next_slab_id.0 as int;
            assert(a.slabs@.remove(i) =~= m2.remove(i));
            assert(a.slabs@.remove(i) =~= a.slabs@.insert(i, fresh).remove(i));
            lemma_sum_slabs_change(a.slabs@, m2, i, n, alloc_on(d));
            lemma_sum_slabs_change(a.slabs@, a.slabs@.insert(i, fresh), i, n, free_on(d));
            reveal(stats_ok);
            reveal(noalloc_exact);
        }
        self.stats_add_new_slab(&new_slab);
        self.stats_track_allocation(r);
        let _ = self.slabs.insert(new_id, new_slab);
        self.mark_slab_info(new_id);
        self.dirty_slab_id(new_id);
        proof {
            let b = *self;
            let slab = b.slabs@[i];
            assert(b.slabs@ =~= a.slabs@.insert(i, slab));
            fresh.lemma_clean_record();
            assert(slab.inner == new_slab.inner);
            assert(slab.recorded_free() == fresh.free_bytes());
            assert(slab.whole() == fresh.whole());
            assert(slab.allocating_bytes() =~= extent_bytes(r));
            assert(fresh.picks(request_size as int, r));
            assert(a.slab_buckets.serves(j as int, request_size as int));
            assert(slab.fits(r)) by {
                fresh.lemma_fits(extent, r);
                slab.lemma_fits(extent, r);
            }
            lemma_new_slab_wf(a, b, sa0, *sa, new_id, slab, j as int, entry);
            assert(b.per_disk_stats@.dom() =~= a.per_disk_stats@.dom());
        }
        Some(r)
    }

    /// Allocates from the slabs of a bucket in turn, those with the most free space (by the last
    /// flush) first, from the one that the last block came from on. If none of them has room, a
    /// new slab is taken into use; if there is none, the allocation fails.
    #[verifier::spinoff_prover]
    #[verifier::rlimit(40)]
    pub(crate) fn allocate_impl(&mut self, sa: &mut SlabAllocator, index: usize, request_size: u32) -> (r:
        Option<Extent>)
        requires
            old(self).wf(*old(sa)),
            old(self).ready(*old(sa)),
            index < old(self).slab_buckets.len(),
            request_size > 0,
            request_size % 512 == 0,
            request_size <= old(self).slab_size,
            !old(self).slab_buckets.bucket(index as int).is_extent_based ==> request_size <= old(
                self).slab_buckets.size(index as int),
            exists|i: int|
                0 <= i < old(self).slab_buckets.len() && #[trigger] old(self).slab_buckets.size(i)
                    >= request_size,
        ensures
            final(self).wf(*final(sa)),
            final(self).ready(*final(sa)),
            final(sa).access == old(sa).access,
            old(sa).separate() ==> final(sa).separate(),
            forall|x: int| #[trigger] final(self).is_blocked(x) == old(self).is_blocked(x),
            allocation(*old(self), *final(self), *old(sa), *final(sa), index as int, request_size, r),
            kept_by_allocation(*old(self), *final(self)),
    {
        let ghost a = *self;
        let ghost bucket = self.slab_buckets.bucket(index as int);
        let ghost list = tried(bucket);
        let ghost mut p: int = 0;
        proof {
            lemma_tried(bucket, a.slab_buckets, a.slabs@, a.inside(), index as int);
        }
        loop
            invariant
                a == *old(self),
                *sa == *old(sa),
                index < self.slab_buckets.len(),
                a.wf(*sa),
                self.wf(*sa),
                self.ready(*sa),
                request_size > 0,
                request_size % 512 == 0,
                request_size <= a.slab_size,
                bucket == a.slab_buckets.bucket(index as int),
                !bucket.is_extent_based ==> request_size <= a.slab_buckets.size(index as int),
                exists|i: int|
                    0 <= i < a.slab_buckets.len() && #[trigger] a.slab_buckets.size(i)
                        >= request_size,
                forall|x: int| #[trigger] self.is_blocked(x) == a.is_blocked(x),
                list == tried(bucket),
                0 <= p <= list.len(),
                forall|k: int|
                    0 <= k < list.len() ==> in_bucket(
                        a,
                        index as int,
                        (#[trigger] list[k]).slab_id,
                    ),
                forall|k: int|
                    0 <= k < p ==> !a.slabs@[(#[trigger] list[k]).slab_id.0 as int].has_room(
                        request_size as int,
                    ),
                same_states(a.slabs@, self.slabs@),
                same_members(a.slab_buckets, self.slab_buckets),
                bucket.wf(),
                self.slab_buckets.bucket(index as int).last_allocated == if p < list.len() {
                    Some(list[p])
                } else {
                    None
                },
                p < list.len() ==> self.slab_buckets.bucket(index as int).been_through_once
                    == bucket.been_through_once,
                *self == (BlockAllocator {
                    slabs: self.slabs,
                    slab_buckets: self.slab_buckets,
                    ..a
                }),
            decreases list.len() - p,
        {
            proof {
                assert(self.slab_buckets.wf()) by {
                    reveal(buckets_ok);
                }
                assert(self.slab_buckets.size(index as int) == a.slab_buckets.size(index as int));
            }
            match self.slab_buckets.buckets[index].1.get_current() {
                Some(id) => {
                    let ghost b = *self;
                    proof {
                        assert(p < list.len());
                        assert(in_bucket(a, index as int, list[p].slab_id));
                        assert(a.slabs@.contains_key(id.0 as int));
                        assert(b.is_blocked(a.slabs@[id.0 as int].disk()) == a.is_blocked(
                            a.slabs@[id.0 as int].disk(),
                        ));
                    }
                    let r = self.allocate_in(sa, id, request_size);
                    match r {
                        Some(extent) => {
                            proof {
                                lemma_allocated_in(
                                    a.slabs@,
                                    b.slabs@,
                                    self.slabs@,
                                    id,
                                    request_size as int,
                                    extent,
                                );
                                assert(first_room(a.slabs@, list, request_size as int, p));
                                assert forall|x: int|
                                    #[trigger] self.is_blocked(x) == a.is_blocked(x) by {
                                    assert(b.is_blocked(x) == a.is_blocked(x));
                                }
                            }
                            return Some(extent);
                        },
                        None => {
                            let ghost c = *self;
                            let _ = self.slab_buckets.buckets[index].1.advance();
                            proof {
                                lemma_advanced(
                                    c.slab_buckets,
                                    self.slab_buckets,
                                    index as int,
                                );
                                lemma_members_trans(
                                    a.slab_buckets,
                                    c.slab_buckets,
                                    self.slab_buckets,
                                );
                                Self::lemma_same_states(c, *self, *sa);
                                lemma_next_tried(
                                    bucket,
                                    p,
                                    self.slab_buckets.bucket(index as int).last_allocated,
                                );
                                p = p + 1;
                                assert forall|x: int|
                                    #[trigger] self.is_blocked(x) == a.is_blocked(x) by {
                                    assert(c.is_blocked(x) == b.is_blocked(x));
                                    assert(b.is_blocked(x) == a.is_blocked(x));
                                }
                                assert(same_states(a.slabs@, self.slabs@));
                            }
                        },
                    }
                },
                None => {
                    let ghost b = *self;
                    proof {
                        assert(p == list.len());
                        assert(first_room(a.slabs@, list, request_size as int, p));
                        let w = choose|i: int|
                            0 <= i < a.slab_buckets.len() && #[trigger] a.slab_buckets.size(i)
                                >= request_size;
                        assert(b.slab_buckets.size(w) >= request_size);
                    }
                    let r = self.allocate_from_new_slab(sa, request_size);
                    proof {
                        assert forall|x: int| #[trigger] self.is_blocked(x) == a.is_blocked(x) by {
                            assert(b.is_blocked(x) == a.is_blocked(x));
                        }
                        lemma_kept_since(a, b, *self);
                        if r is Some {
                            lemma_new_slab_since(a, b, *self, *old(sa), *sa, request_size, r->0);
                        }
                    }
                    return r;
                },
            }
        }
    }

    /// Allocates a block for a request.
    pub fn allocate(&mut self, sa: &mut SlabAllocator, request_size: u32) -> (r: Option<Extent>)
        requires
            old(self).wf(*old(sa)),
            old(self).ready(*old(sa)),
            request_size > 0,
            request_size % 512 == 0,
            request_size <= old(self).slab_size,
            exists|i: int|
                0 <= i < old(self).slab_buckets.len() && #[trigger] old(self).slab_buckets.size(i)
                    >= request_size,
        ensures
            final(self).wf(*final(sa)),
            final(self).ready(*final(sa)),
            final(sa).access == old(sa).access,
            old(sa).separate() ==> final(sa).separate(),
            forall|x: int| #[trigger] final(self).is_blocked(x) == old(self).is_blocked(x),
            exists|index: int|
                #[trigger] old(self).slab_buckets.serves(index, request_size as int) && allocation(
                    *old(self),
                    *final(self),
                    *old(sa),
                    *final(sa),
                    index,
                    request_size,
                    r,
                ),
            kept_by_allocation(*old(self), *final(self)),
    {
        let index = self.slab_buckets.find(request_size);
        self.allocate_impl(sa, index, request_size)
    }

    /// The extent is a block of the slab that is allocated and has not been freed.
    pub open spec fn is_allocated_block(&self, id: SlabId, extent: Extent) -> bool {
        let i = id.0 as int;
        &&& self.slabs@.contains_key(i)
        &&& self.slabs@[i].is_block(extent)
        &&& extent_bytes(extent).disjoint(self.slabs@[i].free_bytes())
        &&& extent_bytes(extent).disjoint(self.slabs@[i].freeing_bytes())
    }

    /// Counts a free.
    fn stats_track_free(&mut self, extent: Extent)
        requires
            extent.location.wf(),
            old(self).per_disk_stats@.contains_key(extent.disk_no()),
            extent.size <= old(self).per_disk_stats@[extent.disk_no()].alloc_bytes,
        ensures
            *final(self) == (BlockAllocator {
                per_disk_stats: final(self).per_disk_stats,
                ..*old(self)
            }),
            ({
                let d = extent.disk_no();
                let s = old(self).per_disk_stats@[d];
                final(self).per_disk_stats@ == old(self).per_disk_stats@.insert(
                    d,
                    DiskStats { alloc_bytes: (s.alloc_bytes - extent.size) as u64, ..s },
                )
            }),
    {
        let disk = extent.location.disk().index();
        let mut stats = self.per_disk_stats.remove(disk).unwrap();
        stats.alloc_bytes = stats.alloc_bytes - extent.size;
        let _ = self.per_disk_stats.insert(disk, stats);
        assert(self.per_disk_stats@ =~= old(self).per_disk_stats@.insert(extent.disk_no(), stats));
    }

    /// Frees a block. It can be allocated again after the next flush.
    pub fn free(&mut self, sa: &SlabAllocator, extent: Extent)
        requires
            old(self).wf(*sa),
            exists|id: SlabId| #[trigger] old(self).is_allocated_block(id, extent),
        ensures
            final(self).wf(*sa),
            old(self).exact() ==> final(self).exact(),
            old(self).ready(*sa) ==> final(self).ready(*sa),
            forall|x: int| #[trigger] final(self).is_blocked(x) == old(self).is_blocked(x),
            freed_block(*old(self), *final(self), extent),
    {
        let ghost a = *self;
        let ghost w = choose|id: SlabId| #[trigger] a.is_allocated_block(id, extent);
        proof {
            reveal(BlockAllocator::owned_ok);
            assert(slab_ok(sa.access, a.slabs@[w.0 as int], w.0 as int));
            sa.access.lemma_slab_extent(sa.access.holder(w), w);
            a.slabs@[w.0 as int].lemma_fits(sa.access.slab_extent(w), extent);
            a.slabs@[w.0 as int].lemma_block_disk(extent);
            a.slabs@[w.0 as int].lemma_within(sa.access.slab_extent(w));
            sa.access.lemma_id_below_next(w);
            lemma_stats_at_least(sa.access, a.per_disk_stats@, a.slabs@, w.0 as int);
        }
        let slab_id = sa.access.extent_to_slab_id(extent);
        proof {
            sa.access.law_slab_of_extent_unique(w, slab_id, extent);
        }
        let ghost i = slab_id.0 as int;
        let mut slab = self.slabs.remove(slab_id).unwrap();
        slab.free(extent);
        let _ = self.slabs.insert(slab_id, slab);
        proof {
            Slab::lemma_freed_sizes(&a.slabs@[i], &slab, extent);
            assert(slab.recorded_free() =~= a.slabs@[i].recorded_free());
        }
        self.stats_track_free(extent);
        self.dirty_slab_id(slab_id);
        proof {
            reveal(stats_ok);
            let b = *self;
            assert(b.slabs@ =~= a.slabs@.insert(i, b.slabs@[i]));
            Self::lemma_slab_changed(a, b, *sa, slab_id, a.slabs@[i].disk());
            assert(a.is_allocated_block(slab_id, extent));
            if a.ready(*sa) {
                assert(b.per_disk_stats@.dom() =~= a.per_disk_stats@.dom());
            }
        }
    }

    /// Adds a disk without slabs.
    pub fn add_disk(&mut self, sa: &SlabAllocator, disk: DiskId)
        requires
            old(self).wf(*sa),
            disk.wf(),
            !old(self).per_disk_stats@.contains_key(disk.0 as int),
        ensures
            final(self).wf(*sa),
            old(self).exact() && !old(self).is_blocked(disk.0 as int) ==> final(self).exact(),
            *final(self) == (BlockAllocator {
                per_disk_stats: final(self).per_disk_stats,
                ..*old(self)
            }),
            final(self).per_disk_stats@ == old(self).per_disk_stats@.insert(
                disk.0 as int,
                DiskStats { alloc_bytes: 0, free_bytes: 0, noalloc_bytes: 0 },
            ),
    {
        let _ = self.per_disk_stats.insert(disk.index(), DiskStats::default());
        proof {
            reveal(BlockAllocator::owned_ok);
            reveal(stats_ok);
            reveal(noalloc_exact);
            let d = disk.0 as int;
            let n = sa.access.next_slab_id.0 as int;
            lemma_sum_none(self.slabs@, n, alloc_on(d));
            lemma_sum_none(self.slabs@, n, free_on(d));
        }
    }

    /// Forgets a disk that has no slabs.
    pub fn remove_disk(&mut self, sa: &SlabAllocator, disk: DiskId)
        requires
            old(self).wf(*sa),
            old(self).per_disk_stats@.contains_key(disk.0 as int),
            old(self).per_disk_stats@[disk.0 as int].alloc_bytes == 0,
            old(self).per_disk_stats@[disk.0 as int].free_bytes == 0,
            old(self).per_disk_stats@[disk.0 as int].noalloc_bytes == 0,
            !old(self).noalloc_state@.contains_key(disk.0 as int),
            forall|id: int|
                #[trigger] old(self).slabs@.contains_key(id) ==> old(self).slabs@[id].disk()
                    != disk.0,
        ensures
            final(self).wf(*sa),
            old(self).exact() ==> final(self).exact(),
            *final(self) == (BlockAllocator {
                per_disk_stats: final(self).per_disk_stats,
                ..*old(self)
            }),
            final(self).per_disk_stats@ == old(self).per_disk_stats@.remove(disk.0 as int),
    {
        let _ = self.per_disk_stats.remove(disk.index());
        proof {
            reveal(BlockAllocator::owned_ok);
            reveal(stats_ok);
            reveal(noalloc_exact);
        }
    }
}

pub proof fn lemma_sum_none(m: Map<int, Slab>, n: int, f: spec_fn(Slab) -> int)
    requires
        forall|k: int| #[trigger] m.contains_key(k) ==> f(m[k]) == 0,
    ensures
        sum_slabs(m, n, f) == 0,
    decreases n,
{
    if n > 0 {
        lemma_sum_none(m, n - 1, f);
    }
}

/// A slab from which the bucket allocates.
pub open spec fn in_bucket(a: BlockAllocator, index: int, id: SlabId) -> bool {
    let i = id.0 as int;
    &&& a.slabs@.contains_key(i)
    &&& a.slabs@[i].live()
    &&& home(a.slab_buckets, a.slabs@[i], index)
    &&& a.inside().contains(i)
}

/// The outcome of an allocation from a bucket.
pub open spec fn allocation(
    a: BlockAllocator,
    b: BlockAllocator,
    sa: SlabAllocator,
    sb: SlabAllocator,
    index: int,
    request_size: u32,
    r: Option<Extent>,
) -> bool {
    let list = tried(a.slab_buckets.bucket(index));
    exists|k: int| #[trigger]
        first_room(a.slabs@, list, request_size as int, k) && if k < list.len() {
            &&& r is Some
            &&& allocated_in(
                a.slabs@,
                b.slabs@,
                list[k].slab_id,
                request_size as int,
                r->0,
            )
            &&& sb == sa
            &&& b.slab_buckets.bucket(index).last_allocated == Some(list[k])
            &&& same_members(a.slab_buckets, b.slab_buckets)
            &&& b.dirty_slabs@ == dirtied(
                a.dirty_slabs@,
                a.slabs@[list[k].slab_id.0 as int].is_dirty,
                list[k].slab_id,
            )
            &&& b.checkpoint_allocated_bytes == a.checkpoint_allocated_bytes.wrapping_add(
                r->0.size,
            )
            &&& b == (BlockAllocator {
                slabs: b.slabs,
                slab_buckets: b.slab_buckets,
                dirty_slabs: b.dirty_slabs,
                per_disk_stats: b.per_disk_stats,
                checkpoint_allocated_bytes: b.checkpoint_allocated_bytes,
                ..a
            })
        } else {
            &&& r is Some <==> sa.allocatable@.len() > sa.reserved_slabs
            &&& r is Some ==> new_slab_allocated(a, b, sa, sb, request_size, r->0)
            &&& r is None ==> {
                &&& same_states(a.slabs@, b.slabs@)
                &&& sb == sa
                &&& b.slab_buckets.bucket(index).last_allocated is None
                &&& b == (BlockAllocator { slabs: b.slabs, slab_buckets: b.slab_buckets, ..a })
            }
        }
}

/// A block has been freed: it cannot be allocated yet, but it will be free after a flush.
pub open spec fn freed_block(x: BlockAllocator, y: BlockAllocator, extent: Extent) -> bool {
    &&& y == (BlockAllocator {
        slabs: y.slabs,
        dirty_slabs: y.dirty_slabs,
        per_disk_stats: y.per_disk_stats,
        ..x
    })
    &&& exists|id: SlabId|
        {
            let i = id.0 as int;
            let a = x.slabs@[i];
            let b = y.slabs@[i];
            &&& #[trigger] x.is_allocated_block(id, extent)
            &&& y.slabs@ == x.slabs@.insert(i, b)
            &&& b.same_slab(&a)
            &&& b.is_dirty
            &&& y.dirty_slabs@ == dirtied(x.dirty_slabs@, a.is_dirty, id)
            &&& b.free_bytes() == a.free_bytes()
            &&& b.allocating_bytes() == a.allocating_bytes()
            &&& b.freeing_bytes() == a.freeing_bytes().union(extent_bytes(extent))
        }
}

/// What is not touched after slabs have been passed over is not touched at all.
proof fn lemma_kept_since(a: BlockAllocator, b: BlockAllocator, c: BlockAllocator)
    requires
        same_members(a.slab_buckets, b.slab_buckets),
        b == (BlockAllocator { slabs: b.slabs, slab_buckets: b.slab_buckets, ..a }),
        kept_by_allocation(b, c),
    ensures
        kept_by_allocation(a, c),
{
    assert forall|i: int| 0 <= i < a.slab_buckets.len() implies #[trigger] c.slab_buckets.size(i)
        == a.slab_buckets.size(i) && c.slab_buckets.bucket(i).is_extent_based
        == a.slab_buckets.bucket(i).is_extent_based by {
        assert(b.slab_buckets.size(i) == a.slab_buckets.size(i));
    }
}

/// What an allocation does not touch.
pub open spec fn kept_by_allocation(a: BlockAllocator, b: BlockAllocator) -> bool {
    &&& b.slab_size == a.slab_size
    &&& b.next_slab_to_condense == a.next_slab_to_condense
    &&& b.evacuating_slabs == a.evacuating_slabs
    &&& b.noalloc_state == a.noalloc_state
    &&& b.aside == a.aside
    &&& b.segments_at_last_merge == a.segments_at_last_merge
    &&& b.per_disk_stats@.dom() == a.per_disk_stats@.dom()
    &&& b.slab_buckets.len() == a.slab_buckets.len()
    &&& forall|i: int|
        0 <= i < a.slab_buckets.len() ==> #[trigger] b.slab_buckets.size(i)
            == a.slab_buckets.size(i) && b.slab_buckets.bucket(i).is_extent_based
            == a.slab_buckets.bucket(i).is_extent_based
}

/// The entries went to the space map that the number of the slab calls for.
pub open spec fn logged(
    a: BlockAllocator,
    b: BlockAllocator,
    id: SlabId,
    entries: Seq<SpaceMapEntry>,
) -> bool {
    if a.next_slab_to_condense.0 <= id.0 {
        &&& continued(a.spacemap, b.spacemap, entries)
        &&& b.spacemap_next == a.spacemap_next
    } else {
        &&& b.spacemap == a.spacemap
        &&& continued(a.spacemap_next, b.spacemap_next, entries)
    }
}

/// The last free slab was taken for the smallest bucket that can satisfy the request, and its
/// first block allocated.
pub open spec fn new_slab_allocated(
    a: BlockAllocator,
    b: BlockAllocator,
    sa: SlabAllocator,
    sb: SlabAllocator,
    request_size: u32,
    extent: Extent,
) -> bool {
    let id = sa.allocatable@.last();
    let i = id.0 as int;
    let slab = b.slabs@[i];
    let slab_extent = sa.access.slab_extent(id);
    &&& sb.allocatable@ == sa.allocatable@.drop_last()
    &&& sb.freeing == sa.freeing
    &&& sb.noalloc_state == sa.noalloc_state
    &&& sb.noallocing == sa.noallocing
    &&& sb.reserved_slabs == sa.reserved_slabs
    &&& !a.slabs@.contains_key(i)
    &&& b.slabs@.contains_key(i)
    &&& same_states(a.slabs@, b.slabs@.remove(i))
    &&& slab.of(slab_extent)
    &&& exists|j: int| #[trigger]
        a.slab_buckets.serves(j, request_size as int) && slab.slab_type() == if a.slab_buckets.bucket(
            j,
        ).is_extent_based {
            SlabPhysType::ExtentBased { max_size: a.slab_buckets.size(j) }
        } else {
            SlabPhysType::BitmapBased { block_size: a.slab_buckets.size(j) }
        } && extent.size == if a.slab_buckets.bucket(j).is_extent_based {
            request_size
        } else {
            a.slab_buckets.size(j)
        } && b.slab_buckets.bucket(j).last_allocated == Some(
            SlabBucketEntry { allocated_space: 0, slab_id: id },
        )
    &&& slab.is_dirty
    &&& b.dirty_slabs@ == a.dirty_slabs@.push(id)
    &&& extent.location == slab_extent.location
    &&& slab.is_block(extent)
    &&& extent_bytes(extent).subset_of(slab.whole())
    &&& slab.free_bytes() == slab.whole().difference(extent_bytes(extent))
    &&& slab.allocating_bytes() == extent_bytes(extent)
    &&& slab.freeing_bytes() == Set::<int>::empty()
    &&& logged(a, b, id, seq![SpaceMapEntry::SlabInfo(id, slab.slab_type())])
    &&& b.checkpoint_allocated_bytes == a.checkpoint_allocated_bytes.wrapping_add(extent.size)
}

/// A slab that is not there is in no bucket.
proof fn lemma_not_in_buckets(
    buckets: SlabAllocationBuckets,
    m: Map<int, Slab>,
    ids: Set<int>,
    id: SlabId,
)
    requires
        buckets_ok(buckets, m, ids),
        !m.contains_key(id.0 as int),
    ensures
        forall|i: int|
            0 <= i < buckets.len() ==> !has_slab(
                (#[trigger] buckets.bucket(i)).by_freeness@,
                id,
            ),
{
    reveal(buckets_ok);
    assert forall|i: int| 0 <= i < buckets.len() implies !has_slab(
        (#[trigger] buckets.bucket(i)).by_freeness@,
        id,
    ) by {
        let s = buckets.bucket(i).by_freeness@;
        if has_slab(s, id) {
            let k = choose|k: int| 0 <= k < s.len() && (#[trigger] s[k]).slab_id == id;
            assert(m.contains_key(buckets.bucket(i).by_freeness@[k].slab_id.0 as int));
        }
    }
}

/// An empty slab has room, from its start on.
proof fn lemma_fresh_room(slab: Slab, extent: Extent, request_size: u32, bucket_size: u32)
    requires
        slab.wf(),
        slab.of(extent),
        extent.wf(),
        extent.size <= u32::MAX,
        0 < request_size <= extent.size,
        slab.free_bytes() == slab.whole(),
        slab.live(),
        slab.spec_max_size() == bucket_size,
        match slab.inner {
            SlabEnum::BitmapBased(s) => s.allocatable@ == crate::range_tree::span(
                0,
                s.total_slots as int,
            ) && bucket_size <= extent.size,
            SlabEnum::ExtentBased(s) => s.last_location == 0,
            SlabEnum::Evacuating(_) => false,
        },
    ensures
        slab.has_room(request_size as int),
        forall|r: Extent| #[trigger]
            slab.picks(request_size as int, r) ==> r.location == extent.location,
{
    match slab.inner {
        SlabEnum::BitmapBased(s) => {
            let z = bucket_size as int;
            let n = extent.size as int;
            assert(n / z >= 1) by (nonlinear_arith)
                requires
                    0 < z <= n,
            ;
            assert(s.allocatable@.contains(0));
            assert forall|r: Extent| #[trigger]
                slab.picks(request_size as int, r) implies r.location == extent.location by {
                let slot = choose|slot: int|
                    {
                        &&& #[trigger] s.allocatable@.contains(slot)
                        &&& forall|o: int| s.allocatable@.contains(o) ==> slot <= o
                        &&& r == s.slot_extent(slot)
                    };
                assert(slot == 0);
                assert(0 * s.slot_size == 0);
                crate::base_types::law_location_at(s.location);
            }
        },
        SlabEnum::ExtentBased(s) => {
            let segs = s.allocatable.segs@;
            let one = seq![(s.base() as u64, s.total_space)];
            assert forall|o: int| crate::range_tree::segs_have(segs, o)
                <==> crate::range_tree::segs_have(one, o) by {
                assert(s.allocatable@.contains(o) <==> s.whole().contains(o));
                if s.whole().contains(o) {
                    assert(one[0].0 <= o < one[0].0 + one[0].1);
                }
            }
            assert(segs == one) by {
                crate::range_tree::law_segments_unique(segs, one);
            }
            assert(segs[0].1 >= request_size);
            assert(segs[0].0 < u64::MAX);
            assert forall|r: Extent| #[trigger]
                slab.picks(request_size as int, r) implies r.location == extent.location by {
                let last = s.last_location as int;
                let size = request_size as int;
                let i = choose|i: int|
                    {
                        &&& crate::block_allocator::extent_slab::first_fit(
                            segs,
                            size,
                            last,
                            u64::MAX as int,
                            i,
                        ) || crate::block_allocator::extent_slab::no_fit(
                            segs,
                            size,
                            last,
                            u64::MAX as int,
                        ) && crate::block_allocator::extent_slab::first_fit(segs, size, 0, last, i)
                        &&& r == Extent::at(
                            s.location.disk_no(),
                            (#[trigger] segs[i]).0 as int,
                            size,
                        )
                    };
                assert(i == 0);
                crate::base_types::law_location_at(s.location);
            }
        },
        SlabEnum::Evacuating(_) => {},
    }
}

/// All is well after a new slab was taken into use.
proof fn lemma_new_slab_wf(
    a: BlockAllocator,
    b: BlockAllocator,
    sa: SlabAllocator,
    sb: SlabAllocator,
    id: SlabId,
    slab: Slab,
    j: int,
    entry: SlabBucketEntry,
)
    requires
        a.wf(sa),
        a.ready(sa),
        sb.wf(),
        sb.access == sa.access,
        sa.places(id) == 1,
        sb.allocated(id),
        sa.allocatable@.len() > 0,
        id == sa.allocatable@.last(),
        sb.allocatable@ == sa.allocatable@.drop_last(),
        forall|s: SlabId| s != id ==> #[trigger] sb.places(s) == sa.places(s),
        !a.slabs@.contains_key(id.0 as int),
        b.slabs@ == a.slabs@.insert(id.0 as int, slab),
        slab.id == id,
        slab.wf(),
        slab.live(),
        slab.is_dirty,
        slab.of(sa.access.slab_extent(id)),
        crate::block_allocator::slab::type_ok(slab.slab_type()),
        slab.recorded_free() == usable_bytes(slab.slab_type(), sa.access.slab_extent(id)),
        home(a.slab_buckets, slab, j),
        entry.slab_id == id,
        b == (BlockAllocator {
            spacemap: b.spacemap,
            spacemap_next: b.spacemap_next,
            slabs: b.slabs,
            dirty_slabs: b.dirty_slabs,
            slab_buckets: b.slab_buckets,
            per_disk_stats: b.per_disk_stats,
            checkpoint_allocated_bytes: b.checkpoint_allocated_bytes,
            ..a
        }),
        b.dirty_slabs@ == a.dirty_slabs@.push(id),
        logged(a, b, id, seq![SpaceMapEntry::SlabInfo(id, slab.slab_type())]),
        b.slab_buckets.len() == a.slab_buckets.len(),
        forall|i: int|
            0 <= i < a.slab_buckets.len() ==> #[trigger] b.slab_buckets.size(i)
                == a.slab_buckets.size(i),
        forall|i: int|
            0 <= i < a.slab_buckets.len() && i != j ==> #[trigger] b.slab_buckets.bucket(i)
                == a.slab_buckets.bucket(i),
        b.slab_buckets.bucket(j).is_extent_based == a.slab_buckets.bucket(j).is_extent_based,
        b.slab_buckets.bucket(j).wf(),
        forall|e: SlabBucketEntry|
            #[trigger] b.slab_buckets.bucket(j).by_freeness@.contains(e)
                <==> a.slab_buckets.bucket(j).by_freeness@.contains(e) || e == entry,
        a.per_disk_stats@.contains_key(slab.disk()),
        b.per_disk_stats@ =~= a.per_disk_stats@.insert(
            slab.disk(),
            b.per_disk_stats@[slab.disk()],
        ),
        b.per_disk_stats@[slab.disk()].alloc_bytes == a.per_disk_stats@[slab.disk()].alloc_bytes
            + slab.allocated_bytes().len(),
        b.per_disk_stats@[slab.disk()].free_bytes == a.per_disk_stats@[slab.disk()].free_bytes
            + slab.free_bytes().len(),
        b.per_disk_stats@[slab.disk()].noalloc_bytes
            == a.per_disk_stats@[slab.disk()].noalloc_bytes,
        b.per_disk_stats@[slab.disk()].noalloc_bytes
            <= b.per_disk_stats@[slab.disk()].free_bytes,
    ensures
        b.wf(sb),
        b.ready(sb),
        forall|x: int| #[trigger] b.is_blocked(x) == a.is_blocked(x),
{
    let i = id.0 as int;
    let d = slab.disk();
    let m = a.slabs@;
    let m2 = b.slabs@;
    let access = sa.access;
    let extent = access.slab_extent(id);
    reveal(BlockAllocator::owned_ok);
    slab.lemma_within(extent);
    access.lemma_id_below_next(id);
    assert(sa.allocatable@[sa.allocatable@.len() - 1] == id);
    assert(!a.is_blocked(d));
    lemma_noalloc_add(a.noalloc_state@, a.evacuating_slabs@, m, i, slab);
    assert forall|x: int| #[trigger] m.contains_key(x) implies ids_match(m, x) by {
        assert(slab_ok(access, m[x], x));
    }
    let s2 = b.slab_buckets.bucket(j).by_freeness@;
    assert(s2.contains(entry));
    let k = choose|k: int| 0 <= k < s2.len() && s2[k] == entry;
    assert(s2[k].slab_id == id);
    lemma_inside_add(a.noalloc_state@, a.evacuating_slabs@, m, i, slab, a.aside@);
    lemma_buckets_add(
        a.slab_buckets,
        b.slab_buckets,
        m,
        m2,
        a.inside(),
        id,
        j,
        a.slab_size,
    );
    lemma_stats_change(
        a.per_disk_stats@,
        b.per_disk_stats@,
        m,
        m2,
        i,
        access.next_slab_id.0 as int,
        d,
    );
    assert forall|s: SlabId| #[trigger] a.dirty_slabs@.contains(s) implies b.dirty_slabs@.contains(
        s,
    ) by {
        crate::block_based_log::lemma_contains_push(a.dirty_slabs@, id, s);
    }
    crate::block_based_log::lemma_contains_push(a.dirty_slabs@, id, id);
    lemma_dirty_change(a.dirty_slabs@, b.dirty_slabs@, m, m2, i);
    let entry_log = SpaceMapEntry::SlabInfo(id, slab.slab_type());
    let entries = seq![entry_log];
    assert(entries.drop_last() =~= Seq::<SpaceMapEntry>::empty());
    assert(entries.last() == entry_log);
    assert(record_after(access, record_of(m, i), entries, id) == record_of(m2, i)) by {
        assert(record_after(access, record_of(m, i), entries.drop_last(), id) == record_of(m, i));
    }
    assert(entry_placed(access, entry_log));
    assert forall|o: SlabId| o != id implies !mentions(access, entries, o) by {
        if mentions(access, entries, o) {
            let x = choose|x: int|
                0 <= x < entries.len() && touches(access, #[trigger] entries[x], o);
            assert(entries[x] == entry_log);
        }
    }
    lemma_logs_append(
        access,
        m,
        m2,
        a.spacemap.all(),
        a.spacemap_next.all(),
        a.next_slab_to_condense.0,
        id,
        entries,
    );
    assert forall|x: int| #[trigger] b.is_blocked(x) == a.is_blocked(x) by {
        assert(blocked(b.noalloc_state@, m2, x) == blocked(a.noalloc_state@, m, x));
    }
    assert(b.exact()) by {
        reveal(noalloc_exact);
        assert forall|x: int| #[trigger] b.per_disk_stats@.contains_key(
            x,
        ) implies b.per_disk_stats@[x].noalloc_bytes == if blocked(b.noalloc_state@, m2, x) {
            b.per_disk_stats@[x].free_bytes
        } else {
            0
        } by {
            assert(a.per_disk_stats@.contains_key(x));
            assert(b.is_blocked(x) == a.is_blocked(x));
        }
    }
    lemma_owned_new(a, b, sa, sb, id);
    assert forall|k: int| 0 <= k < sb.allocatable@.len() implies ({
        let x = sb.access.slab_disk(#[trigger] sb.allocatable@[k]);
        &&& b.per_disk_stats@.contains_key(x)
        &&& !b.is_blocked(x)
    }) by {
        assert(sb.allocatable@[k] == sa.allocatable@[k]);
    }
}

/// The slabs of others stay with them.
proof fn lemma_owned_new(
    a: BlockAllocator,
    b: BlockAllocator,
    sa: SlabAllocator,
    sb: SlabAllocator,
    id: SlabId,
)
    requires
        a.owned_ok(sa),
        sb.wf(),
        sb.access == sa.access,
        sa.places(id) == 1,
        sb.allocated(id),
        forall|s: SlabId| s != id ==> #[trigger] sb.places(s) == sa.places(s),
        !a.slabs@.contains_key(id.0 as int),
        b.slabs@.contains_key(id.0 as int),
        b.slabs@ == a.slabs@.insert(id.0 as int, b.slabs@[id.0 as int]),
        slab_ok(sa.access, b.slabs@[id.0 as int], id.0 as int),
        b.slab_size == a.slab_size,
        b.spacemap.log.phys == a.spacemap.log.phys,
        b.spacemap_next.log.phys == a.spacemap_next.log.phys,
    ensures
        b.owned_ok(sb),
{
    reveal(BlockAllocator::owned_ok);
    let l = a.spacemap.log.phys.slabs@;
    let l2 = a.spacemap_next.log.phys.slabs@;
    assert forall|k: int| 0 <= k < l.len() implies sb.allocated(#[trigger] l[k]) && !b.slabs@.contains_key(
        l[k].0 as int,
    ) by {
        assert(sa.allocated(l[k]));
        assert(l[k] != id);
    }
    assert forall|k: int| 0 <= k < l2.len() implies sb.allocated(#[trigger] l2[k]) && !b.slabs@.contains_key(
        l2[k].0 as int,
    ) by {
        assert(sa.allocated(l2[k]));
        assert(l2[k] != id);
    }
    assert forall|k: int| #[trigger] b.slabs@.contains_key(k) implies sb.allocated(
        SlabId(k as u64),
    ) by {
        if k != id.0 {
            assert(a.slabs@.contains_key(k));
            assert(sa.allocated(SlabId(k as u64)));
        }
    }
}

/// All slabs that are tried are in the bucket.
pub proof fn lemma_tried(
    bucket: SlabBucket,
    buckets: SlabAllocationBuckets,
    m: Map<int, Slab>,
    ids: Set<int>,
    index: int,
)
    requires
        buckets_ok(buckets, m, ids),
        0 <= index < buckets.len(),
        bucket == buckets.bucket(index),
    ensures
        bucket.wf(),
        tried(bucket).len() > 0 <==> bucket.last_allocated is Some,
        tried(bucket).len() > 0 ==> bucket.last_allocated == Some(tried(bucket)[0]),
        forall|k: int|
            0 <= k < tried(bucket).len() ==> {
                let i = (#[trigger] tried(bucket)[k]).slab_id.0 as int;
                &&& m.contains_key(i)
                &&& m[i].live()
                &&& home(buckets, m[i], index)
                &&& ids.contains(i)
            },
{
    reveal(buckets_ok);
    let s = bucket.by_freeness@;
    if bucket.last_allocated is Some {
        let e = bucket.last_allocated->0;
        assert(s.contains(e));
        let x = s.index_of(e);
        assert(0 <= x < s.len() && s[x] == e);
        assert forall|k: int| 0 <= k < tried(bucket).len() implies ({
            let i = (#[trigger] tried(bucket)[k]).slab_id.0 as int;
            &&& m.contains_key(i)
            &&& m[i].live()
            &&& home(buckets, m[i], index)
            &&& ids.contains(i)
        }) by {
            let y = if bucket.been_through_once {
                x
            } else {
                x + k
            };
            assert(tried(bucket)[k] == s[y]);
            assert(buckets.bucket(index).by_freeness@[y] == s[y]);
        }
    }
}

/// The next slab that is tried.
proof fn lemma_next_tried(bucket: SlabBucket, p: int, next: Option<SlabBucketEntry>)
    requires
        bucket.wf(),
        0 <= p < tried(bucket).len(),
        if bucket.been_through_once {
            next is None
        } else {
            is_next(bucket.by_freeness@, tried(bucket)[p], next)
        },
    ensures
        next == if p + 1 < tried(bucket).len() {
            Some(tried(bucket)[p + 1])
        } else {
            None
        },
{
    if !bucket.been_through_once {
        let s = bucket.by_freeness@;
        let e = bucket.last_allocated->0;
        let x = s.index_of(e);
        assert(s.contains(e));
        assert(0 <= x < s.len() && s[x] == e);
        let k = x + p;
        assert(tried(bucket)[p] == s[k]);
        if k + 1 < s.len() {
            assert(before(s[k], s[k + 1]));
            assert(tried(bucket)[p + 1] == s[k + 1]);
            assert(next is Some);
            let y = choose|y: int| 0 <= y < s.len() && s[y] == next->0;
            if y <= k {
                if y < k {
                    assert(before(s[y], s[k]));
                }
            } else if y > k + 1 {
                assert(before(s[k + 1], s[y]));
            }
        } else if next is Some {
            let y = choose|y: int| 0 <= y < s.len() && s[y] == next->0;
            if y < k {
                assert(before(s[y], s[k]));
            }
        }
    }
}

/// Moving on in one bucket keeps the members of all.
proof fn lemma_advanced(a: SlabAllocationBuckets, b: SlabAllocationBuckets, index: int)
    requires
        a.wf(),
        0 <= index < a.len(),
        b.len() == a.len(),
        b.buckets@ == a.buckets@.update(index, (a.buckets@[index].0, b.bucket(index))),
        b.bucket(index).is_extent_based == a.bucket(index).is_extent_based,
        b.bucket(index).by_freeness == a.bucket(index).by_freeness,
        b.bucket(index).wf(),
    ensures
        b.wf(),
        same_members(a, b),
{
    assert forall|i: int, j: int| 0 <= i < j < b.len() implies #[trigger] b.size(i)
        < #[trigger] b.size(j) by {
        assert(a.size(i) < a.size(j));
    }
    assert forall|i: int| 0 <= i < b.len() implies (#[trigger] b.bucket(i)).wf() by {
        assert(a.bucket(i).wf());
    }
}

/// Flags that have no effect do not matter.
proof fn lemma_allocated_in(
    a: Map<int, Slab>,
    b: Map<int, Slab>,
    c: Map<int, Slab>,
    id: SlabId,
    size: int,
    extent: Extent,
)
    requires
        same_states(a, b),
        allocated_in(b, c, id, size, extent),
    ensures
        allocated_in(a, c, id, size, extent),
{
    let i = id.0 as int;
    assert(a.contains_key(i));
    assert(same_state(a[i], b[i]));
    assert forall|k: int|
        #![trigger a.remove(i).contains_key(k)]
        #![trigger c.remove(i).contains_key(k)]
        a.remove(i).contains_key(k) <==> c.remove(i).contains_key(k) by {
        assert(b.remove(i).contains_key(k) <==> c.remove(i).contains_key(k));
        assert(a.contains_key(k) <==> b.contains_key(k));
    }
    assert forall|k: int| #[trigger] a.remove(i).contains_key(k) implies same_state(
        a.remove(i)[k],
        c.remove(i)[k],
    ) by {
        assert(a.contains_key(k));
        assert(b.remove(i).contains_key(k));
    }
}

proof fn lemma_new_slab_since(
    a: BlockAllocator,
    b: BlockAllocator,
    c: BlockAllocator,
    sa: SlabAllocator,
    sc: SlabAllocator,
    request_size: u32,
    extent: Extent,
)
    requires
        same_states(a.slabs@, b.slabs@),
        same_members(a.slab_buckets, b.slab_buckets),
        b == (BlockAllocator { slabs: b.slabs, slab_buckets: b.slab_buckets, ..a }),
        new_slab_allocated(b, c, sa, sc, request_size, extent),
    ensures
        new_slab_allocated(a, c, sa, sc, request_size, extent),
{
    let id = sa.allocatable@.last();
    let i = id.0 as int;
    let slab = c.slabs@[i];
    assert(!a.slabs@.contains_key(i));
    assert forall|k: int|
        #![trigger a.slabs@.contains_key(k)]
        #![trigger c.slabs@.remove(i).contains_key(k)]
        a.slabs@.contains_key(k) <==> c.slabs@.remove(i).contains_key(k) by {
        assert(b.slabs@.contains_key(k) <==> c.slabs@.remove(i).contains_key(k));
    }
    assert forall|k: int| #[trigger] a.slabs@.contains_key(k) implies same_state(
        a.slabs@[k],
        c.slabs@.remove(i)[k],
    ) by {
        assert(b.slabs@.contains_key(k));
    }
    let j = choose|j: int| #[trigger]
        b.slab_buckets.serves(j, request_size as int) && slab.slab_type()
            == if b.slab_buckets.bucket(j).is_extent_based {
            SlabPhysType::ExtentBased { max_size: b.slab_buckets.size(j) }
        } else {
            SlabPhysType::BitmapBased { block_size: b.slab_buckets.size(j) }
        } && extent.size == if b.slab_buckets.bucket(j).is_extent_based {
            request_size
        } else {
            b.slab_buckets.size(j)
        } && c.slab_buckets.bucket(j).last_allocated == Some(
            SlabBucketEntry { allocated_space: 0, slab_id: id },
        );
    assert(b.slab_buckets.size(j) == a.slab_buckets.size(j));
    assert(a.slab_buckets.serves(j, request_size as int)) by {
        assert forall|k: int| 0 <= k < j implies #[trigger] a.slab_buckets.size(k)
            < request_size by {
            assert(b.slab_buckets.size(k) == a.slab_buckets.size(k));
        }
    }
}

} // verus!
