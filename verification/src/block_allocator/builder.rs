//! Opening a block allocator, and its sizes.
use crate::base_types::{DiskId, Extent};
use crate::block_access::{law_rounded_up, round_up_u32, rounded_up};
use crate::block_allocator::buckets::{
    default_buckets, has_slab, sizes_ascend, SlabAllocationBuckets, SlabAllocationBucketsPhys,
    SlabBucketEntry, SlabBucketSize,
};
use crate::block_allocator::flush::{all_clean, entry_of, BlockAllocatorPhys};
use crate::block_allocator::invariants::{
    alloc_on, buckets_ok, dirty_ok, distinct, free_on, home, inside, lemma_logs_same,
    lemma_stats_fit, logs_ok, noalloc_exact, noalloc_ok, sizes_ok, stats_ok, DiskStats,
};
use crate::block_allocator::release::list_at;
use crate::block_allocator::slab::{Slab, SlabEnum};
use crate::block_allocator::slabs::{
    indexable, lemma_sum_slabs_same, loadable, record_after, record_of, slab_ok, slabs_ok,
    sum_slabs, SlabRecord, Slabs,
};
use crate::block_allocator::BlockAllocator;
use crate::slab_allocator::{
    lemma_times_contains, SlabAccess, SlabAllocator, SlabAllocatorBuilder, SlabId,
};
use crate::space_map::{SpaceMap, SpaceMapEntry, SpaceMapPhys};
use crate::vec_map::VecMap;
use vstd::prelude::*;

verus! {

/// The buckets with their sizes rounded up to whole sectors, each size once.
pub open spec fn aligned_buckets(defaults: Seq<(SlabBucketSize, bool)>, sector_size: int) -> Seq<
    (SlabBucketSize, bool),
>
    decreases defaults.len(),
{
    if defaults.len() == 0 {
        Seq::empty()
    } else {
        let rest = aligned_buckets(defaults.drop_last(), sector_size);
        let (size, is_extent_based) = defaults.last();
        let aligned = rounded_up(size.0 as int, sector_size);
        if exists|i: int| 0 <= i < rest.len() && (#[trigger] rest[i]).0.0 == aligned {
            rest
        } else {
            rest.push((SlabBucketSize(aligned as u32), is_extent_based))
        }
    }
}

proof fn lemma_rounded_up(a: int, b: int, z: int)
    requires
        0 <= a <= b,
        z > 0,
    ensures
        rounded_up(a, z) <= rounded_up(b, z),
        a <= rounded_up(a, z),
{
    let qa = a / z;
    let qb = b / z;
    vstd::arithmetic::div_mod::lemma_fundamental_div_mod(a, z);
    vstd::arithmetic::div_mod::lemma_fundamental_div_mod(b, z);
    vstd::arithmetic::div_mod::lemma_div_is_ordered(a, b, z);
    if qa < qb {
        assert(z * (qa + 1) <= z * qb) by (nonlinear_arith)
            requires
                qa < qb,
                z > 0,
        ;
        assert(z * (qa + 1) == z * qa + z) by (nonlinear_arith);
    }
}

impl BlockAllocatorPhys {
    /// A block allocator without slabs, with the default buckets in whole sectors.
    pub fn new(sector_size: u32) -> (r: BlockAllocatorPhys)
        requires
            sector_size > 0,
            rounded_up(33554432, sector_size as int) <= 33554432,
        ensures
            r.spacemap.log.is_new(),
            r.spacemap.alloc_entries == 0,
            r.spacemap_next.log.is_new(),
            r.spacemap_next.alloc_entries == 0,
            r.next_slab_to_condense.0 == 0,
            r.segments_at_last_merge == 0,
            r.slab_buckets.buckets@ == aligned_buckets(default_buckets(), sector_size as int),
            sizes_ascend(r.slab_buckets.buckets@),
    {
        let defaults = SlabAllocationBucketsPhys::default();
        let ghost d = defaults.buckets@;
        let ghost z = sector_size as int;
        let mut buckets: Vec<(SlabBucketSize, bool)> = Vec::new();
        let mut i: usize = 0;
        proof {
            assert(d.take(0) =~= Seq::<(SlabBucketSize, bool)>::empty());
            assert(d[34].0.0 == 33554432);
        }
        while i < defaults.buckets.len()
            invariant
                i <= defaults.buckets@.len(),
                d == defaults.buckets@,
                d.len() == 35,
                d[34].0.0 == 33554432,
                sizes_ascend(d),
                z == sector_size,
                z > 0,
                rounded_up(33554432, z) <= 33554432,
                buckets@ == aligned_buckets(d.take(i as int), z),
                sizes_ascend(buckets@),
                forall|k: int|
                    0 <= k < buckets@.len() ==> i > 0 && (#[trigger] buckets@[k]).0.0 <= rounded_up(
                        d[i - 1].0.0 as int,
                        z,
                    ),
            decreases defaults.buckets@.len() - i,
        {
            let (size, is_extent_based) = defaults.buckets[i];
            proof {
                if i < 34 {
                    assert(d[i as int].0.0 < d[34].0.0);
                }
                lemma_rounded_up(size.0 as int, 33554432, z);
                if i > 0 {
                    assert(d[i - 1].0.0 < d[i as int].0.0);
                    lemma_rounded_up(d[i - 1].0.0 as int, size.0 as int, z);
                }
                assert(d.take(i + 1).drop_last() =~= d.take(i as int));
                assert(d.take(i + 1).last() == d[i as int]);
            }
            let aligned = round_up_u32(size.0, sector_size);
            let mut seen = false;
            let mut k: usize = 0;
            while k < buckets.len()
                invariant
                    k <= buckets@.len(),
                    seen <==> exists|j: int| 0 <= j < k && (#[trigger] buckets@[j]).0.0 == aligned,
                decreases buckets@.len() - k,
            {
                if buckets[k].0.0 == aligned {
                    seen = true;
                    assert(buckets@[k as int].0.0 == aligned);
                }
                k += 1;
            }
            let ghost b0 = buckets@;
            if !seen {
                buckets.push((SlabBucketSize(aligned), is_extent_based));
                proof {
                    assert forall|x: int, y: int| 0 <= x < y < buckets@.len() implies (
                    #[trigger] buckets@[x]).0.0 < (#[trigger] buckets@[y]).0.0 by {
                        if y == b0.len() {
                            assert(b0[x].0.0 != aligned);
                        } else {
                            assert(b0[x].0.0 < b0[y].0.0);
                        }
                    }
                }
            }
            i += 1;
        }
        assert(d.take(i as int) =~= d);
        BlockAllocatorPhys {
            spacemap: SpaceMapPhys::new(),
            spacemap_next: SpaceMapPhys::new(),
            next_slab_to_condense: SlabId(0),
            segments_at_last_merge: 0,
            slab_buckets: SlabAllocationBucketsPhys { buckets },
        }
    }

    /// Claims the slabs that hold the space maps.
    pub fn claim(&self, builder: &mut SlabAllocatorBuilder)
        requires
            old(builder).wf(),
            crate::block_based_log::distinct_slabs(self.spacemap.log.slabs@),
            crate::block_based_log::distinct_slabs(self.spacemap_next.log.slabs@),
            forall|i: int|
                0 <= i < self.spacemap.log.slabs@.len() ==> old(builder).unclaimed(
                    #[trigger] self.spacemap.log.slabs@[i],
                ) && !self.spacemap_next.log.slabs@.contains(self.spacemap.log.slabs@[i]),
            forall|i: int|
                0 <= i < self.spacemap_next.log.slabs@.len() ==> old(builder).unclaimed(
                    #[trigger] self.spacemap_next.log.slabs@[i],
                ),
        ensures
            final(builder).wf(),
            final(builder).access == old(builder).access,
            forall|s: SlabId|
                #[trigger] final(builder).unclaimed(s) <==> old(builder).unclaimed(s)
                    && !self.spacemap.log.slabs@.contains(s)
                    && !self.spacemap_next.log.slabs@.contains(s),
    {
        self.spacemap.claim(builder);
        proof {
            let l = self.spacemap_next.log.slabs@;
            assert forall|i: int| 0 <= i < l.len() implies builder.unclaimed(#[trigger] l[i]) by {
                if self.spacemap.log.slabs@.contains(l[i]) {
                    let k = choose|k: int|
                        0 <= k < self.spacemap.log.slabs@.len() && self.spacemap.log.slabs@[k]
                            == l[i];
                    assert(!l.contains(self.spacemap.log.slabs@[k]));
                }
            }
        }
        self.spacemap_next.claim(builder);
    }

    pub fn spacemap_bytes(&self) -> (r: u64)
        ensures
            r == self.spacemap.log.next_chunk_offset.0,
    {
        self.spacemap.bytes()
    }

    pub fn spacemap_next_bytes(&self) -> (r: u64)
        ensures
            r == self.spacemap_next.log.next_chunk_offset.0,
    {
        self.spacemap_next.bytes()
    }

    pub fn spacemap_capacity_bytes(&self, access: &SlabAccess) -> (r: u64)
        requires
            self.spacemap.log.wf(access.slab_size),
        ensures
            r == self.spacemap.log.slabs@.len() * access.slab_size,
    {
        self.spacemap.log.capacity_bytes(access)
    }

    pub fn spacemap_next_capacity_bytes(&self, access: &SlabAccess) -> (r: u64)
        requires
            self.spacemap_next.log.wf(access.slab_size),
        ensures
            r == self.spacemap_next.log.slabs@.len() * access.slab_size,
    {
        self.spacemap_next.log.capacity_bytes(access)
    }
}

/// A block allocator that is being opened: its slabs are known from the space maps, and can be
/// claimed; the slab allocator is still to come.
pub struct BlockAllocatorBuilder {
    pub slabs: Slabs,
    pub phys: BlockAllocatorPhys,
    /// The entries of the first space map.
    pub first: Ghost<Seq<SpaceMapEntry>>,
    /// The entries of the second space map.
    pub second: Ghost<Seq<SpaceMapEntry>>,
}

/// The disk is among those given.
pub open spec fn has_disk(disks: Seq<DiskId>, d: int) -> bool {
    exists|i: int| 0 <= i < disks.len() && (#[trigger] disks[i]).0 == d
}

/// The slab of a disk that is being removed is listed.
pub open spec fn listed_before(
    m: Map<int, Slab>,
    sa: SlabAllocator,
    x: int,
    noalloc: Map<int, Vec<SlabId>>,
) -> bool {
    &&& forall|y: int|
        0 <= y < x && #[trigger] m.contains_key(y) && sa.removing(m[y].disk()) ==> list_at(
            noalloc,
            m[y].disk(),
        ).contains(m[y].id)
    &&& forall|d: int, k: int|
        0 <= k < list_at(noalloc, d).len() ==> {
            let y = (#[trigger] list_at(noalloc, d)[k]).0 as int;
            &&& 0 <= y < x
            &&& m.contains_key(y)
            &&& m[y].disk() == d
            &&& sa.removing(d)
        }
    &&& forall|d: int| #[trigger] noalloc.contains_key(d) ==> noalloc[d]@.len() > 0
    &&& forall|d: int, i: int, j: int|
        0 <= i < j < list_at(noalloc, d).len() ==> (#[trigger] list_at(noalloc, d)[i]).0 < (
        #[trigger] list_at(noalloc, d)[j]).0
}

/// A live slab that can be allocated from.
pub open spec fn usable(m: Map<int, Slab>, sa: SlabAllocator, y: int) -> bool {
    m.contains_key(y) && m[y].live() && !sa.removing(m[y].disk())
}

pub proof fn lemma_sum_prefix(m: Map<int, Slab>, x: int, n: int, f: spec_fn(Slab) -> int)
    requires
        0 <= x <= n,
        forall|k: int| #[trigger] m.contains_key(k) ==> 0 <= f(m[k]),
    ensures
        sum_slabs(m, x, f) <= sum_slabs(m, n, f),
    decreases n - x,
{
    if x < n {
        lemma_sum_prefix(m, x + 1, n, f);
    }
}

pub proof fn lemma_sum_add(
    m: Map<int, Slab>,
    n: int,
    f: spec_fn(Slab) -> int,
    g: spec_fn(Slab) -> int,
    h: spec_fn(Slab) -> int,
)
    requires
        forall|k: int| #[trigger] m.contains_key(k) ==> f(m[k]) + g(m[k]) == h(m[k]),
    ensures
        sum_slabs(m, n, f) + sum_slabs(m, n, g) == sum_slabs(m, n, h),
    decreases n,
{
    if n > 0 {
        lemma_sum_add(m, n - 1, f, g, h);
    }
}

impl BlockAllocatorBuilder {
    /// The slabs are what the space maps record.
    pub open spec fn wf(&self, access: SlabAccess) -> bool {
        &&& indexable(access)
        &&& slabs_ok(access, self.slabs@)
        &&& all_clean(self.slabs@)
        &&& logs_ok(
            access,
            self.slabs@,
            self.first@,
            self.second@,
            self.phys.next_slab_to_condense.0,
        )
        &&& sizes_ascend(self.phys.slab_buckets.buckets@)
    }

    /// Every slab in use has a bucket.
    pub open spec fn sorts(&self) -> bool {
        forall|x: int|
            #[trigger] self.slabs@.contains_key(x) && self.slabs@[x].live()
                ==> self.phys.slab_buckets.buckets@.contains(
                (SlabBucketSize(self.slabs@[x].spec_max_size()), self.slabs@[x].inner
                    is ExtentBased),
            )
    }

    /// The slabs, as recorded in the space maps whose entries are given.
    pub fn new(
        access: &SlabAccess,
        phys: BlockAllocatorPhys,
        first: &Vec<SpaceMapEntry>,
        second: &Vec<SpaceMapEntry>,
    ) -> (r: BlockAllocatorBuilder)
        requires
            loadable(*access, first@, second@),
        ensures
            r.phys == phys,
            r.first@ == first@,
            r.second@ == second@,
            slabs_ok(*access, r.slabs@),
            all_clean(r.slabs@),
            forall|id: SlabId|
                record_of(r.slabs@, id.0 as int) == #[trigger] record_after(
                    *access,
                    SlabRecord::Absent,
                    first@ + second@,
                    id,
                ),
    {
        let slabs = Slabs::load(access, first, second);
        BlockAllocatorBuilder { slabs, phys, first: Ghost(first@), second: Ghost(second@) }
    }

    /// Claims the slabs.
    pub fn claim(&self, slab_builder: &mut SlabAllocatorBuilder)
        requires
            old(slab_builder).wf(),
            slabs_ok(old(slab_builder).access, self.slabs@),
            forall|x: int|
                #[trigger] self.slabs@.contains_key(x) ==> old(slab_builder).unclaimed(
                    SlabId(x as u64),
                ),
        ensures
            final(slab_builder).wf(),
            final(slab_builder).access == old(slab_builder).access,
            forall|s: SlabId|
                #[trigger] final(slab_builder).unclaimed(s) <==> old(slab_builder).unclaimed(s)
                    && !self.slabs@.contains_key(s.0 as int),
    {
        self.slabs.claim_all(slab_builder);
    }

    /// The statistics of the disks.
    fn disk_stats(&self, sa: &SlabAllocator, disks: &Vec<DiskId>) -> (r: VecMap<DiskStats>)
        requires
            sa.wf(),
            self.wf(sa.access),
            forall|i: int| 0 <= i < disks@.len() ==> (#[trigger] disks@[i]).wf(),
            forall|x: int|
                #[trigger] self.slabs@.contains_key(x) ==> has_disk(disks@, self.slabs@[x].disk()),
        ensures
            forall|d: int| #[trigger] r@.contains_key(d) <==> has_disk(disks@, d),
            forall|d: int|
                #[trigger] r@.contains_key(d) ==> {
                    let n = sa.access.next_slab_id.0 as int;
                    &&& r@[d].alloc_bytes == sum_slabs(self.slabs@, n, alloc_on(d))
                    &&& r@[d].free_bytes == sum_slabs(self.slabs@, n, free_on(d))
                    &&& r@[d].noalloc_bytes == if sa.removing(d) {
                        r@[d].free_bytes
                    } else {
                        0
                    }
                },
    {
        let ghost m = self.slabs@;
        let ghost access = sa.access;
        let ghost n = access.next_slab_id.0 as int;
        let mut r: VecMap<DiskStats> = VecMap::new();
        let mut i: usize = 0;
        while i < disks.len()
            invariant
                i <= disks@.len(),
                forall|k: int| 0 <= k < disks@.len() ==> (#[trigger] disks@[k]).wf(),
                forall|d: int|
                    #[trigger] r@.contains_key(d) <==> exists|k: int|
                        0 <= k < i && (#[trigger] disks@[k]).0 == d,
                forall|d: int|
                    #[trigger] r@.contains_key(d) ==> r@[d].alloc_bytes == 0 && r@[d].free_bytes
                        == 0 && r@[d].noalloc_bytes == 0,
            decreases disks@.len() - i,
        {
            let ghost r0 = r@;
            assert(disks@[i as int].wf());
            let _ = r.insert(disks[i].index(), DiskStats::default());
            proof {
                assert forall|d: int| #[trigger] r@.contains_key(d) <==> exists|k: int|
                    0 <= k < i + 1 && (#[trigger] disks@[k]).0 == d by {
                    if r0.contains_key(d) {
                        let k = choose|k: int| 0 <= k < i && (#[trigger] disks@[k]).0 == d;
                        assert(disks@[k].0 == d);
                    }
                    assert(disks@[i as int].0 == disks@[i as int].0);
                }
            }
            i += 1;
        }
        let mut x: u64 = 0;
        while x < sa.access.next_slab_id.0
            invariant
                x <= n,
                n == sa.access.next_slab_id.0,
                access == sa.access,
                sa.wf(),
                self.wf(access),
                m == self.slabs@,
                forall|y: int| #[trigger] m.contains_key(y) ==> has_disk(disks@, m[y].disk()),
                forall|k: int| 0 <= k < disks@.len() ==> (#[trigger] disks@[k]).wf(),
                forall|d: int| #[trigger] r@.contains_key(d) <==> has_disk(disks@, d),
                forall|d: int|
                    #[trigger] r@.contains_key(d) ==> {
                        &&& r@[d].alloc_bytes == sum_slabs(m, x as int, alloc_on(d))
                        &&& r@[d].free_bytes == sum_slabs(m, x as int, free_on(d))
                        &&& r@[d].noalloc_bytes == if sa.removing(d) {
                            r@[d].free_bytes
                        } else {
                            0
                        }
                    },
            decreases sa.access.next_slab_id.0 - x,
        {
            let id = SlabId(x);
            if self.slabs.contains(id) {
                let ghost r0 = r@;
                proof {
                    assert(m.contains_key(x as int));
                    assert(slab_ok(access, m[x as int], x as int));
                    access.lemma_slab_extent(access.holder(id), id);
                    m[x as int].lemma_within(access.slab_extent(id));
                    m[x as int].lemma_sizes();
                    let d = m[x as int].disk();
                    assert(has_disk(disks@, d));
                    assert(r@.contains_key(d));
                    lemma_stats_fit(access, m, d);
                    assert forall|k: int| #[trigger] m.contains_key(k) implies 0 <= free_on(d)(
                        m[k],
                    ) && 0 <= alloc_on(d)(m[k]) by {}
                    lemma_sum_prefix(m, x + 1, n, free_on(d));
                    lemma_sum_prefix(m, x + 1, n, alloc_on(d));
                }
                let slab = self.slabs.get(id);
                let disk: usize = slab.location().disk().index();
                let old = *r.get(disk).unwrap();
                let noalloc_bytes: u64 = if sa.noalloc_state.contains_key(disk) {
                    old.noalloc_bytes + slab.free_space()
                } else {
                    old.noalloc_bytes
                };
                let new = DiskStats {
                    alloc_bytes: old.alloc_bytes + slab.allocated_space(),
                    free_bytes: old.free_bytes + slab.free_space(),
                    noalloc_bytes,
                };
                let _ = r.insert(disk, new);
                proof {
                    assert forall|d: int| #[trigger] r@.contains_key(d) implies ({
                        &&& r@[d].alloc_bytes == sum_slabs(m, x + 1, alloc_on(d))
                        &&& r@[d].free_bytes == sum_slabs(m, x + 1, free_on(d))
                        &&& r@[d].noalloc_bytes == if sa.removing(d) {
                            r@[d].free_bytes
                        } else {
                            0
                        }
                    }) by {
                        assert(r0.contains_key(d));
                    }
                    assert forall|d: int| #[trigger] r@.contains_key(d) <==> has_disk(
                        disks@,
                        d,
                    ) by {
                        assert(r0.contains_key(d) <==> has_disk(disks@, d));
                    }
                }
            } else {
                proof {
                    assert forall|d: int| #[trigger] r@.contains_key(d) implies ({
                        &&& r@[d].alloc_bytes == sum_slabs(m, x + 1, alloc_on(d))
                        &&& r@[d].free_bytes == sum_slabs(m, x + 1, free_on(d))
                    }) by {}
                }
            }
            x += 1;
        }
        r
    }

    /// The slabs of disks that are being removed, by disk.
    fn removing_slabs(&self, sa: &SlabAllocator) -> (r: VecMap<Vec<SlabId>>)
        requires
            sa.wf(),
            self.wf(sa.access),
        ensures
            listed_before(self.slabs@, *sa, sa.access.next_slab_id.0 as int, r@),
    {
        let ghost m = self.slabs@;
        let ghost access = sa.access;
        let mut r: VecMap<Vec<SlabId>> = VecMap::new();
        let mut x: u64 = 0;
        while x < sa.access.next_slab_id.0
            invariant
                x <= access.next_slab_id.0,
                access == sa.access,
                sa.wf(),
                self.wf(access),
                m == self.slabs@,
                listed_before(m, *sa, x as int, r@),
            decreases sa.access.next_slab_id.0 - x,
        {
            let id = SlabId(x);
            if self.slabs.contains(id) {
                proof {
                    assert(m.contains_key(x as int));
                    assert(slab_ok(access, m[x as int], x as int));
                    access.lemma_slab_extent(access.holder(id), id);
                    m[x as int].lemma_within(access.slab_extent(id));
                }
                let slab = self.slabs.get(id);
                let disk: usize = slab.location().disk().index();
                if sa.noalloc_state.contains_key(disk) {
                    let ghost n0 = r@;
                    let mut list = match r.remove(disk) {
                        Some(list) => list,
                        None => Vec::new(),
                    };
                    let ghost l0 = list@;
                    assert(l0 =~= list_at(n0, disk as int));
                    list.push(id);
                    let _ = r.insert(disk, list);
                    proof {
                        let d0 = disk as int;
                        let n1 = r@;
                        assert(list_at(n1, d0) == l0.push(id));
                        assert forall|d: int| d != d0 implies #[trigger] list_at(n1, d) == list_at(
                            n0,
                            d,
                        ) by {}
                        assert forall|y: int|
                            0 <= y < x + 1 && #[trigger] m.contains_key(y) && sa.removing(
                                m[y].disk(),
                            ) implies list_at(n1, m[y].disk()).contains(m[y].id) by {
                            let d = m[y].disk();
                            if y < x {
                                let k = choose|k: int|
                                    0 <= k < list_at(n0, d).len() && list_at(n0, d)[k] == m[y].id;
                                assert(list_at(n1, d)[k] == m[y].id);
                            } else {
                                assert(list_at(n1, d)[l0.len() as int] == id);
                            }
                        }
                        assert forall|d: int, k: int|
                            0 <= k < list_at(n1, d).len() implies ({
                            let y = (#[trigger] list_at(n1, d)[k]).0 as int;
                            &&& 0 <= y < x + 1
                            &&& m.contains_key(y)
                            &&& m[y].disk() == d
                            &&& sa.removing(d)
                        }) by {
                            if k < list_at(n0, d).len() {
                                assert(list_at(n1, d)[k] == list_at(n0, d)[k]);
                            }
                        }
                        assert forall|d: int, i: int, j: int|
                            0 <= i < j < list_at(n1, d).len() implies (#[trigger] list_at(n1, d)[i]).0
                            < (#[trigger] list_at(n1, d)[j]).0 by {
                            assert(list_at(n1, d)[i] == list_at(n0, d)[i]);
                            if j < list_at(n0, d).len() {
                                assert(list_at(n1, d)[j] == list_at(n0, d)[j]);
                            }
                        }
                        assert forall|d: int| #[trigger] n1.contains_key(d) implies n1[d]@.len()
                            > 0 by {
                            if d != d0 {
                                assert(n0.contains_key(d));
                            }
                        }
                    }
                }
            }
            x += 1;
        }
        r
    }

    /// The slabs that are being evacuated, in ascending order.
    fn evacuating(&self, access: &SlabAccess) -> (r: Vec<SlabId>)
        requires
            self.wf(*access),
        ensures
            forall|i: int, j: int| 0 <= i < j < r@.len() ==> (#[trigger] r@[i]).0 < (
            #[trigger] r@[j]).0,
            forall|id: SlabId|
                #[trigger] r@.contains(id) <==> self.slabs@.contains_key(id.0 as int)
                    && !self.slabs@[id.0 as int].live(),
    {
        let ghost m = self.slabs@;
        let ids = self.slabs.ids();
        let mut r: Vec<SlabId> = Vec::new();
        let mut i: usize = 0;
        while i < ids.len()
            invariant
                i <= ids@.len(),
                self.wf(*access),
                m == self.slabs@,
                forall|x: int, y: int| 0 <= x < y < ids@.len() ==> (#[trigger] ids@[x]).0 < (
                #[trigger] ids@[y]).0,
                forall|x: int|
                    0 <= x < ids@.len() ==> (#[trigger] ids@[x]).0 <= usize::MAX && m.contains_key(
                        ids@[x].0 as int,
                    ),
                forall|x: int, y: int| 0 <= x < y < r@.len() ==> (#[trigger] r@[x]).0 < (
                #[trigger] r@[y]).0,
                forall|x: int|
                    0 <= x < r@.len() ==> {
                        let id = #[trigger] r@[x];
                        &&& m.contains_key(id.0 as int)
                        &&& !m[id.0 as int].live()
                        &&& i > 0 && id.0 <= ids@[i - 1].0
                    },
                forall|x: int|
                    0 <= x < i && !m[(#[trigger] ids@[x]).0 as int].live() ==> r@.contains(ids@[x]),
            decreases ids@.len() - i,
        {
            let id = ids[i];
            let ghost r0 = r@;
            proof {
                assert(m.contains_key(ids@[i as int].0 as int));
                assert(slab_ok(*access, m[id.0 as int], id.0 as int));
                if i > 0 {
                    assert(ids@[i - 1].0 < ids@[i as int].0);
                }
            }
            let is_evacuating = match &self.slabs.get(id).inner {
                SlabEnum::Evacuating(_) => true,
                _ => false,
            };
            if is_evacuating {
                r.push(id);
                proof {
                    assert forall|x: int|
                        0 <= x < i + 1 && !m[(
                        #[trigger] ids@[x]).0 as int].live() implies r@.contains(ids@[x]) by {
                        if x < i {
                            let k = choose|k: int| 0 <= k < r0.len() && r0[k] == ids@[x];
                            assert(r@[k] == ids@[x]);
                        } else {
                            assert(r@[r0.len() as int] == id);
                        }
                    }
                }
            }
            i += 1;
        }
        proof {
            assert forall|id: SlabId| #[trigger] r@.contains(id) <==> m.contains_key(id.0 as int)
                && !m[id.0 as int].live() by {
                if m.contains_key(id.0 as int) && !m[id.0 as int].live() {
                    let k = choose|k: int| 0 <= k < ids@.len() && (#[trigger] ids@[k]).0 == id.0;
                    assert(ids@[k] == id);
                }
            }
        }
        r
    }

    /// The entries of the slabs that can be allocated from, with the sizes of their buckets.
    fn bucket_entries(&self, sa: &SlabAllocator) -> (r: Vec<(SlabBucketSize, SlabBucketEntry)>)
        requires
            sa.wf(),
            self.wf(sa.access),
        ensures
            forall|i: int, j: int|
                0 <= i < j < r@.len() ==> (#[trigger] r@[i]).1.slab_id != (
                #[trigger] r@[j]).1.slab_id,
            forall|i: int|
                0 <= i < r@.len() ==> {
                    let y = (#[trigger] r@[i]).1.slab_id.0 as int;
                    &&& usable(self.slabs@, *sa, y)
                    &&& r@[i].1 == entry_of(self.slabs@[y])
                    &&& r@[i].0.0 == self.slabs@[y].spec_max_size()
                },
            forall|y: int|
                #[trigger] usable(self.slabs@, *sa, y) ==> r@.contains(
                    (SlabBucketSize(self.slabs@[y].spec_max_size()), entry_of(self.slabs@[y])),
                ),
    {
        let ghost m = self.slabs@;
        let ghost access = sa.access;
        let mut r: Vec<(SlabBucketSize, SlabBucketEntry)> = Vec::new();
        let mut x: u64 = 0;
        while x < sa.access.next_slab_id.0
            invariant
                x <= access.next_slab_id.0,
                access == sa.access,
                sa.wf(),
                self.wf(access),
                m == self.slabs@,
                forall|i: int, j: int|
                    0 <= i < j < r@.len() ==> (#[trigger] r@[i]).1.slab_id != (
                    #[trigger] r@[j]).1.slab_id,
                forall|i: int|
                    0 <= i < r@.len() ==> {
                        let y = (#[trigger] r@[i]).1.slab_id.0 as int;
                        &&& y < x
                        &&& usable(m, *sa, y)
                        &&& r@[i].1 == entry_of(m[y])
                        &&& r@[i].0.0 == m[y].spec_max_size()
                    },
                forall|y: int|
                    0 <= y < x && #[trigger] usable(m, *sa, y) ==> r@.contains(
                        (SlabBucketSize(m[y].spec_max_size()), entry_of(m[y])),
                    ),
            decreases sa.access.next_slab_id.0 - x,
        {
            let id = SlabId(x);
            let ghost r0 = r@;
            if self.slabs.contains(id) {
                proof {
                    assert(m.contains_key(x as int));
                    assert(slab_ok(access, m[x as int], x as int));
                    access.lemma_slab_extent(access.holder(id), id);
                    m[x as int].lemma_within(access.slab_extent(id));
                }
                let slab = self.slabs.get(id);
                let disk: usize = slab.location().disk().index();
                let live = match &slab.inner {
                    SlabEnum::Evacuating(_) => false,
                    _ => true,
                };
                if live && !sa.noalloc_state.contains_key(disk) {
                    r.push((SlabBucketSize(slab.max_size()), slab.to_slab_bucket_entry()));
                    proof {
                        assert(r@.last().1 == entry_of(m[x as int]));
                        assert forall|y: int|
                            0 <= y < x + 1 && #[trigger] usable(m, *sa, y) implies r@.contains(
                            (SlabBucketSize(m[y].spec_max_size()), entry_of(m[y])),
                        ) by {
                            let e = (SlabBucketSize(m[y].spec_max_size()), entry_of(m[y]));
                            if y < x {
                                let k = choose|k: int| 0 <= k < r0.len() && r0[k] == e;
                                assert(r@[k] == e);
                            } else {
                                assert(r@[r0.len() as int] == e);
                            }
                        }
                    }
                }
            }
            x += 1;
        }
        proof {
            assert forall|y: int| #[trigger] usable(m, *sa, y) implies r@.contains(
                (SlabBucketSize(m[y].spec_max_size()), entry_of(m[y])),
            ) by {
                assert(slab_ok(access, m[y], y));
                access.lemma_id_below_next(SlabId(y as u64));
            }
        }
        r
    }

    /// The block allocator. Slabs on disks that are being removed are not allocated from; nor
    /// are those that are being evacuated.
    pub fn build(self, sa: &SlabAllocator, disks: &Vec<DiskId>) -> (r: BlockAllocator)
        requires
            sa.wf(),
            self.wf(sa.access),
            self.sorts(),
            forall|i: int|
                0 <= i < self.phys.slab_buckets.buckets@.len() ==> {
                    let (size, is_extent_based) = #[trigger] self.phys.slab_buckets.buckets@[i];
                    &&& size.0 > 0
                    &&& size.0 % 512 == 0
                    &&& !is_extent_based ==> size.0 <= sa.access.slab_size
                },
            forall|i: int| 0 <= i < disks@.len() ==> (#[trigger] disks@[i]).wf(),
            forall|x: int|
                #[trigger] self.slabs@.contains_key(x) ==> {
                    &&& has_disk(disks@, self.slabs@[x].disk())
                    &&& sa.allocated(SlabId(x as u64))
                },
            self.phys.spacemap.log.placed(sa.access),
            self.phys.spacemap_next.log.placed(sa.access),
            forall|k: int|
                0 <= k < self.phys.spacemap.log.slabs@.len() ==> {
                    let s = #[trigger] self.phys.spacemap.log.slabs@[k];
                    &&& sa.allocated(s)
                    &&& !self.slabs@.contains_key(s.0 as int)
                    &&& !self.phys.spacemap_next.log.slabs@.contains(s)
                },
            forall|k: int|
                0 <= k < self.phys.spacemap_next.log.slabs@.len() ==> {
                    let s = #[trigger] self.phys.spacemap_next.log.slabs@[k];
                    &&& sa.allocated(s)
                    &&& !self.slabs@.contains_key(s.0 as int)
                },
        ensures
            r.wf(*sa),
            r.exact(),
            sa.separate() && (forall|k: int|
                0 <= k < sa.allocatable@.len() ==> has_disk(
                    disks@,
                    sa.access.slab_disk(#[trigger] sa.allocatable@[k]),
                )) ==> r.ready(*sa),
            r.slabs == self.slabs,
            r.slab_size == sa.access.slab_size,
            r.spacemap.log.phys == self.phys.spacemap.log,
            r.spacemap_next.log.phys == self.phys.spacemap_next.log,
            r.spacemap.all() == self.first@,
            r.spacemap_next.all() == self.second@,
            r.spacemap.log.pending_entries@.len() == 0,
            r.spacemap_next.log.pending_entries@.len() == 0,
            r.spacemap.alloc_entries == self.phys.spacemap.alloc_entries,
            r.spacemap_next.alloc_entries == self.phys.spacemap_next.alloc_entries,
            r.next_slab_to_condense == self.phys.next_slab_to_condense,
            r.segments_at_last_merge == self.phys.segments_at_last_merge,
            r.checkpoint_allocated_bytes == 0,
            r.dirty_slabs@.len() == 0,
            r.aside@ == Set::<int>::empty(),
            forall|i: int, j: int|
                0 <= i < j < r.evacuating_slabs@.len() ==> (#[trigger] r.evacuating_slabs@[i]).0 < (
                #[trigger] r.evacuating_slabs@[j]).0,
            listed_before(
                self.slabs@,
                *sa,
                sa.access.next_slab_id.0 as int,
                r.noalloc_state@,
            ),
            r.slab_buckets.matches_phys(self.phys.slab_buckets.buckets@),
            forall|d: int| #[trigger] r.per_disk_stats@.contains_key(d) <==> has_disk(disks@, d),
    {
        let ghost m = self.slabs@;
        let ghost access = sa.access;
        let ghost buckets_phys = self.phys.slab_buckets.buckets@;
        let per_disk_stats = self.disk_stats(sa, disks);
        let noalloc_state = self.removing_slabs(sa);
        let evacuating_slabs = self.evacuating(&sa.access);
        let entries = self.bucket_entries(sa);
        let slab_buckets = SlabAllocationBuckets::new(&self.phys.slab_buckets, &entries);
        let r = BlockAllocator {
            slab_size: sa.access.slab_size as u32,
            spacemap: SpaceMap::open(self.phys.spacemap, self.first),
            spacemap_next: SpaceMap::open(self.phys.spacemap_next, self.second),
            next_slab_to_condense: self.phys.next_slab_to_condense,
            slabs: self.slabs,
            dirty_slabs: Vec::new(),
            evacuating_slabs,
            noalloc_state,
            slab_buckets,
            per_disk_stats,
            checkpoint_allocated_bytes: 0,
            segments_at_last_merge: self.phys.segments_at_last_merge,
            aside: Ghost(Set::empty()),
        };
        proof {
            assert forall|x: int| #[trigger] m.contains_key(x) implies {
                &&& slab_ok(access, m[x], x)
                &&& 0 <= x < access.next_slab_id.0
            } by {
                access.lemma_id_below_next(SlabId(x as u64));
            }
            lemma_built_noalloc(r, *sa);
            lemma_built_buckets(r, *sa, buckets_phys, entries@);
            assert(stats_ok(r.per_disk_stats@, m, access.next_slab_id.0 as int)) by {
                reveal(stats_ok);
            }
            assert(dirty_ok(r.dirty_slabs@, m)) by {
                reveal(dirty_ok);
            }
            assert(r.owned_ok(*sa)) by {
                reveal(BlockAllocator::owned_ok);
            }
            assert(r.exact()) by {
                reveal(noalloc_exact);
                assert forall|d: int| #[trigger] r.per_disk_stats@.contains_key(
                    d,
                ) implies r.per_disk_stats@[d].noalloc_bytes == if r.is_blocked(d) {
                    r.per_disk_stats@[d].free_bytes
                } else {
                    0
                } by {
                    if sa.removing(d) && !r.is_blocked(d) {
                        lemma_none_live(r, *sa, d);
                    }
                    if r.is_blocked(d) {
                        assert(list_at(r.noalloc_state@, d)[0].0 >= 0);
                    }
                }
            }
            if sa.separate() && (forall|k: int|
                0 <= k < sa.allocatable@.len() ==> has_disk(
                    disks@,
                    sa.access.slab_disk(#[trigger] sa.allocatable@[k]),
                )) {
                assert forall|k: int| 0 <= k < sa.allocatable@.len() implies ({
                    let d = sa.access.slab_disk(#[trigger] sa.allocatable@[k]);
                    &&& r.per_disk_stats@.contains_key(d)
                    &&& !r.is_blocked(d)
                }) by {
                    let d = sa.access.slab_disk(sa.allocatable@[k]);
                    assert(has_disk(disks@, d));
                    lemma_times_contains(sa.allocatable@, sa.allocatable@[k]);
                    assert(!sa.removing(d));
                    if r.is_blocked(d) {
                        assert(list_at(r.noalloc_state@, d).len() > 0);
                        assert(list_at(r.noalloc_state@, d)[0].0 >= 0);
                    }
                }
            }
        }
        r
    }
}

/// A disk that is being removed but has no slab in use has no free bytes.
proof fn lemma_none_live(r: BlockAllocator, sa: SlabAllocator, d: int)
    requires
        slabs_ok(sa.access, r.slabs@),
        listed_before(r.slabs@, sa, sa.access.next_slab_id.0 as int, r.noalloc_state@),
        sa.removing(d),
        !r.is_blocked(d),
    ensures
        sum_slabs(r.slabs@, sa.access.next_slab_id.0 as int, free_on(d)) == 0,
{
    let m = r.slabs@;
    let n = sa.access.next_slab_id.0 as int;
    let zero = |s: Slab| 0int;
    assert forall|k: int| 0 <= k < n implies (#[trigger] m.contains_key(k) == m.contains_key(k))
        && (m.contains_key(k) ==> free_on(d)(m[k]) == zero(m[k])) by {
        if m.contains_key(k) && m[k].disk() == d {
            let l = list_at(r.noalloc_state@, d);
            assert(l.contains(m[k].id));
            let j = choose|j: int| 0 <= j < l.len() && l[j] == m[k].id;
            assert(slab_ok(sa.access, m[k], k));
            assert(r.noalloc_state@[d]@[j] == m[k].id);
            assert(!m[k].live());
            assert(m[k].free_bytes() =~= Set::<int>::empty());
        }
    }
    lemma_sum_slabs_same(m, n, free_on(d), m, zero);
    crate::block_allocator::lemma_sum_none(m, n, zero);
}

proof fn lemma_built_noalloc(r: BlockAllocator, sa: SlabAllocator)
    requires
        listed_before(r.slabs@, sa, sa.access.next_slab_id.0 as int, r.noalloc_state@),
        forall|x: int|
            #[trigger] r.slabs@.contains_key(x) ==> {
                &&& r.slabs@[x].id.0 == x
                &&& 0 <= x < sa.access.next_slab_id.0
            },
        forall|i: int, j: int|
            0 <= i < j < r.evacuating_slabs@.len() ==> (#[trigger] r.evacuating_slabs@[i]).0 < (
            #[trigger] r.evacuating_slabs@[j]).0,
        forall|id: SlabId|
            #[trigger] r.evacuating_slabs@.contains(id) <==> r.slabs@.contains_key(id.0 as int)
                && !r.slabs@[id.0 as int].live(),
    ensures
        noalloc_ok(r.noalloc_state@, r.evacuating_slabs@, r.slabs@),
{
    reveal(noalloc_ok);
    let n = r.noalloc_state@;
    let m = r.slabs@;
    assert forall|d: int| #[trigger] n.contains_key(d) implies distinct(n[d]@) && n[d]@.len()
        > 0 by {
        let l = list_at(n, d);
        assert forall|i: int, j: int| 0 <= i < j < l.len() implies l[i] != l[j] by {
            assert(list_at(n, d)[i].0 < list_at(n, d)[j].0);
        }
    }
    assert forall|d: int, k: int|
        n.contains_key(d) && 0 <= k < n[d]@.len() implies m.contains_key(
        (#[trigger] n[d]@[k]).0 as int,
    ) && m[n[d]@[k].0 as int].disk() == d by {
        assert(list_at(n, d)[k] == n[d]@[k]);
    }
    assert forall|x: int| #[trigger]
        m.contains_key(x) && n.contains_key(m[x].disk()) implies n[m[x].disk()]@.contains(
        m[x].id,
    ) by {
        let d = m[x].disk();
        assert(list_at(n, d)[0].0 >= 0);
        assert(sa.removing(d));
        assert(list_at(n, d).contains(m[x].id));
    }
}

proof fn lemma_built_buckets(
    r: BlockAllocator,
    sa: SlabAllocator,
    phys: Seq<(SlabBucketSize, bool)>,
    entries: Seq<(SlabBucketSize, SlabBucketEntry)>,
)
    requires
        r.aside@ == Set::<int>::empty(),
        listed_before(r.slabs@, sa, sa.access.next_slab_id.0 as int, r.noalloc_state@),
        forall|x: int|
            #[trigger] r.slabs@.contains_key(x) ==> {
                &&& r.slabs@[x].id.0 == x
                &&& 0 <= x < sa.access.next_slab_id.0
            },
        forall|x: int|
            #[trigger] r.slabs@.contains_key(x) && r.slabs@[x].live() ==> phys.contains(
                (SlabBucketSize(r.slabs@[x].spec_max_size()), r.slabs@[x].inner is ExtentBased),
            ),
        sizes_ascend(phys),
        forall|i: int|
            0 <= i < phys.len() ==> {
                let (size, is_extent_based) = #[trigger] phys[i];
                &&& size.0 > 0
                &&& size.0 % 512 == 0
                &&& !is_extent_based ==> size.0 <= r.slab_size
            },
        r.slab_buckets.wf(),
        r.slab_buckets.matches_phys(phys),
        forall|i: int, e: SlabBucketEntry|
            0 <= i < r.slab_buckets.len() ==> (
            #[trigger] r.slab_buckets.bucket(i).by_freeness@.contains(e) <==> entries.contains(
                (SlabBucketSize(r.slab_buckets.size(i)), e),
            )),
        forall|i: int|
            0 <= i < entries.len() ==> {
                let y = (#[trigger] entries[i]).1.slab_id.0 as int;
                &&& usable(r.slabs@, sa, y)
                &&& entries[i].1 == entry_of(r.slabs@[y])
                &&& entries[i].0.0 == r.slabs@[y].spec_max_size()
            },
        forall|y: int|
            #[trigger] usable(r.slabs@, sa, y) ==> entries.contains(
                (SlabBucketSize(r.slabs@[y].spec_max_size()), entry_of(r.slabs@[y])),
            ),
    ensures
        sizes_ok(r.slab_buckets, r.slab_size),
        buckets_ok(r.slab_buckets, r.slabs@, r.inside()),
{
    let b = r.slab_buckets;
    let m = r.slabs@;
    let n = r.noalloc_state@;
    assert(sizes_ok(b, r.slab_size)) by {
        reveal(sizes_ok);
        assert forall|i: int| 0 <= i < b.len() implies ({
            &&& (#[trigger] b.size(i)) > 0
            &&& b.size(i) % 512 == 0
            &&& !b.bucket(i).is_extent_based ==> b.size(i) <= r.slab_size
        }) by {
            assert(b.size(i) == phys[i].0.0);
        }
    }
    // a slab in use can be allocated from unless its disk is being removed
    assert forall|x: int| #[trigger] m.contains_key(x) && m[x].live() implies (
    r.inside().contains(x) <==> !sa.removing(m[x].disk())) by {
        let d = m[x].disk();
        if sa.removing(d) {
            let l = list_at(n, d);
            assert(l.contains(m[x].id));
            let k = choose|k: int| 0 <= k < l.len() && l[k] == m[x].id;
            assert(n[d]@[k] == m[x].id);
            assert(m[n[d]@[k].0 as int].live());
            assert(r.is_blocked(d));
        } else if r.is_blocked(d) {
            assert(list_at(n, d)[0].0 >= 0);
        }
    }
    // the bucket of a slab
    assert forall|x: int| #[trigger] m.contains_key(x) && m[x].live() implies exists|i: int|
        #[trigger] home(b, m[x], i) by {
        let e = (SlabBucketSize(m[x].spec_max_size()), m[x].inner is ExtentBased);
        let i = choose|i: int| 0 <= i < phys.len() && phys[i] == e;
        assert(phys[i] == e);
        assert(home(b, m[x], i));
    }
    reveal(buckets_ok);
    assert forall|i: int, k: int|
        0 <= i < b.len() && 0 <= k < b.bucket(i).by_freeness@.len() implies ({
        let id = (#[trigger] b.bucket(i).by_freeness@[k]).slab_id.0 as int;
        &&& m.contains_key(id)
        &&& m[id].live()
        &&& home(b, m[id], i)
        &&& r.inside().contains(id)
    }) by {
        let e = b.bucket(i).by_freeness@[k];
        let id = e.slab_id.0 as int;
        assert(b.bucket(i).by_freeness@.contains(e));
        let pair = (SlabBucketSize(b.size(i)), e);
        assert(entries.contains(pair));
        let j = choose|j: int| 0 <= j < entries.len() && entries[j] == pair;
        assert(usable(m, sa, id));
        let h = choose|h: int| #[trigger] home(b, m[id], h);
        if h != i {
            assert(phys[h].0.0 == phys[i].0.0);
        }
    }
    assert forall|x: int| #[trigger] m.contains_key(x) && m[x].live() implies exists|i: int|
        #[trigger] home(b, m[x], i) && (has_slab(b.bucket(i).by_freeness@, m[x].id)
            <==> r.inside().contains(x)) by {
        let i = choose|i: int| #[trigger] home(b, m[x], i);
        if r.inside().contains(x) {
            assert(usable(m, sa, x));
            let e = entry_of(m[x]);
            assert(entries.contains((SlabBucketSize(b.size(i)), e)));
            assert(b.bucket(i).by_freeness@.contains(e));
            let k = choose|k: int|
                0 <= k < b.bucket(i).by_freeness@.len() && b.bucket(i).by_freeness@[k] == e;
            assert(b.bucket(i).by_freeness@[k].slab_id == m[x].id);
        }
        if has_slab(b.bucket(i).by_freeness@, m[x].id) {
            let k = choose|k: int|
                0 <= k < b.bucket(i).by_freeness@.len() && (
                #[trigger] b.bucket(i).by_freeness@[k]).slab_id == m[x].id;
            assert(r.inside().contains(b.bucket(i).by_freeness@[k].slab_id.0 as int));
        }
    }
}

/// What the space maps of a block allocator record can be opened again, once all slabs have been
/// flushed: the slabs that are then built from them are recorded in the same way.
pub proof fn law_rebuild(a: BlockAllocator, sa: SlabAllocator, slabs: Map<int, Slab>)
    requires
        a.wf(sa),
        all_clean(a.slabs@),
        forall|id: SlabId|
            record_of(slabs, id.0 as int) == #[trigger] record_after(
                sa.access,
                SlabRecord::Absent,
                a.spacemap.all() + a.spacemap_next.all(),
                id,
            ),
    ensures
        forall|id: SlabId|
            !(#[trigger] record_after(
                sa.access,
                SlabRecord::Absent,
                a.spacemap.all(),
                id,
            ) is Broken),
        forall|id: SlabId|
            #[trigger] record_of(slabs, id.0 as int) == record_of(a.slabs@, id.0 as int),
        logs_ok(
            sa.access,
            slabs,
            a.spacemap.all(),
            a.spacemap_next.all(),
            a.next_slab_to_condense.0,
        ),
{
    assert forall|id: SlabId|
        #[trigger] record_of(slabs, id.0 as int) == record_of(a.slabs@, id.0 as int) by {
        a.law_reopen(sa, id);
        assert(record_of(slabs, id.0 as int) == record_after(
            sa.access,
            SlabRecord::Absent,
            a.spacemap.all() + a.spacemap_next.all(),
            id,
        ));
        let x = id.0 as int;
        if a.slabs@.contains_key(x) {
            assert(a.slabs@[x].clean());
            assert(a.slabs@[x].recorded_free() =~= a.slabs@[x].free_bytes());
        }
    }
    lemma_logs_same(
        sa.access,
        a.slabs@,
        slabs,
        a.spacemap.all(),
        a.spacemap_next.all(),
        a.next_slab_to_condense.0,
    );
    assert forall|id: SlabId|
        !(#[trigger] record_after(
            sa.access,
            SlabRecord::Absent,
            a.spacemap.all(),
            id,
        ) is Broken) by {
        reveal(logs_ok);
        reveal(crate::block_allocator::invariants::log_ok);
        assert(crate::block_allocator::invariants::log_ok(
            sa.access,
            record_of(a.slabs@, id.0 as int),
            a.spacemap.all(),
            a.spacemap_next.all(),
            a.next_slab_to_condense.0,
            id,
        ));
    }
}

/// A block allocator that is opened again has the slabs that it had when they were last flushed:
/// the same ones, used in the same way, with the same blocks in use and the same bytes free.
pub proof fn law_reopened(
    a: BlockAllocator,
    sa: SlabAllocator,
    builder: BlockAllocatorBuilder,
    id: SlabId,
    e: Extent,
)
    requires
        a.wf(sa),
        all_clean(a.slabs@),
        slabs_ok(sa.access, builder.slabs@),
        forall|x: int| #[trigger] builder.slabs@.contains_key(x) ==> builder.slabs@[x].clean(),
        forall|s: SlabId|
            record_of(builder.slabs@, s.0 as int) == #[trigger] record_after(
                sa.access,
                SlabRecord::Absent,
                a.spacemap.all() + a.spacemap_next.all(),
                s,
            ),
    ensures
        ({
            let x = id.0 as int;
            let old = a.slabs@[x];
            let new = builder.slabs@[x];
            &&& builder.slabs@.contains_key(x) <==> a.slabs@.contains_key(x)
            &&& a.slabs@.contains_key(x) ==> {
                &&& new.slab_type() == old.slab_type()
                &&& new.free_bytes() == old.free_bytes()
                &&& new.freeing_bytes() == old.freeing_bytes()
                &&& new.allocated_bytes() == old.allocated_bytes()
                &&& new.is_block(e) == old.is_block(e)
            }
        }),
{
    law_rebuild(a, sa, builder.slabs@);
    let x = id.0 as int;
    assert(record_of(builder.slabs@, x) == record_of(a.slabs@, x));
    if a.slabs@.contains_key(x) {
        reveal(BlockAllocator::owned_ok);
        let old = a.slabs@[x];
        let new = builder.slabs@[x];
        assert(slab_ok(sa.access, old, x));
        assert(slab_ok(sa.access, new, x));
        old.lemma_clean_record();
        new.lemma_clean_record();
        let whole = sa.access.slab_extent(id);
        old.lemma_fits(whole, e);
        new.lemma_fits(whole, e);
        old.lemma_bytes();
        new.lemma_bytes();
        assert(new.whole() == old.whole());
        assert(new.freeing_bytes() =~= old.freeing_bytes());
    }
}

/// The sizes of the buckets are whole sectors: for each default there is a bucket of the least
/// such size that is not less, and for each bucket a default. No size occurs twice.
pub proof fn law_aligned_buckets(defaults: Seq<(SlabBucketSize, bool)>, sector_size: int, i: int)
    requires
        sector_size > 0,
        forall|k: int|
            0 <= k < defaults.len() ==> rounded_up(
                (#[trigger] defaults[k]).0.0 as int,
                sector_size,
            ) <= u32::MAX,
    ensures
        ({
            let r = aligned_buckets(defaults, sector_size);
            &&& r.len() <= defaults.len()
            &&& 0 <= i < defaults.len() ==> exists|k: int|
                0 <= k < r.len() && (#[trigger] r[k]).0.0 >= defaults[i].0.0 && r[k].0.0
                    - defaults[i].0.0 < sector_size && r[k].0.0 as int % sector_size == 0
            &&& forall|k: int, l: int|
                0 <= k < l < r.len() ==> (#[trigger] r[k]).0 != (#[trigger] r[l]).0
        }),
    decreases defaults.len(),
{
    if defaults.len() > 0 {
        let p = defaults.drop_last();
        let n = defaults.len() - 1;
        assert forall|k: int| 0 <= k < p.len() implies rounded_up(
            (#[trigger] p[k]).0.0 as int,
            sector_size,
        ) <= u32::MAX by {
            assert(p[k] == defaults[k]);
        }
        law_aligned_buckets(p, sector_size, i);
        let rest = aligned_buckets(p, sector_size);
        let r = aligned_buckets(defaults, sector_size);
        assert(defaults[n] == defaults.last());
        let aligned = rounded_up(defaults[n].0.0 as int, sector_size);
        law_rounded_up(defaults[n].0.0 as int, sector_size, 0);
        if 0 <= i < n {
            assert(p[i] == defaults[i]);
            let k = choose|k: int|
                0 <= k < rest.len() && (#[trigger] rest[k]).0.0 >= p[i].0.0 && rest[k].0.0
                    - p[i].0.0 < sector_size && rest[k].0.0 as int % sector_size == 0;
            assert(r[k] == rest[k]);
        } else if i == n {
            if exists|k: int| 0 <= k < rest.len() && (#[trigger] rest[k]).0.0 == aligned {
                let k = choose|k: int| 0 <= k < rest.len() && (#[trigger] rest[k]).0.0 == aligned;
                assert(r[k].0.0 == aligned);
            } else {
                assert(r[rest.len() as int].0.0 == aligned);
            }
        }
        assert forall|k: int, l: int| 0 <= k < l < r.len() implies (#[trigger] r[k]).0 != (
        #[trigger] r[l]).0 by {
            assert(rest[k] == r[k]);
            if l < rest.len() {
                assert(rest[l] == r[l]);
            } else {
                assert(rest[k].0.0 != aligned);
            }
        }
    }
}

} // verus!
