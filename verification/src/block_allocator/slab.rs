//! One slab of the block allocator.
use crate::base_types::{DiskLocation, Extent};
use crate::block_allocator::bitmap_slab::{run_extent, scaled, slots_of, BitmapSlab};
use crate::block_allocator::buckets::SlabBucketEntry;
use crate::block_allocator::extent_slab::{first_fit, no_fit, ExtentSlab};
use crate::block_allocator::SlabPhysType;
use crate::range_tree::{runs_of, span};
use crate::slab_allocator::SlabId;
use crate::space_map::{
    apply_entry, changed_extent, continued, extent_bytes, lemma_continued, lemma_continued_by_info,
    lemma_continued_by_none, replay, replayable, SpaceMap, SpaceMapEntry,
};
use vstd::prelude::*;

verus! {

/// A slab whose contents are being moved elsewhere.
pub struct EvacuatingSlab {
    pub extent: Extent,
}

pub enum SlabEnum {
    BitmapBased(BitmapSlab),
    ExtentBased(ExtentSlab),
    Evacuating(EvacuatingSlab),
}

pub struct Slab {
    pub id: SlabId,
    pub inner: SlabEnum,
    pub is_dirty: bool,
    /// Whether something was allocated since the last flush.
    pub is_allocd: bool,
}

/// The bytes of a slab that can be allocated, by what it is used for.
pub open spec fn usable_bytes(slab_type: SlabPhysType, extent: Extent) -> Set<int> {
    match slab_type {
        SlabPhysType::BitmapBased { block_size } => scaled(
            span(0, slots_of(extent.size as int, block_size as int)),
            extent.start(),
            block_size as int,
        ),
        SlabPhysType::ExtentBased { max_size } => span(extent.start(), extent.size as int),
        SlabPhysType::Free => Set::empty(),
        SlabPhysType::Evacuating => Set::empty(),
    }
}

/// Some blocks of a slab, by what it is used for.
pub open spec fn fits_type(slab_type: SlabPhysType, slab: Extent, extent: Extent) -> bool {
    &&& extent.wf()
    &&& extent.size > 0
    &&& extent.disk_no() == slab.disk_no()
    &&& slab.start() <= extent.start()
    &&& match slab_type {
        SlabPhysType::BitmapBased { block_size } => {
            &&& extent.end() <= slab.start() + slots_of(slab.size as int, block_size as int)
                * block_size
            &&& (extent.start() - slab.start()) % block_size as int == 0
            &&& extent.size % block_size as u64 == 0
        },
        SlabPhysType::ExtentBased { max_size } => extent.end() <= slab.end() && extent.aligned(),
        SlabPhysType::Free => false,
        SlabPhysType::Evacuating => false,
    }
}

/// Sizes that a slab can be used for.
pub open spec fn type_ok(slab_type: SlabPhysType) -> bool {
    match slab_type {
        SlabPhysType::BitmapBased { block_size } => block_size > 0 && block_size % 512 == 0,
        SlabPhysType::ExtentBased { max_size } => true,
        SlabPhysType::Free => false,
        SlabPhysType::Evacuating => true,
    }
}

impl Slab {
    pub open spec fn slab_type(&self) -> SlabPhysType {
        match self.inner {
            SlabEnum::BitmapBased(s) => SlabPhysType::BitmapBased { block_size: s.slot_size },
            SlabEnum::ExtentBased(s) => SlabPhysType::ExtentBased {
                max_size: s.max_allowed_alloc_size,
            },
            SlabEnum::Evacuating(_) => SlabPhysType::Evacuating,
        }
    }

    /// Whether blocks can be allocated and freed.
    pub open spec fn live(&self) -> bool {
        self.inner !is Evacuating
    }

    pub open spec fn spec_location(&self) -> DiskLocation {
        match self.inner {
            SlabEnum::BitmapBased(s) => s.location,
            SlabEnum::ExtentBased(s) => s.location,
            SlabEnum::Evacuating(s) => s.extent.location,
        }
    }

    pub open spec fn disk(&self) -> int {
        self.spec_location().disk_no()
    }

    pub open spec fn spec_max_size(&self) -> u32 {
        match self.inner {
            SlabEnum::BitmapBased(s) => s.slot_size,
            SlabEnum::ExtentBased(s) => s.max_allowed_alloc_size,
            SlabEnum::Evacuating(_) => 0,
        }
    }

    /// The bytes that can be allocated, now or later.
    pub open spec fn whole(&self) -> Set<int> {
        match self.inner {
            SlabEnum::BitmapBased(s) => s.slot_bytes(span(0, s.total_slots as int)),
            SlabEnum::ExtentBased(s) => s.whole(),
            SlabEnum::Evacuating(_) => Set::empty(),
        }
    }

    /// The bytes that can be allocated now.
    pub open spec fn free_bytes(&self) -> Set<int> {
        match self.inner {
            SlabEnum::BitmapBased(s) => s.slot_bytes(s.allocatable@),
            SlabEnum::ExtentBased(s) => s.allocatable@,
            SlabEnum::Evacuating(_) => Set::empty(),
        }
    }

    /// The bytes allocated since the last flush.
    pub open spec fn allocating_bytes(&self) -> Set<int> {
        match self.inner {
            SlabEnum::BitmapBased(s) => s.slot_bytes(s.allocating@),
            SlabEnum::ExtentBased(s) => s.allocating@,
            SlabEnum::Evacuating(_) => Set::empty(),
        }
    }

    /// The bytes freed since the last flush.
    pub open spec fn freeing_bytes(&self) -> Set<int> {
        match self.inner {
            SlabEnum::BitmapBased(s) => s.slot_bytes(s.freeing@),
            SlabEnum::ExtentBased(s) => s.freeing@,
            SlabEnum::Evacuating(_) => Set::empty(),
        }
    }

    /// The bytes that hold something.
    pub open spec fn allocated_bytes(&self) -> Set<int> {
        self.whole().difference(self.free_bytes()).difference(self.freeing_bytes())
    }

    /// What is free according to the entries recorded so far.
    pub open spec fn recorded_free(&self) -> Set<int> {
        self.free_bytes().union(self.allocating_bytes())
    }

    pub open spec fn wf(&self) -> bool {
        match self.inner {
            SlabEnum::BitmapBased(s) => s.wf(),
            SlabEnum::ExtentBased(s) => s.wf(),
            SlabEnum::Evacuating(s) => s.extent.wf(),
        }
    }

    /// The slab lies in the extent.
    pub open spec fn of(&self, extent: Extent) -> bool {
        match self.inner {
            SlabEnum::BitmapBased(s) => s.location == extent.location && s.total_slots == slots_of(
                extent.size as int,
                s.slot_size as int,
            ),
            SlabEnum::ExtentBased(s) => s.location == extent.location && s.total_space
                == extent.size,
            SlabEnum::Evacuating(s) => s.extent == extent,
        }
    }

    /// Nothing was allocated or freed since the last flush.
    pub open spec fn clean(&self) -> bool {
        self.allocating_bytes() == Set::<int>::empty() && self.freeing_bytes() == Set::<
            int,
        >::empty()
    }

    /// Some blocks of the slab.
    pub open spec fn fits(&self, extent: Extent) -> bool {
        match self.inner {
            SlabEnum::BitmapBased(s) => s.fits(extent),
            SlabEnum::ExtentBased(s) => s.fits(extent),
            SlabEnum::Evacuating(_) => false,
        }
    }

    /// One block of the slab: in a slab of slots, one slot.
    pub open spec fn is_block(&self, extent: Extent) -> bool {
        &&& self.fits(extent)
        &&& self.inner matches SlabEnum::BitmapBased(s) ==> extent.size == s.slot_size
    }

    /// The request can be met.
    pub open spec fn has_room(&self, size: int) -> bool {
        match self.inner {
            SlabEnum::BitmapBased(s) => s.allocatable@ != Set::<int>::empty(),
            SlabEnum::ExtentBased(s) => !no_fit(s.allocatable.segs@, size, 0, u64::MAX as int),
            SlabEnum::Evacuating(_) => false,
        }
    }

    /// What is allocated for a request that can be met: the first free slot, or the head of the
    /// first large enough segment behind the last allocation, or else before it.
    pub open spec fn picks(&self, size: int, extent: Extent) -> bool {
        match self.inner {
            SlabEnum::BitmapBased(s) => exists|slot: int|
                {
                    &&& #[trigger] s.allocatable@.contains(slot)
                    &&& forall|o: int| s.allocatable@.contains(o) ==> slot <= o
                    &&& extent == s.slot_extent(slot)
                },
            SlabEnum::ExtentBased(s) => {
                let segs = s.allocatable.segs@;
                let last = s.last_location as int;
                exists|i: int|
                    {
                        &&& first_fit(segs, size, last, u64::MAX as int, i) || no_fit(
                            segs,
                            size,
                            last,
                            u64::MAX as int,
                        ) && first_fit(segs, size, 0, last, i)
                        &&& extent == Extent::at(
                            s.location.disk_no(),
                            (#[trigger] segs[i]).0 as int,
                            size,
                        )
                    }
            },
            SlabEnum::Evacuating(_) => false,
        }
    }

    /// The two are the same slab, in the same use.
    pub open spec fn same_slab(&self, other: &Slab) -> bool {
        &&& self.id == other.id
        &&& match (self.inner, other.inner) {
            (SlabEnum::BitmapBased(a), SlabEnum::BitmapBased(b)) => a.same_slab(&b),
            (SlabEnum::ExtentBased(a), SlabEnum::ExtentBased(b)) => a.same_slab(&b),
            (SlabEnum::Evacuating(a), SlabEnum::Evacuating(b)) => a.extent == b.extent,
            _ => false,
        }
    }

    pub fn new_bitmap(id: SlabId, extent: Extent, block_size: u32) -> (r: Slab)
        requires
            extent.wf(),
            extent.size <= u32::MAX,
            block_size > 0,
            block_size % 512 == 0,
        ensures
            r.id == id,
            r.wf(),
            r.of(extent),
            r.slab_type() == (SlabPhysType::BitmapBased { block_size }),
            r.free_bytes() == r.whole(),
            r.whole() == usable_bytes(r.slab_type(), extent),
            r.clean(),
            !r.is_dirty,
            !r.is_allocd,
            r.inner matches SlabEnum::BitmapBased(s) ==> s.allocatable@ == span(
                0,
                s.total_slots as int,
            ),
    {
        let r = Slab {
            id,
            inner: SlabEnum::BitmapBased(BitmapSlab::new(extent, block_size)),
            is_dirty: false,
            is_allocd: false,
        };
        assert(r.allocating_bytes() =~= Set::<int>::empty());
        assert(r.freeing_bytes() =~= Set::<int>::empty());
        r
    }

    pub fn new_extent_based(id: SlabId, extent: Extent, max_size: u32) -> (r: Slab)
        requires
            extent.wf(),
            extent.aligned(),
            extent.size > 0,
        ensures
            r.id == id,
            r.wf(),
            r.of(extent),
            r.slab_type() == (SlabPhysType::ExtentBased { max_size }),
            r.free_bytes() == r.whole(),
            r.whole() == usable_bytes(r.slab_type(), extent),
            r.clean(),
            !r.is_dirty,
            !r.is_allocd,
            r.inner matches SlabEnum::ExtentBased(s) ==> s.last_location == 0,
    {
        Slab {
            id,
            inner: SlabEnum::ExtentBased(ExtentSlab::new(extent, max_size)),
            is_dirty: false,
            is_allocd: false,
        }
    }

    pub fn new_evacuating(id: SlabId, extent: Extent) -> (r: Slab)
        requires
            extent.wf(),
        ensures
            r.id == id,
            r.wf(),
            r.of(extent),
            r.slab_type() == SlabPhysType::Evacuating,
            r.clean(),
            !r.is_dirty,
            !r.is_allocd,
    {
        Slab {
            id,
            inner: SlabEnum::Evacuating(EvacuatingSlab { extent }),
            is_dirty: false,
            is_allocd: false,
        }
    }

    /// The sets of bytes of a slab, and their sizes.
    pub proof fn lemma_bytes(&self)
        requires
            self.wf(),
        ensures
            self.free_bytes().subset_of(self.whole()),
            self.freeing_bytes().subset_of(self.whole()),
            self.allocating_bytes().subset_of(self.whole()),
            self.free_bytes().disjoint(self.freeing_bytes()),
            self.free_bytes().disjoint(self.allocating_bytes()),
            self.whole().finite(),
    {
        match self.inner {
            SlabEnum::BitmapBased(s) => {
                let w = span(0, s.total_slots as int);
                crate::bitmap_range_iterator::lemma_span_len(0, s.total_slots as int);
                crate::block_allocator::bitmap_slab::lemma_scaled_len(
                    w,
                    s.base(),
                    s.slot_size as int,
                );
                let b = s.base();
                let z = s.slot_size as int;
                assert(s.allocatable@.subset_of(w));
                assert(s.allocating@.subset_of(w));
                assert(s.freeing@.subset_of(w));
                crate::block_allocator::bitmap_slab::lemma_scaled_ops(s.allocatable@, w, b, z);
                crate::block_allocator::bitmap_slab::lemma_scaled_ops(s.allocating@, w, b, z);
                crate::block_allocator::bitmap_slab::lemma_scaled_ops(s.freeing@, w, b, z);
                crate::block_allocator::bitmap_slab::lemma_scaled_ops(
                    s.allocatable@,
                    s.freeing@,
                    b,
                    z,
                );
                crate::block_allocator::bitmap_slab::lemma_scaled_ops(
                    s.allocatable@,
                    s.allocating@,
                    b,
                    z,
                );
            },
            SlabEnum::ExtentBased(s) => {
                crate::bitmap_range_iterator::lemma_span_len(s.base(), s.total_space as int);
            },
            SlabEnum::Evacuating(_) => {},
        }
    }

    /// A slab stays within its extent.
    pub proof fn lemma_within(&self, extent: Extent)
        requires
            self.wf(),
            self.of(extent),
        ensures
            self.disk() == extent.disk_no(),
            self.whole().subset_of(span(extent.start(), extent.size as int)),
            self.whole() == usable_bytes(self.slab_type(), extent),
    {
        match self.inner {
            SlabEnum::BitmapBased(s) => {
                let z = s.slot_size as int;
                crate::block_allocator::bitmap_slab::lemma_slots_of(extent.size as int, z);
                crate::block_allocator::bitmap_slab::lemma_scaled_span(
                    0,
                    s.total_slots as int,
                    s.base(),
                    z,
                );
                assert(0 * z == 0) by (nonlinear_arith);
            },
            _ => {},
        }
    }

    /// Which extents fit depends only on where the slab is and what it is used for.
    pub proof fn lemma_fits(&self, slab: Extent, extent: Extent)
        requires
            self.wf(),
            self.of(slab),
        ensures
            self.fits(extent) <==> fits_type(self.slab_type(), slab, extent),
            self.fits(extent) && slab.wf() ==> slab.spec_contains(extent),
    {
        match self.inner {
            SlabEnum::BitmapBased(s) => {
                crate::block_allocator::bitmap_slab::lemma_slots_of(
                    slab.size as int,
                    s.slot_size as int,
                );
            },
            _ => {},
        }
    }

    /// The sets of bytes make up the whole.
    pub proof fn lemma_sizes(&self)
        requires
            self.wf(),
        ensures
            self.free_bytes().len() + self.freeing_bytes().len() + self.allocated_bytes().len()
                == self.whole().len(),
            self.free_bytes().finite(),
            self.freeing_bytes().finite(),
            self.allocated_bytes().finite(),
    {
        self.lemma_bytes();
        vstd::set_lib::lemma_len_subset(self.free_bytes(), self.whole());
        vstd::set_lib::lemma_len_subset(self.freeing_bytes(), self.whole());
        vstd::set_lib::lemma_len_subset(self.allocated_bytes(), self.whole());
        let u = self.free_bytes().union(self.freeing_bytes());
        vstd::set_lib::lemma_set_disjoint_lens(self.free_bytes(), self.freeing_bytes());
        assert(u.disjoint(self.allocated_bytes()));
        assert(u.union(self.allocated_bytes()) =~= self.whole());
        vstd::set_lib::lemma_set_disjoint_lens(u, self.allocated_bytes());
    }

    /// A block is on the disk of its slab.
    pub proof fn lemma_block_disk(&self, extent: Extent)
        requires
            self.fits(extent),
        ensures
            extent.wf(),
            extent.size > 0,
            extent.disk_no() == self.disk(),
    {
    }

    /// A block consists of sectors, and is no larger than the slab.
    pub proof fn lemma_block_aligned(&self, extent: Extent)
        requires
            self.wf(),
            self.is_block(extent),
        ensures
            extent.size % 512 == 0,
            extent.size > 0,
            self.inner is BitmapBased ==> extent.size == self.spec_max_size(),
    {
    }

    /// How an allocation changes the numbers.
    pub proof fn lemma_allocated_sizes(a: &Slab, b: &Slab, extent: Extent)
        requires
            a.wf(),
            b.wf(),
            b.same_slab(a),
            extent_bytes(extent).subset_of(a.free_bytes()),
            b.free_bytes() == a.free_bytes().difference(extent_bytes(extent)),
            b.freeing_bytes() == a.freeing_bytes(),
        ensures
            b.free_bytes().len() == a.free_bytes().len() - extent.size,
            b.allocated_bytes().len() == a.allocated_bytes().len() + extent.size,
            b.allocating_bytes() == a.allocating_bytes().union(extent_bytes(extent))
                ==> b.recorded_free() == a.recorded_free(),
    {
        a.lemma_sizes();
        b.lemma_sizes();
        let e = extent_bytes(extent);
        crate::bitmap_range_iterator::lemma_span_len(extent.start(), extent.size as int);
        assert(b.free_bytes().disjoint(e));
        assert(b.free_bytes().union(e) =~= a.free_bytes());
        vstd::set_lib::lemma_set_disjoint_lens(b.free_bytes(), e);
        if b.allocating_bytes() == a.allocating_bytes().union(e) {
            assert(b.recorded_free() =~= a.recorded_free());
        }
    }

    /// How a free changes the numbers.
    pub proof fn lemma_freed_sizes(a: &Slab, b: &Slab, extent: Extent)
        requires
            a.wf(),
            b.wf(),
            b.same_slab(a),
            extent_bytes(extent).disjoint(a.freeing_bytes()),
            b.free_bytes() == a.free_bytes(),
            b.freeing_bytes() == a.freeing_bytes().union(extent_bytes(extent)),
        ensures
            b.allocated_bytes().len() == a.allocated_bytes().len() - extent.size,
    {
        a.lemma_sizes();
        b.lemma_sizes();
        crate::bitmap_range_iterator::lemma_span_len(extent.start(), extent.size as int);
        vstd::set_lib::lemma_set_disjoint_lens(a.freeing_bytes(), extent_bytes(extent));
    }

    /// How a flush changes the numbers.
    pub proof fn lemma_flushed_sizes(a: &Slab, b: &Slab)
        requires
            a.wf(),
            b.wf(),
            b.same_slab(a),
            b.clean(),
            b.free_bytes() == a.free_bytes().union(a.freeing_bytes()),
        ensures
            b.free_bytes().len() == a.free_bytes().len() + a.freeing_bytes().len(),
            b.allocated_bytes().len() == a.allocated_bytes().len(),
            b.recorded_free() == a.free_bytes().union(a.freeing_bytes()),
    {
        a.lemma_sizes();
        b.lemma_sizes();
        a.lemma_bytes();
        vstd::set_lib::lemma_set_disjoint_lens(a.free_bytes(), a.freeing_bytes());
        b.lemma_clean_record();
    }

    pub fn import_alloc(&mut self, extent: Extent)
        requires
            old(self).wf(),
            old(self).fits(extent),
            extent_bytes(extent).subset_of(old(self).free_bytes()),
        ensures
            final(self).wf(),
            final(self).same_slab(old(self)),
            final(self).is_dirty == old(self).is_dirty,
            final(self).is_allocd == old(self).is_allocd,
            final(self).allocating_bytes() == old(self).allocating_bytes(),
            final(self).freeing_bytes() == old(self).freeing_bytes(),
            final(self).free_bytes() == apply_entry(
                old(self).free_bytes(),
                SpaceMapEntry::Alloc(extent),
            ),
    {
        match &mut self.inner {
            SlabEnum::BitmapBased(s) => s.import_alloc(extent),
            SlabEnum::ExtentBased(s) => s.import_alloc(extent),
            SlabEnum::Evacuating(_) => {},
        }
    }

    pub fn import_free(&mut self, extent: Extent)
        requires
            old(self).wf(),
            old(self).fits(extent),
            old(self).clean(),
            extent_bytes(extent).disjoint(old(self).free_bytes()),
        ensures
            final(self).wf(),
            final(self).same_slab(old(self)),
            final(self).is_dirty == old(self).is_dirty,
            final(self).is_allocd == old(self).is_allocd,
            final(self).clean(),
            final(self).free_bytes() == apply_entry(
                old(self).free_bytes(),
                SpaceMapEntry::Free(extent),
            ),
    {
        proof {
            self.lemma_clean();
        }
        match &mut self.inner {
            SlabEnum::BitmapBased(s) => s.import_free(extent),
            SlabEnum::ExtentBased(s) => s.import_free(extent),
            SlabEnum::Evacuating(_) => {},
        }
    }

    /// All that is free in a clean slab has been recorded.
    pub proof fn lemma_clean_record(&self)
        ensures
            self.clean() ==> self.recorded_free() == self.free_bytes(),
    {
        if self.clean() {
            assert(self.recorded_free() =~= self.free_bytes());
        }
    }

    /// Nothing allocated or freed means no slots either.
    proof fn lemma_clean(&self)
        requires
            self.wf(),
            self.clean(),
        ensures
            match self.inner {
                SlabEnum::BitmapBased(s) => s.allocating@ == Set::<int>::empty() && s.freeing@
                    == Set::<int>::empty(),
                SlabEnum::ExtentBased(s) => s.allocating@ == Set::<int>::empty() && s.freeing@
                    == Set::<int>::empty(),
                SlabEnum::Evacuating(_) => true,
            },
    {
        match self.inner {
            SlabEnum::BitmapBased(s) => {
                lemma_no_units(s.allocating@, s.base(), s.slot_size as int);
                lemma_no_units(s.freeing@, s.base(), s.slot_size as int);
            },
            _ => {},
        }
    }

    pub fn allocate(&mut self, size: u32) -> (r: Option<Extent>)
        requires
            old(self).wf(),
            old(self).live(),
            size > 0,
            size % 512 == 0,
            old(self).inner is BitmapBased ==> size <= old(self).spec_max_size(),
        ensures
            final(self).wf(),
            final(self).same_slab(old(self)),
            final(self).is_dirty == old(self).is_dirty,
            final(self).is_allocd,
            final(self).freeing_bytes() == old(self).freeing_bytes(),
            r is Some <==> old(self).has_room(size as int),
            match r {
                None => {
                    &&& final(self).inner == old(self).inner
                },
                Some(extent) => {
                    &&& old(self).picks(size as int, extent)
                    &&& old(self).is_block(extent)
                    &&& extent.size == if old(self).inner is BitmapBased {
                        old(self).spec_max_size()
                    } else {
                        size
                    }
                    &&& extent_bytes(extent).subset_of(old(self).free_bytes())
                    &&& final(self).free_bytes() == old(self).free_bytes().difference(
                        extent_bytes(extent),
                    )
                    &&& final(self).allocating_bytes() == old(self).allocating_bytes().union(
                        extent_bytes(extent),
                    )
                },
            },
    {
        self.is_allocd = true;
        match &mut self.inner {
            SlabEnum::BitmapBased(s) => {
                let r = s.allocate(size);
                r
            },
            SlabEnum::ExtentBased(s) => {
                let ghost segs = s.allocatable.segs@;
                let ghost last = s.last_location as int;
                let r = s.allocate(size);
                proof {
                    if r is Some {
                        let i = choose|i: int|
                            {
                                &&& first_fit(segs, size as int, last, u64::MAX as int, i)
                                    || no_fit(segs, size as int, last, u64::MAX as int)
                                    && first_fit(segs, size as int, 0, last, i)
                                &&& r->0 == Extent::at(
                                    s.location.disk_no(),
                                    (#[trigger] segs[i]).0 as int,
                                    size as int,
                                )
                            };
                        assert(segs[i].1 >= size);
                        assert(!no_fit(segs, size as int, 0, u64::MAX as int));
                    }
                }
                r
            },
            SlabEnum::Evacuating(_) => None,
        }
    }

    /// Frees one block.
    pub fn free(&mut self, extent: Extent)
        requires
            old(self).wf(),
            old(self).is_block(extent),
            extent_bytes(extent).disjoint(old(self).free_bytes()),
            extent_bytes(extent).disjoint(old(self).freeing_bytes()),
        ensures
            final(self).wf(),
            final(self).same_slab(old(self)),
            final(self).is_dirty == old(self).is_dirty,
            final(self).is_allocd == old(self).is_allocd,
            final(self).free_bytes() == old(self).free_bytes(),
            final(self).allocating_bytes() == old(self).allocating_bytes(),
            final(self).freeing_bytes() == old(self).freeing_bytes().union(extent_bytes(extent)),
    {
        match &mut self.inner {
            SlabEnum::BitmapBased(s) => {
                proof {
                    let o = extent.start();
                    assert(extent_bytes(extent).contains(o));
                    assert(!s.slot_bytes(s.allocatable@).contains(o));
                }
                s.free(extent)
            },
            SlabEnum::ExtentBased(s) => s.free(extent),
            SlabEnum::Evacuating(_) => {},
        }
    }

    pub fn mark_slab_info(&self, spacemap: &mut SpaceMap)
        ensures
            continued(
                *old(spacemap),
                *final(spacemap),
                seq![SpaceMapEntry::SlabInfo(self.id, self.slab_type())],
            ),
    {
        let slab_type = match &self.inner {
            SlabEnum::BitmapBased(s) => SlabPhysType::BitmapBased { block_size: s.slot_size },
            SlabEnum::ExtentBased(s) => SlabPhysType::ExtentBased {
                max_size: s.max_allowed_alloc_size,
            },
            SlabEnum::Evacuating(_) => SlabPhysType::Evacuating,
        };
        spacemap.mark_slab_info(self.id, slab_type);
        proof {
            lemma_continued_by_info(*old(spacemap), *spacemap, self.id, slab_type);
        }
    }

    /// The entries that a flush records.
    pub open spec fn flush_entries(&self) -> Seq<SpaceMapEntry> {
        match self.inner {
            SlabEnum::BitmapBased(s) => s.flush_entries(),
            SlabEnum::ExtentBased(s) => s.flush_entries(),
            SlabEnum::Evacuating(_) => Seq::empty(),
        }
    }

    /// Applying what a flush records to what was recorded before gives what is free afterwards.
    pub proof fn law_flush_replays(&self)
        requires
            self.wf(),
            self.live(),
        ensures
            replayable(self.recorded_free(), self.flush_entries()),
            replay(self.recorded_free(), self.flush_entries()) == self.free_bytes().union(
                self.freeing_bytes(),
            ),
    {
        match self.inner {
            SlabEnum::BitmapBased(s) => {
                let b = s.base();
                let z = s.slot_size as int;
                crate::block_allocator::bitmap_slab::lemma_scaled_ops(
                    s.allocatable@,
                    s.allocating@,
                    b,
                    z,
                );
                crate::block_allocator::bitmap_slab::lemma_scaled_ops(
                    s.allocatable@,
                    s.freeing@,
                    b,
                    z,
                );
                s.law_flush_replays();
            },
            SlabEnum::ExtentBased(s) => {
                s.law_flush_replays();
            },
            SlabEnum::Evacuating(_) => {},
        }
    }

    /// Returns the numbers of bytes that were allocated and freed since the last flush.
    pub fn flush_to_spacemap(&mut self, spacemap: &mut SpaceMap) -> (r: (u64, u64))
        requires
            old(self).wf(),
            old(self).live(),
        ensures
            final(self).wf(),
            final(self).same_slab(old(self)),
            !final(self).is_dirty,
            !final(self).is_allocd,
            final(self).clean(),
            final(self).free_bytes() == old(self).free_bytes().union(old(self).freeing_bytes()),
            continued(*old(spacemap), *final(spacemap), old(self).flush_entries()),
            r.0 == old(self).allocating_bytes().len(),
            r.1 == old(self).freeing_bytes().len(),
    {
        self.is_dirty = false;
        self.is_allocd = false;
        match &mut self.inner {
            SlabEnum::BitmapBased(s) => {
                proof {
                    crate::block_allocator::bitmap_slab::lemma_scaled_ops(
                        s.allocatable@,
                        s.freeing@,
                        s.base(),
                        s.slot_size as int,
                    );
                }
                let r = s.flush_to_spacemap(spacemap);
                proof {
                    assert(s.slot_bytes(s.allocating@) =~= Set::<int>::empty());
                    assert(s.slot_bytes(s.freeing@) =~= Set::<int>::empty());
                }
                r
            },
            SlabEnum::ExtentBased(s) => s.flush_to_spacemap(spacemap),
            SlabEnum::Evacuating(_) => (0, 0),
        }
    }

    /// The entries from which the recorded state can be rebuilt.
    pub open spec fn condense_entries(&self) -> Seq<SpaceMapEntry> {
        match self.inner {
            SlabEnum::BitmapBased(s) => s.condense_entries(),
            SlabEnum::ExtentBased(s) => s.condense_entries(),
            SlabEnum::Evacuating(_) => Seq::empty(),
        }
    }

    /// Applying the condensed entries to an empty slab gives what was recorded so far.
    pub proof fn law_condense_replays(&self)
        requires
            self.wf(),
        ensures
            replayable(self.whole(), self.condense_entries()),
            replay(self.whole(), self.condense_entries()) == self.recorded_free(),
    {
        match self.inner {
            SlabEnum::BitmapBased(s) => {
                crate::block_allocator::bitmap_slab::lemma_scaled_ops(
                    s.allocatable@,
                    s.allocating@,
                    s.base(),
                    s.slot_size as int,
                );
                s.law_condense_replays();
            },
            SlabEnum::ExtentBased(s) => {
                s.law_condense_replays();
            },
            SlabEnum::Evacuating(_) => {
                assert(self.recorded_free() =~= Set::<int>::empty());
            },
        }
    }

    /// Records what the slab is and what is free in it, which makes all its earlier entries
    /// obsolete.
    pub fn condense_to_spacemap(&self, spacemap: &mut SpaceMap)
        requires
            self.wf(),
        ensures
            continued(
                *old(spacemap),
                *final(spacemap),
                seq![SpaceMapEntry::SlabInfo(self.id, self.slab_type())] + self.condense_entries(),
            ),
    {
        self.mark_slab_info(spacemap);
        let ghost s1 = *spacemap;
        match &self.inner {
            SlabEnum::BitmapBased(s) => s.condense_to_spacemap(spacemap),
            SlabEnum::ExtentBased(s) => s.condense_to_spacemap(spacemap),
            SlabEnum::Evacuating(_) => {
                proof {
                    lemma_continued_by_none(s1, self.condense_entries());
                }
            },
        }
        proof {
            lemma_continued(
                *old(spacemap),
                s1,
                *spacemap,
                seq![SpaceMapEntry::SlabInfo(self.id, self.slab_type())],
                self.condense_entries(),
            );
        }
    }

    /// What is recorded are blocks of the slab.
    pub proof fn lemma_entries_fit(&self)
        requires
            self.wf(),
        ensures
            forall|i: int|
                0 <= i < self.flush_entries().len() ==> {
                    let e = changed_extent(#[trigger] self.flush_entries()[i]);
                    e is Some && self.fits(e->0)
                },
            forall|i: int|
                0 <= i < self.condense_entries().len() ==> {
                    let e = changed_extent(#[trigger] self.condense_entries()[i]);
                    e is Some && self.fits(e->0)
                },
    {
        match self.inner {
            SlabEnum::BitmapBased(s) => {
                s.lemma_entries_fit();
            },
            SlabEnum::ExtentBased(s) => {
                s.lemma_entries_fit();
            },
            SlabEnum::Evacuating(_) => {},
        }
    }

    pub fn max_size(&self) -> (r: u32)
        requires
            self.live(),
        ensures
            r == self.spec_max_size(),
    {
        match &self.inner {
            SlabEnum::BitmapBased(s) => s.max_size(),
            SlabEnum::ExtentBased(s) => s.max_size(),
            SlabEnum::Evacuating(_) => 0,
        }
    }

    pub fn free_space(&self) -> (r: u64)
        requires
            self.wf(),
        ensures
            r == self.free_bytes().len(),
    {
        match &self.inner {
            SlabEnum::BitmapBased(s) => s.free_space(),
            SlabEnum::ExtentBased(s) => s.free_space(),
            SlabEnum::Evacuating(_) => 0,
        }
    }

    pub fn freeing_space(&self) -> (r: u64)
        requires
            self.wf(),
        ensures
            r == self.freeing_bytes().len(),
    {
        match &self.inner {
            SlabEnum::BitmapBased(s) => s.freeing_space(),
            SlabEnum::ExtentBased(s) => s.freeing_space(),
            SlabEnum::Evacuating(_) => 0,
        }
    }

    pub fn allocated_space(&self) -> (r: u64)
        requires
            self.wf(),
        ensures
            r == self.allocated_bytes().len(),
    {
        proof {
            match &self.inner {
                SlabEnum::BitmapBased(s) => {
                    s.lemma_allocated_bytes();
                },
                SlabEnum::ExtentBased(_) => {},
                SlabEnum::Evacuating(_) => {
                    assert(self.allocated_bytes() =~= Set::<int>::empty());
                },
            }
        }
        match &self.inner {
            SlabEnum::BitmapBased(s) => s.allocated_space(),
            SlabEnum::ExtentBased(s) => s.allocated_space(),
            SlabEnum::Evacuating(_) => 0,
        }
    }

    pub fn capacity_bytes(&self) -> (r: u64)
        requires
            self.wf(),
        ensures
            r == self.whole().len(),
    {
        proof {
            match &self.inner {
                SlabEnum::BitmapBased(s) => {
                    crate::bitmap_range_iterator::lemma_span_len(0, s.total_slots as int);
                    crate::block_allocator::bitmap_slab::lemma_scaled_len(
                        span(0, s.total_slots as int),
                        s.base(),
                        s.slot_size as int,
                    );
                },
                SlabEnum::ExtentBased(s) => {
                    crate::bitmap_range_iterator::lemma_span_len(s.base(), s.total_space as int);
                },
                SlabEnum::Evacuating(_) => {},
            }
        }
        match &self.inner {
            SlabEnum::BitmapBased(s) => s.capacity_bytes(),
            SlabEnum::ExtentBased(s) => s.capacity_bytes(),
            SlabEnum::Evacuating(_) => 0,
        }
    }

    pub open spec fn spec_num_segments(&self) -> int {
        match self.inner {
            SlabEnum::BitmapBased(s) => runs_of(
                span(0, s.total_slots as int).difference(s.allocatable@),
            ).len() as int,
            SlabEnum::ExtentBased(s) => runs_of(s.whole().difference(s.allocatable@)).len() as int,
            SlabEnum::Evacuating(_) => 0,
        }
    }

    /// A slab has no more segments than bytes.
    pub proof fn lemma_num_segments(&self, extent: Extent)
        requires
            self.wf(),
            self.of(extent),
        ensures
            0 <= self.spec_num_segments() <= extent.size,
    {
        match self.inner {
            SlabEnum::BitmapBased(s) => {
                let z = s.slot_size as int;
                let t = s.total_slots as int;
                crate::range_tree::lemma_runs_count(
                    span(0, t).difference(s.allocatable@),
                    0,
                    t,
                );
                crate::block_allocator::bitmap_slab::lemma_slots_of(extent.size as int, z);
                assert(t <= t * z) by (nonlinear_arith)
                    requires
                        t >= 0,
                        z >= 1,
                ;
            },
            SlabEnum::ExtentBased(s) => {
                crate::range_tree::lemma_runs_count(
                    s.whole().difference(s.allocatable@),
                    s.base(),
                    s.base() + s.total_space,
                );
            },
            SlabEnum::Evacuating(_) => {},
        }
    }

    pub fn num_segments(&self) -> (r: u64)
        requires
            self.wf(),
        ensures
            r == self.spec_num_segments(),
    {
        match &self.inner {
            SlabEnum::BitmapBased(s) => s.num_segments(),
            SlabEnum::ExtentBased(s) => s.num_segments(),
            SlabEnum::Evacuating(_) => 0,
        }
    }

    /// The maximal allocated extents, in ascending order.
    pub open spec fn spec_allocated_extents(&self) -> Seq<Extent> {
        match self.inner {
            SlabEnum::BitmapBased(s) => runs_of(s.allocated_slots()).map_values(
                |run: (u64, u64)|
                    run_extent(s.location.disk_no(), s.base(), s.slot_size as int, run),
            ),
            SlabEnum::ExtentBased(s) => runs_of(s.allocated()).map_values(
                |run: (u64, u64)| run_extent(s.location.disk_no(), 0, 1, run),
            ),
            SlabEnum::Evacuating(_) => Seq::empty(),
        }
    }

    pub fn allocated_extents(&self) -> (r: Vec<Extent>)
        requires
            self.wf(),
            self.live(),
        ensures
            r@ == self.spec_allocated_extents(),
    {
        match &self.inner {
            SlabEnum::BitmapBased(s) => s.allocated_extents(),
            SlabEnum::ExtentBased(s) => s.allocated_extents(),
            SlabEnum::Evacuating(_) => Vec::new(),
        }
    }

    pub fn to_slab_bucket_entry(&self) -> (r: SlabBucketEntry)
        requires
            self.wf(),
        ensures
            r.slab_id == self.id,
            r.allocated_space == self.allocated_bytes().len(),
    {
        SlabBucketEntry { allocated_space: self.allocated_space(), slab_id: self.id }
    }

    pub fn location(&self) -> (r: DiskLocation)
        ensures
            r == self.spec_location(),
    {
        match &self.inner {
            SlabEnum::BitmapBased(s) => s.location,
            SlabEnum::ExtentBased(s) => s.location,
            SlabEnum::Evacuating(s) => s.extent.location,
        }
    }
}

proof fn lemma_no_units(units: Set<int>, base: int, unit: int)
    requires
        scaled(units, base, unit) == Set::<int>::empty(),
        unit > 0,
        forall|u: int| units.contains(u) ==> u >= 0,
    ensures
        units == Set::<int>::empty(),
{
    assert forall|u: int| !units.contains(u) by {
        if units.contains(u) {
            let o = base + u * unit;
            assert(u * unit >= 0 && (u * unit) / unit == u) by (nonlinear_arith)
                requires
                    u >= 0,
                    unit > 0,
            ;
            assert(scaled(units, base, unit).contains(o));
        }
    }
    assert(units =~= Set::<int>::empty());
}

} // verus!
