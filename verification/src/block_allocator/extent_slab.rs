//! Slabs from which extents of any size are allocated.
use crate::base_types::{DiskLocation, Extent, MAX_DISK_ID};
use crate::bitmap_range_iterator::{lemma_segs_len, lemma_span_len};
use crate::block_allocator::bitmap_slab::{
    alloc_entries_of, extents_of, free_entries_of, lemma_replay_allocs, lemma_replay_frees,
    lemma_segs_set_push, record_allocs, record_frees, run_extent, runs_fit, scaled,
};
use crate::range_tree::{
    lemma_runs_exist, lemma_runs_of, runs_of, segs_have, segs_set, segs_wf, span, total_size,
    RangeTree,
};
use crate::space_map::{
    apply_entry, changed_extent, continued, extent_bytes, law_replay_append, lemma_continued,
    replay, replayable, SpaceMap, SpaceMapEntry,
};
use vstd::prelude::*;

verus! {

/// Where the sector of an offset starts.
pub open spec fn sector_start(o: int) -> int {
    o - o % 512
}

/// Whether each sector is in the set as a whole or not at all.
#[verifier::opaque]
pub open spec fn by_sectors(set: Set<int>) -> bool {
    forall|o: int| set.contains(o) == set.contains(#[trigger] sector_start(o))
}

proof fn lemma_sector(set: Set<int>, o: int)
    requires
        by_sectors(set),
    ensures
        set.contains(o) == set.contains(o - o % 512),
{
    reveal(by_sectors);
    assert(sector_start(o) == o - o % 512);
}

proof fn lemma_sectors_ops(a: Set<int>, b: Set<int>)
    requires
        by_sectors(a),
        by_sectors(b),
    ensures
        by_sectors(a.union(b)),
        by_sectors(a.difference(b)),
{
    assert forall|o: int| a.union(b).contains(o) == a.union(b).contains(#[trigger] sector_start(o)) by {
        lemma_sector(a, o);
        lemma_sector(b, o);
    }
    assert forall|o: int|
        a.difference(b).contains(o) == a.difference(b).contains(#[trigger] sector_start(o)) by {
        lemma_sector(a, o);
        lemma_sector(b, o);
    }
    reveal(by_sectors);
}

proof fn lemma_sectors_span(start: int, size: int)
    requires
        start % 512 == 0,
        size % 512 == 0,
    ensures
        by_sectors(span(start, size)),
        by_sectors(Set::<int>::empty()),
{
    reveal(by_sectors);
}

/// The segments of a set of whole sectors start and end on sector boundaries.
proof fn lemma_sector_segs(segs: Seq<(u64, u64)>, i: int)
    requires
        segs_wf(segs),
        by_sectors(segs_set(segs)),
        0 <= i < segs.len(),
    ensures
        segs[i].0 % 512 == 0,
        segs[i].1 % 512 == 0,
{
    let set = segs_set(segs);
    let a = segs[i].0 as int;
    let b = a + segs[i].1;
    if a % 512 != 0 {
        assert(segs_have(segs, a));
        lemma_sector(set, a);
        lemma_sector(set, a - 1);
        assert(a - a % 512 == (a - 1) - (a - 1) % 512);
        assert(segs_have(segs, a - 1));
        let j = choose|j: int|
            0 <= j < segs.len() && (#[trigger] segs[j]).0 <= a - 1 < segs[j].0 + segs[j].1;
        assert(segs[j].0 < segs[i].0);
        assert(false);
    }
    if b % 512 != 0 {
        assert(segs_have(segs, b - 1));
        lemma_sector(set, b - 1);
        lemma_sector(set, b);
        assert(b - b % 512 == (b - 1) - (b - 1) % 512);
        assert(segs_have(segs, b));
        let j = choose|j: int|
            0 <= j < segs.len() && (#[trigger] segs[j]).0 <= b < segs[j].0 + segs[j].1;
        assert(segs[i].0 < segs[j].0 + segs[j].1);
        assert(false);
    }
}

proof fn lemma_sector_runs_fit(disk: int, segs: Seq<(u64, u64)>)
    requires
        segs_wf(segs),
        by_sectors(segs_set(segs)),
        0 <= disk <= MAX_DISK_ID,
    ensures
        runs_fit(disk, 0, 1, segs),
{
    assert forall|i: int| 0 <= i < segs.len() implies ({
        &&& (#[trigger] segs[i]).0 * 1 >= 0
        &&& (segs[i].0 * 1) % 512 == 0
        &&& segs[i].1 * 1 >= 0
        &&& 0 + segs[i].0 * 1 + segs[i].1 * 1 <= u64::MAX
    }) by {
        lemma_sector_segs(segs, i);
    }
}

proof fn lemma_scaled_one(set: Set<int>)
    requires
        forall|o: int| set.contains(o) ==> 0 <= o,
    ensures
        scaled(set, 0, 1) == set,
{
    assert(scaled(set, 0, 1) =~= set);
}

/// A slab from which extents are allocated.
pub struct ExtentSlab {
    pub allocatable: RangeTree,
    pub allocating: RangeTree,
    pub freeing: RangeTree,
    pub last_location: u64,
    pub total_space: u64,
    pub max_allowed_alloc_size: u32,
    pub location: DiskLocation,
}

/// Segment `i` is the first one that starts from `lo` on and before `hi` and is large enough.
pub open spec fn first_fit(segs: Seq<(u64, u64)>, size: int, lo: int, hi: int, i: int) -> bool {
    &&& 0 <= i < segs.len()
    &&& lo <= segs[i].0 < hi
    &&& segs[i].1 >= size
    &&& forall|j: int| 0 <= j < i && lo <= (#[trigger] segs[j]).0 ==> segs[j].1 < size
}

/// No segment that starts from `lo` on and before `hi` is large enough.
pub open spec fn no_fit(segs: Seq<(u64, u64)>, size: int, lo: int, hi: int) -> bool {
    forall|j: int| 0 <= j < segs.len() && lo <= (#[trigger] segs[j]).0 < hi ==> segs[j].1 < size
}

impl ExtentSlab {
    pub open spec fn base(&self) -> int {
        self.location.off()
    }

    pub open spec fn whole(&self) -> Set<int> {
        span(self.base(), self.total_space as int)
    }

    /// A tree of whole sectors of the slab.
    pub open spec fn holds(&self, tree: RangeTree) -> bool {
        &&& tree.wf()
        &&& tree@.subset_of(self.whole())
        &&& by_sectors(tree@)
    }

    pub open spec fn wf(&self) -> bool {
        &&& self.location.wf()
        &&& self.total_space % 512 == 0
        &&& self.base() + self.total_space <= u64::MAX
        &&& self.holds(self.allocatable)
        &&& self.holds(self.allocating)
        &&& self.holds(self.freeing)
        &&& self.allocatable@.disjoint(self.allocating@)
        &&& self.allocatable@.disjoint(self.freeing@)
    }

    pub open spec fn same_slab(&self, other: &ExtentSlab) -> bool {
        &&& self.total_space == other.total_space
        &&& self.max_allowed_alloc_size == other.max_allowed_alloc_size
        &&& self.location == other.location
    }

    /// Some sectors of the slab.
    pub open spec fn fits(&self, extent: Extent) -> bool {
        &&& extent.wf()
        &&& extent.aligned()
        &&& extent.disk_no() == self.location.disk_no()
        &&& self.base() <= extent.start()
        &&& extent.end() <= self.base() + self.total_space
        &&& extent.size > 0
    }

    proof fn lemma_fits(&self, extent: Extent)
        requires
            self.fits(extent),
        ensures
            extent_bytes(extent).subset_of(self.whole()),
            by_sectors(extent_bytes(extent)),
    {
        assert(extent.size as int % 512 == 0);
        lemma_sectors_span(extent.start(), extent.size as int);
    }

    pub fn new(extent: Extent, max_allowed_alloc_size: u32) -> (r: ExtentSlab)
        requires
            extent.wf(),
            extent.aligned(),
            extent.size > 0,
        ensures
            r.wf(),
            r.location == extent.location,
            r.total_space == extent.size,
            r.max_allowed_alloc_size == max_allowed_alloc_size,
            r.last_location == 0,
            r.allocatable@ == r.whole(),
            r.allocating@ == Set::<int>::empty(),
            r.freeing@ == Set::<int>::empty(),
    {
        let mut allocatable = RangeTree::new();
        allocatable.add(extent.location.offset(), extent.size);
        let r = ExtentSlab {
            allocatable,
            allocating: RangeTree::new(),
            freeing: RangeTree::new(),
            last_location: 0,
            total_space: extent.size,
            max_allowed_alloc_size,
            location: extent.location,
        };
        proof {
            assert(r.allocatable@ =~= r.whole());
            lemma_sectors_span(r.base(), r.total_space as int);
        }
        r
    }

    /// Takes in a logged allocation.
    pub fn import_alloc(&mut self, extent: Extent)
        requires
            old(self).wf(),
            old(self).fits(extent),
            extent_bytes(extent).subset_of(old(self).allocatable@),
        ensures
            final(self).wf(),
            final(self).same_slab(old(self)),
            final(self).allocating == old(self).allocating,
            final(self).freeing == old(self).freeing,
            final(self).last_location == old(self).last_location,
            final(self).allocatable@ == apply_entry(
                old(self).allocatable@,
                SpaceMapEntry::Alloc(extent),
            ),
    {
        proof {
            self.lemma_fits(extent);
            lemma_sectors_ops(self.allocatable@, extent_bytes(extent));
            assert forall|o: int| extent.start() <= o < extent.end() implies segs_have(
                self.allocatable.segs@,
                o,
            ) by {
                assert(extent_bytes(extent).contains(o));
                assert(self.allocatable@.contains(o));
            }
        }
        self.allocatable.remove(extent.location.offset(), extent.size);
    }

    /// Takes in a logged free.
    pub fn import_free(&mut self, extent: Extent)
        requires
            old(self).wf(),
            old(self).fits(extent),
            old(self).allocating@ == Set::<int>::empty(),
            old(self).freeing@ == Set::<int>::empty(),
            extent_bytes(extent).disjoint(old(self).allocatable@),
        ensures
            final(self).wf(),
            final(self).same_slab(old(self)),
            final(self).allocating == old(self).allocating,
            final(self).freeing == old(self).freeing,
            final(self).last_location == old(self).last_location,
            final(self).allocatable@ == apply_entry(
                old(self).allocatable@,
                SpaceMapEntry::Free(extent),
            ),
    {
        proof {
            self.lemma_fits(extent);
            lemma_sectors_ops(self.allocatable@, extent_bytes(extent));
            assert forall|o: int| extent.start() <= o < extent.end() implies !segs_have(
                self.allocatable.segs@,
                o,
            ) by {
                assert(extent_bytes(extent).contains(o));
                assert(!self.allocatable@.contains(o));
            }
        }
        self.allocatable.add(extent.location.offset(), extent.size);
    }

    /// Allocates from the first segment that starts in a range and is large enough.
    fn allocate_impl(&mut self, size: u64, min_offset: u64, max_offset: u64) -> (r: Option<Extent>)
        requires
            old(self).wf(),
            size > 0,
            size % 512 == 0,
        ensures
            final(self).wf(),
            final(self).same_slab(old(self)),
            final(self).freeing == old(self).freeing,
            match r {
                None => *final(self) == *old(self) && no_fit(
                    old(self).allocatable.segs@,
                    size as int,
                    min_offset as int,
                    max_offset as int,
                ),
                Some(extent) => exists|i: int|
                    {
                        &&& #[trigger] first_fit(
                            old(self).allocatable.segs@,
                            size as int,
                            min_offset as int,
                            max_offset as int,
                            i,
                        )
                        &&& extent == Extent::at(
                            old(self).location.disk_no(),
                            old(self).allocatable.segs@[i].0 as int,
                            size as int,
                        )
                        &&& final(self).last_location == old(self).allocatable.segs@[i].0 + size
                    },
            },
            r matches Some(extent) ==> {
                &&& old(self).fits(extent)
                &&& extent.size == size
                &&& extent_bytes(extent).subset_of(old(self).allocatable@)
                &&& final(self).allocatable@ == old(self).allocatable@.difference(
                    extent_bytes(extent),
                )
                &&& final(self).allocating@ == old(self).allocating@.union(extent_bytes(extent))
            },
    {
        let first = self.allocatable.lower_bound(min_offset);
        let mut i: usize = first;
        while i < self.allocatable.segs.len()
            invariant
                first <= i <= self.allocatable.segs@.len(),
                *self == *old(self),
                forall|j: int|
                    0 <= j < first ==> (#[trigger] self.allocatable.segs@[j]).0 < min_offset,
                forall|j: int|
                    first <= j < self.allocatable.segs@.len() ==> min_offset <= (
                    #[trigger] self.allocatable.segs@[j]).0,
                forall|j: int|
                    first <= j < i ==> (#[trigger] self.allocatable.segs@[j]).1 < size,
                self.wf(),
                size > 0,
                size % 512 == 0,
            decreases self.allocatable.segs@.len() - i,
        {
            let (start, len) = self.allocatable.segs[i];
            if start >= max_offset {
                proof {
                    let segs = self.allocatable.segs@;
                    assert forall|j: int|
                        0 <= j < segs.len() && min_offset <= (#[trigger] segs[j]).0
                            < max_offset implies segs[j].1 < size by {
                        if j >= i && j != i {
                            assert(segs[i as int].0 < segs[j].0);
                        }
                    }
                }
                return None;
            }
            if len >= size {
                let ghost segs = self.allocatable.segs@;
                proof {
                    assert(segs[i as int] == (start, len));
                    lemma_sector_segs(segs, i as int);
                    assert forall|o: int| start <= o < start + size implies #[trigger] segs_have(
                        segs,
                        o,
                    ) && self.allocatable@.contains(o) && !segs_have(self.allocating.segs@, o) by {
                        assert(segs[i as int].0 <= o < segs[i as int].0 + segs[i as int].1);
                        assert(self.allocatable@.contains(o));
                        assert(!self.allocating@.contains(o));
                    }
                    assert forall|o: int| start <= o < start + size implies !segs_have(
                        self.allocating.segs@,
                        o,
                    ) by {
                        assert(segs_have(segs, o));
                    }
                    assert(segs_have(segs, start as int));
                    assert(self.whole().contains(start as int));
                    assert(segs_have(segs, start + size - 1));
                    assert(self.whole().contains(start + size - 1));
                    assert(size as int % 512 == 0);
                    lemma_sectors_span(start as int, size as int);
                    lemma_sectors_ops(self.allocatable@, span(start as int, size as int));
                    lemma_sectors_ops(self.allocating@, span(start as int, size as int));
                    assert(first_fit(
                        segs,
                        size as int,
                        min_offset as int,
                        max_offset as int,
                        i as int,
                    ));
                }
                self.allocatable.remove(start, size);
                self.allocating.add(start, size);
                self.last_location = start + size;
                let r = Extent::new(self.location.disk(), start, size);
                assert(r == Extent::at(
                    old(self).location.disk_no(),
                    segs[i as int].0 as int,
                    size as int,
                ));
                return Some(r);
            }
            i += 1;
        }
        None
    }

    /// Allocates from the first large enough segment after the last allocation, or else before
    /// it.
    pub fn allocate(&mut self, size: u32) -> (r: Option<Extent>)
        requires
            old(self).wf(),
            size > 0,
            size % 512 == 0,
        ensures
            final(self).wf(),
            final(self).same_slab(old(self)),
            final(self).freeing == old(self).freeing,
            ({
                let segs = old(self).allocatable.segs@;
                let last = old(self).last_location as int;
                match r {
                    None => *final(self) == *old(self) && no_fit(
                        segs,
                        size as int,
                        0,
                        u64::MAX as int,
                    ),
                    Some(extent) => exists|i: int|
                        {
                            &&& first_fit(segs, size as int, last, u64::MAX as int, i) || no_fit(
                                segs,
                                size as int,
                                last,
                                u64::MAX as int,
                            ) && first_fit(segs, size as int, 0, last, i)
                            &&& extent == Extent::at(
                                old(self).location.disk_no(),
                                (#[trigger] segs[i]).0 as int,
                                size as int,
                            )
                            &&& final(self).last_location == segs[i].0 + size
                        },
                }
            }),
            r matches Some(extent) ==> {
                &&& old(self).fits(extent)
                &&& extent.size == size
                &&& extent_bytes(extent).subset_of(old(self).allocatable@)
                &&& final(self).allocatable@ == old(self).allocatable@.difference(
                    extent_bytes(extent),
                )
                &&& final(self).allocating@ == old(self).allocating@.union(extent_bytes(extent))
            },
    {
        let request_size: u64 = size as u64;
        let last = self.last_location;
        match self.allocate_impl(request_size, last, u64::MAX) {
            Some(e) => Some(e),
            None => self.allocate_impl(request_size, 0, last),
        }
    }

    pub fn free(&mut self, extent: Extent)
        requires
            old(self).wf(),
            old(self).fits(extent),
            extent_bytes(extent).disjoint(old(self).allocatable@),
            extent_bytes(extent).disjoint(old(self).freeing@),
        ensures
            final(self).wf(),
            final(self).same_slab(old(self)),
            final(self).allocatable == old(self).allocatable,
            final(self).allocating == old(self).allocating,
            final(self).last_location == old(self).last_location,
            final(self).freeing@ == old(self).freeing@.union(extent_bytes(extent)),
    {
        proof {
            self.lemma_fits(extent);
            lemma_sectors_ops(self.freeing@, extent_bytes(extent));
            assert forall|o: int| extent.start() <= o < extent.end() implies !segs_have(
                self.freeing.segs@,
                o,
            ) by {
                assert(extent_bytes(extent).contains(o));
                assert(!self.freeing@.contains(o));
            }
        }
        self.freeing.add(extent.location.offset(), extent.size);
    }

    /// The entries that a flush records.
    pub open spec fn flush_entries(&self) -> Seq<SpaceMapEntry> {
        let d = self.location.disk_no();
        alloc_entries_of(d, 0, 1, runs_of(self.allocating@)) + free_entries_of(
            d,
            0,
            1,
            runs_of(self.freeing@),
        )
    }

    /// What is free according to the entries recorded so far.
    pub open spec fn recorded_free(&self) -> Set<int> {
        self.allocatable@.union(self.allocating@)
    }

    proof fn lemma_tree(&self, tree: RangeTree)
        requires
            self.wf(),
            self.holds(tree),
        ensures
            runs_of(tree@) == tree.segs@,
            segs_set(tree.segs@) == tree@,
            runs_fit(self.location.disk_no(), 0, 1, tree.segs@),
            scaled(tree@, 0, 1) == tree@,
            tree@.finite(),
            tree@.len() == total_size(tree.segs@),
    {
        lemma_runs_of(tree.segs@);
        lemma_sector_runs_fit(self.location.disk_no(), tree.segs@);
        lemma_scaled_one(tree@);
        lemma_segs_len(tree.segs@);
    }

    /// Applying what a flush records to what was recorded before gives what is free afterwards.
    pub proof fn law_flush_replays(&self)
        requires
            self.wf(),
        ensures
            replayable(self.recorded_free(), self.flush_entries()),
            replay(self.recorded_free(), self.flush_entries()) == self.allocatable@.union(
                self.freeing@,
            ),
    {
        let d = self.location.disk_no();
        self.lemma_tree(self.allocating);
        self.lemma_tree(self.freeing);
        let f0 = self.recorded_free();
        lemma_replay_allocs(f0, d, 0, 1, self.allocating.segs@);
        assert(f0.difference(self.allocating@) =~= self.allocatable@);
        lemma_replay_frees(self.allocatable@, d, 0, 1, self.freeing.segs@);
        law_replay_append(
            f0,
            alloc_entries_of(d, 0, 1, self.allocating.segs@),
            free_entries_of(d, 0, 1, self.freeing.segs@),
        );
    }

    pub fn flush_to_spacemap(&mut self, spacemap: &mut SpaceMap) -> (r: (u64, u64))
        requires
            old(self).wf(),
        ensures
            final(self).wf(),
            final(self).same_slab(old(self)),
            final(self).last_location == old(self).last_location,
            final(self).allocatable@ == old(self).allocatable@.union(old(self).freeing@),
            final(self).allocating@ == Set::<int>::empty(),
            final(self).freeing@ == Set::<int>::empty(),
            continued(*old(spacemap), *final(spacemap), old(self).flush_entries()),
            r.0 == old(self).allocating@.len(),
            r.1 == old(self).freeing@.len(),
    {
        // An extent that was allocated and then freed since the last flush is in both trees, so
        // the allocations are recorded before the frees. An extent cannot be freed and then
        // allocated between two flushes.
        proof {
            self.lemma_tree(self.allocating);
            self.lemma_tree(self.freeing);
        }
        let allocated_bytes = self.allocating.space();
        let freed_bytes = self.freeing.space();
        let ghost s0 = *spacemap;
        let ghost d = self.location.disk_no();
        let ghost x = alloc_entries_of(d, 0, 1, self.allocating.segs@);
        record_allocs(spacemap, self.location, 0, 1, &self.allocating.segs);
        let ghost s1 = *spacemap;
        self.allocating.clear();
        record_frees(spacemap, self.location, 0, 1, &self.freeing.segs);
        proof {
            let y = free_entries_of(d, 0, 1, self.freeing.segs@);
            lemma_continued(s0, s1, *spacemap, x, y);
            assert(x + y == old(self).flush_entries());
        }
        let ghost a0 = self.allocatable@;
        let ghost runs = self.freeing.segs@;
        let mut i: usize = 0;
        proof {
            assert(runs.take(0) =~= Seq::<(u64, u64)>::empty());
            assert(a0.union(segs_set(runs.take(0))) =~= a0);
            lemma_sectors_ops(old(self).allocatable@, old(self).freeing@);
        }
        while i < self.freeing.segs.len()
            invariant
                i <= self.freeing.segs@.len(),
                self.same_slab(old(self)),
                self.last_location == old(self).last_location,
                self.allocating.wf(),
                self.allocating@ == Set::<int>::empty(),
                self.freeing == old(self).freeing,
                runs == self.freeing.segs@,
                segs_wf(runs),
                a0 == old(self).allocatable@,
                old(self).allocatable@.disjoint(old(self).freeing@),
                self.allocatable.wf(),
                self.allocatable@ == a0.union(segs_set(runs.take(i as int))),
            decreases self.freeing.segs@.len() - i,
        {
            let (start, size) = self.freeing.segs[i];
            proof {
                assert(runs[i as int] == (start, size));
                assert forall|o: int| start <= o < start + size implies !segs_have(
                    self.allocatable.segs@,
                    o,
                ) by {
                    assert(segs_have(runs, o));
                    assert(old(self).freeing@.contains(o));
                    assert(!a0.contains(o));
                    if segs_have(runs.take(i as int), o) {
                        let t = runs.take(i as int);
                        let j = choose|j: int|
                            0 <= j < t.len() && (#[trigger] t[j]).0 <= o < t[j].0 + t[j].1;
                        assert(t[j] == runs[j]);
                        assert(runs[j].0 + runs[j].1 < runs[i as int].0);
                    }
                    assert(!self.allocatable@.contains(o));
                }
            }
            self.allocatable.add(start, size);
            proof {
                assert(runs.take(i + 1) =~= runs.take(i as int).push((start, size)));
                lemma_segs_set_push(runs.take(i as int), (start, size));
                assert(self.allocatable@ =~= a0.union(segs_set(runs.take(i + 1))));
            }
            i += 1;
        }
        proof {
            assert(runs.take(runs.len() as int) =~= runs);
            lemma_sectors_span(0, 0);
        }
        self.freeing.clear();
        (allocated_bytes, freed_bytes)
    }

    /// The entries from which the recorded state can be rebuilt.
    pub open spec fn condense_entries(&self) -> Seq<SpaceMapEntry> {
        let d = self.location.disk_no();
        alloc_entries_of(d, 0, 1, runs_of(self.whole().difference(self.allocatable@)))
            + free_entries_of(d, 0, 1, runs_of(self.allocating@))
    }

    proof fn lemma_part(&self, set: Set<int>)
        requires
            self.wf(),
            set.subset_of(self.whole()),
            by_sectors(set),
        ensures
            segs_wf(runs_of(set)),
            segs_set(runs_of(set)) == set,
            runs_fit(self.location.disk_no(), 0, 1, runs_of(set)),
            scaled(set, 0, 1) == set,
    {
        lemma_runs_exist(set, self.base() + self.total_space);
        lemma_sector_runs_fit(self.location.disk_no(), runs_of(set));
        lemma_scaled_one(set);
    }

    /// Applying the condensed entries to an empty slab gives what was recorded so far.
    pub proof fn law_condense_replays(&self)
        requires
            self.wf(),
        ensures
            replayable(self.whole(), self.condense_entries()),
            replay(self.whole(), self.condense_entries()) == self.recorded_free(),
    {
        let d = self.location.disk_no();
        let taken = self.whole().difference(self.allocatable@);
        lemma_sectors_span(self.base(), self.total_space as int);
        lemma_sectors_ops(self.whole(), self.allocatable@);
        self.lemma_part(taken);
        self.lemma_part(self.allocating@);
        let tr = runs_of(taken);
        let ar = runs_of(self.allocating@);
        lemma_replay_allocs(self.whole(), d, 0, 1, tr);
        assert(self.whole().difference(taken) =~= self.allocatable@);
        lemma_replay_frees(self.allocatable@, d, 0, 1, ar);
        law_replay_append(
            self.whole(),
            alloc_entries_of(d, 0, 1, tr),
            free_entries_of(d, 0, 1, ar),
        );
    }

    fn slab_end(&self) -> (r: u64)
        requires
            self.wf(),
        ensures
            r == self.base() + self.total_space,
    {
        self.location.offset() + self.total_space
    }

    /// The maximal segments that are not free.
    fn taken(&self) -> (r: Vec<(u64, u64)>)
        requires
            self.wf(),
        ensures
            r@ == runs_of(self.whole().difference(self.allocatable@)),
            segs_wf(r@),
            segs_set(r@) == self.whole().difference(self.allocatable@),
            runs_fit(self.location.disk_no(), 0, 1, r@),
            total_size(r@) == self.total_space - total_size(self.allocatable.segs@),
    {
        proof {
            assert forall|o: int| segs_have(self.allocatable.segs@, o) implies self.base() <= o
                < self.base() + self.total_space by {
                assert(self.allocatable@.contains(o));
                assert(self.whole().contains(o));
            }
            lemma_sectors_span(self.base(), self.total_space as int);
            lemma_sectors_ops(self.whole(), self.allocatable@);
            self.lemma_part(self.whole().difference(self.allocatable@));
        }
        let r = self.allocatable.iter_inverse(self.location.offset(), self.slab_end());
        proof {
            lemma_runs_of(r@);
        }
        r
    }

    pub fn condense_to_spacemap(&self, spacemap: &mut SpaceMap)
        requires
            self.wf(),
        ensures
            continued(*old(spacemap), *final(spacemap), self.condense_entries()),
    {
        let runs = self.taken();
        let ghost s0 = *spacemap;
        let ghost d = self.location.disk_no();
        let ghost x = alloc_entries_of(d, 0, 1, runs@);
        record_allocs(spacemap, self.location, 0, 1, &runs);
        let ghost s1 = *spacemap;
        // What is being allocated is recorded as free: the next flush records it as allocated.
        proof {
            self.lemma_tree(self.allocating);
        }
        record_frees(spacemap, self.location, 0, 1, &self.allocating.segs);
        proof {
            let y = free_entries_of(d, 0, 1, self.allocating.segs@);
            lemma_continued(s0, s1, *spacemap, x, y);
            assert(x + y == self.condense_entries());
        }
    }

    proof fn lemma_run_fits(&self, runs: Seq<(u64, u64)>, i: int)
        requires
            self.wf(),
            segs_wf(runs),
            segs_set(runs).subset_of(self.whole()),
            by_sectors(segs_set(runs)),
            0 <= i < runs.len(),
        ensures
            self.fits(run_extent(self.location.disk_no(), 0, 1, runs[i])),
            run_extent(self.location.disk_no(), 0, 1, runs[i]).start() == runs[i].0,
    {
        lemma_sector_segs(runs, i);
        let f = runs[i].0 as int;
        let c = runs[i].1 as int;
        assert(segs_have(runs, f));
        assert(segs_have(runs, f + c - 1));
        assert(segs_set(runs).contains(f));
        assert(segs_set(runs).contains(f + c - 1));
        assert(self.whole().contains(f));
        assert(self.whole().contains(f + c - 1));
        crate::base_types::law_location_round_trip(self.location.disk_no(), f);
    }

    /// What is recorded are sectors of the slab.
    pub proof fn lemma_entries_fit(&self)
        requires
            self.wf(),
        ensures
            forall|i: int|
                0 <= i < self.flush_entries().len() ==> {
                    let e = changed_extent(#[trigger] self.flush_entries()[i]);
                    e is Some && self.fits(e->0)
                },
            forall|i: int|
                0 <= i < self.condense_entries().len() ==> {
                    let e = changed_extent(#[trigger] self.condense_entries()[i]);
                    e is Some && self.fits(e->0)
                },
    {
        let taken = self.whole().difference(self.allocatable@);
        lemma_sectors_span(self.base(), self.total_space as int);
        lemma_sectors_ops(self.whole(), self.allocatable@);
        self.lemma_part(taken);
        self.lemma_part(self.allocating@);
        self.lemma_part(self.freeing@);
        let ar = runs_of(self.allocating@);
        let fr = runs_of(self.freeing@);
        let tr = runs_of(taken);
        assert forall|i: int| 0 <= i < self.flush_entries().len() implies ({
            let e = changed_extent(#[trigger] self.flush_entries()[i]);
            e is Some && self.fits(e->0)
        }) by {
            if i < ar.len() {
                self.lemma_run_fits(ar, i);
            } else {
                self.lemma_run_fits(fr, i - ar.len());
            }
        }
        assert forall|i: int| 0 <= i < self.condense_entries().len() implies ({
            let e = changed_extent(#[trigger] self.condense_entries()[i]);
            e is Some && self.fits(e->0)
        }) by {
            if i < tr.len() {
                self.lemma_run_fits(tr, i);
            } else {
                self.lemma_run_fits(ar, i - tr.len());
            }
        }
    }

    pub fn max_size(&self) -> (r: u32)
        ensures
            r == self.max_allowed_alloc_size,
    {
        self.max_allowed_alloc_size
    }

    pub fn capacity_bytes(&self) -> (r: u64)
        ensures
            r == self.total_space,
    {
        self.total_space
    }

    pub fn free_space(&self) -> (r: u64)
        requires
            self.wf(),
        ensures
            r == self.allocatable@.len(),
    {
        proof {
            self.lemma_tree(self.allocatable);
        }
        self.allocatable.space()
    }

    pub fn freeing_space(&self) -> (r: u64)
        requires
            self.wf(),
        ensures
            r == self.freeing@.len(),
    {
        proof {
            self.lemma_tree(self.freeing);
        }
        self.freeing.space()
    }

    /// The bytes that hold something.
    pub open spec fn allocated(&self) -> Set<int> {
        self.whole().difference(self.allocatable@).difference(self.freeing@)
    }

    proof fn lemma_allocated(&self)
        requires
            self.wf(),
        ensures
            self.allocatable@.len() + self.freeing@.len() + self.allocated().len()
                == self.total_space,
            self.allocatable@.len() == total_size(self.allocatable.segs@),
            self.freeing@.len() == total_size(self.freeing.segs@),
    {
        self.lemma_tree(self.allocatable);
        self.lemma_tree(self.freeing);
        lemma_span_len(self.base(), self.total_space as int);
        let taken = self.allocatable@.union(self.freeing@);
        vstd::set_lib::lemma_set_disjoint_lens(self.allocatable@, self.freeing@);
        assert(taken.disjoint(self.allocated()));
        assert(taken.union(self.allocated()) =~= self.whole());
        vstd::set_lib::lemma_set_disjoint_lens(taken, self.allocated());
    }

    pub fn allocated_space(&self) -> (r: u64)
        requires
            self.wf(),
        ensures
            r == self.allocated().len(),
            r <= self.total_space,
    {
        proof {
            self.lemma_allocated();
        }
        self.total_space - self.free_space() - self.freeing_space()
    }

    /// The number of maximal segments that are not free.
    pub fn num_segments(&self) -> (r: u64)
        requires
            self.wf(),
        ensures
            r == runs_of(self.whole().difference(self.allocatable@)).len(),
    {
        self.taken().len() as u64
    }

    /// The allocated extents lie in the slab.
    pub proof fn lemma_allocated_fit(&self)
        requires
            self.wf(),
        ensures
            segs_wf(runs_of(self.allocated())),
            segs_set(runs_of(self.allocated())) == self.allocated(),
            forall|k: int|
                0 <= k < runs_of(self.allocated()).len() ==> {
                    let run = #[trigger] runs_of(self.allocated())[k];
                    let e = run_extent(self.location.disk_no(), 0, 1, run);
                    self.fits(e) && e.start() == run.0 && e.size == run.1
                },
    {
        lemma_sectors_span(self.base(), self.total_space as int);
        lemma_sectors_ops(self.whole(), self.allocatable@);
        lemma_sectors_ops(self.whole().difference(self.allocatable@), self.freeing@);
        self.lemma_part(self.allocated());
        let runs = runs_of(self.allocated());
        assert forall|k: int| 0 <= k < runs.len() implies ({
            let e = run_extent(self.location.disk_no(), 0, 1, #[trigger] runs[k]);
            self.fits(e) && e.start() == runs[k].0 && e.size == runs[k].1
        }) by {
            self.lemma_run_fits(runs, k);
        }
    }

    /// The allocated extents in ascending order; each may cover several adjacent blocks.
    pub fn allocated_extents(&self) -> (r: Vec<Extent>)
        requires
            self.wf(),
        ensures
            r@ == runs_of(self.allocated()).map_values(
                |run: (u64, u64)| run_extent(self.location.disk_no(), 0, 1, run),
            ),
    {
        let taken = self.taken();
        let mut allocated = RangeTree::new();
        let mut i: usize = 0;
        proof {
            assert(taken@.take(0) =~= Seq::<(u64, u64)>::empty());
        }
        while i < taken.len()
            invariant
                i <= taken@.len(),
                segs_wf(taken@),
                allocated.wf(),
                allocated@ =~= segs_set(taken@.take(i as int)),
            decreases taken@.len() - i,
        {
            let (start, size) = taken[i];
            proof {
                assert(taken@[i as int] == (start, size));
                assert forall|o: int| start <= o < start + size implies !segs_have(
                    allocated.segs@,
                    o,
                ) by {
                    if allocated@.contains(o) {
                        let t = taken@.take(i as int);
                        let j = choose|j: int|
                            0 <= j < t.len() && (#[trigger] t[j]).0 <= o < t[j].0 + t[j].1;
                        assert(t[j] == taken@[j]);
                        assert(taken@[j].0 + taken@[j].1 < taken@[i as int].0);
                    }
                }
            }
            allocated.add(start, size);
            proof {
                assert(taken@.take(i + 1) =~= taken@.take(i as int).push((start, size)));
                lemma_segs_set_push(taken@.take(i as int), (start, size));
            }
            i += 1;
        }
        assert(taken@.take(taken@.len() as int) =~= taken@);
        // Frees show in the allocatable tree only after the next flush.
        let ghost s0 = allocated@;
        let ghost runs = self.freeing.segs@;
        let mut i: usize = 0;
        proof {
            assert(runs.take(0) =~= Seq::<(u64, u64)>::empty());
        }
        while i < self.freeing.segs.len()
            invariant
                i <= self.freeing.segs@.len(),
                runs == self.freeing.segs@,
                self.wf(),
                s0 == self.whole().difference(self.allocatable@),
                allocated.wf(),
                allocated@ =~= s0.difference(segs_set(runs.take(i as int))),
            decreases self.freeing.segs@.len() - i,
        {
            let (start, size) = self.freeing.segs[i];
            proof {
                assert(runs[i as int] == (start, size));
                assert forall|o: int| start <= o < start + size implies segs_have(
                    allocated.segs@,
                    o,
                ) by {
                    assert(segs_have(runs, o));
                    assert(self.freeing@.contains(o));
                    if segs_have(runs.take(i as int), o) {
                        let t = runs.take(i as int);
                        let j = choose|j: int|
                            0 <= j < t.len() && (#[trigger] t[j]).0 <= o < t[j].0 + t[j].1;
                        assert(t[j] == runs[j]);
                        assert(runs[j].0 + runs[j].1 < runs[i as int].0);
                    }
                    assert(allocated@.contains(o));
                }
            }
            allocated.remove(start, size);
            proof {
                assert(runs.take(i + 1) =~= runs.take(i as int).push((start, size)));
                lemma_segs_set_push(runs.take(i as int), (start, size));
            }
            i += 1;
        }
        proof {
            assert(runs.take(runs.len() as int) =~= runs);
            assert(allocated@ =~= self.allocated());
            lemma_runs_of(allocated.segs@);
            lemma_sectors_span(self.base(), self.total_space as int);
            lemma_sectors_ops(self.whole(), self.allocatable@);
            lemma_sectors_ops(self.whole().difference(self.allocatable@), self.freeing@);
            lemma_sector_runs_fit(self.location.disk_no(), allocated.segs@);
        }
        extents_of(self.location, 0, 1, &allocated.segs)
    }
}

} // verus!
