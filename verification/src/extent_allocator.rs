//! Allocates extents of varying size, for metadata.
use crate::base_types::{Extent, SECTOR};
use crate::vec_map::VecMap;
use crate::range_tree::{segs_have, segs_set, segs_wf, span, total_size, RangeTree};
use vstd::prelude::*;

verus! {

/// The largest sector size there is.
pub const MAX_SECTOR_SIZE: u64 = 4096;

/// What is stored of the allocator: the extents that it hands out parts of.
#[derive(Debug)]
pub struct ExtentAllocatorPhys {
    pub capacity: Vec<Extent>,
}

impl ExtentAllocatorPhys {
    pub fn new(capacity: Vec<Extent>) -> (r: Self)
        ensures
            r.capacity == capacity,
    {
        ExtentAllocatorPhys { capacity }
    }

    /// Adds capacity.
    pub fn extend(&mut self, capacity: Vec<Extent>)
        ensures
            final(self).capacity@ == old(self).capacity@ + capacity@,
    {
        let mut capacity = capacity;
        self.capacity.append(&mut capacity);
    }
}

/// A part of the capacity.
pub struct Section {
    pub extent: Extent,
    pub allocatable: RangeTree,
    /// Not yet available for reallocation until this checkpoint completes.
    pub freeing: RangeTree,
}

/// Whole sectors: of each sector all offsets are in the set or none.
pub open spec fn sectors_whole(s: Set<int>) -> bool {
    forall|o: int| 0 <= o ==> #[trigger] sector_whole(s, o)
}

/// The sector of an offset is in the set with the offset.
pub open spec fn sector_whole(s: Set<int>, o: int) -> bool {
    s.contains(o) <==> s.contains(o - o % 512)
}

/// An extent of whole sectors on a disk.
pub open spec fn extent_ok(e: Extent) -> bool {
    e.wf() && e.aligned() && e.size > 0
}

impl Section {
    pub open spec fn wf(&self) -> bool {
        &&& extent_ok(self.extent)
        &&& self.allocatable.wf()
        &&& self.freeing.wf()
        &&& self.allocatable@.subset_of(span(self.extent.start(), self.extent.size as int))
        &&& self.freeing@.subset_of(span(self.extent.start(), self.extent.size as int))
        &&& self.allocatable@.disjoint(self.freeing@)
        &&& sectors_whole(self.allocatable@)
        &&& sectors_whole(self.freeing@)
    }
}

/// Nothing of the section is in use.
pub open spec fn is_fresh(s: Section) -> bool {
    &&& s.allocatable@ == span(s.extent.start(), s.extent.size as int)
    &&& s.freeing@ == Set::<int>::empty()
}

/// Sections in order of their locations, none of which overlap.
pub open spec fn sections_wf(s: Seq<Section>) -> bool {
    &&& forall|i: int| 0 <= i < s.len() ==> (#[trigger] s[i]).wf()
    &&& forall|i: int, j: int|
        0 <= i < j < s.len() ==> {
            &&& (#[trigger] s[i]).extent.location.raw < (#[trigger] s[j]).extent.location.raw
            &&& !s[i].extent.overlaps(s[j].extent)
        }
}

/// Hands out extents. `next` is where the search starts.
pub struct ExtentAllocator {
    pub sections: Vec<Section>,
    pub next: Extent,
}

/// Collects what is in use, before the allocator can be used.
pub struct ExtentAllocatorBuilder {
    pub sections: Vec<Section>,
}

proof fn lemma_span_whole(start: int, size: int)
    requires
        start % 512 == 0,
        size % 512 == 0,
        0 <= start,
    ensures
        sectors_whole(span(start, size)),
{
}

/// Segments that hold whole sectors start and end with a sector.
proof fn lemma_segs_whole(segs: Seq<(u64, u64)>, i: int)
    requires
        segs_wf(segs),
        sectors_whole(segs_set(segs)),
        0 <= i < segs.len(),
    ensures
        segs[i].0 % 512 == 0,
        segs[i].1 % 512 == 0,
{
    let set = segs_set(segs);
    let s = segs[i].0 as int;
    let e = segs[i].0 + segs[i].1;
    assert(segs_have(segs, s));
    assert(set.contains(s));
    if s % 512 != 0 {
        assert(sector_whole(set, s));
        assert(sector_whole(set, s - 1));
        assert(set.contains(s - s % 512));
        assert((s - 1) - (s - 1) % 512 == s - s % 512);
        assert(set.contains(s - 1));
        let j = choose|j: int|
            0 <= j < segs.len() && (#[trigger] segs[j]).0 <= s - 1 < segs[j].0 + segs[j].1;
        if j < i {
            assert(segs[j].0 + segs[j].1 < segs[i].0);
        } else if j > i {
            assert(segs[i].0 + segs[i].1 < segs[j].0);
        }
    }
    if e % 512 != 0 {
        assert(segs_have(segs, e - 1));
        assert(set.contains(e - 1));
        assert(sector_whole(set, e));
        assert(sector_whole(set, e - 1));
        assert((e - 1) - (e - 1) % 512 == e - e % 512);
        assert(set.contains(e));
        let j = choose|j: int|
            0 <= j < segs.len() && (#[trigger] segs[j]).0 <= e < segs[j].0 + segs[j].1;
        if j < i {
            assert(segs[j].0 + segs[j].1 < segs[i].0);
        } else if j > i {
            assert(segs[i].0 + segs[i].1 < segs[j].0);
        }
    }
}

/// The section that an extent is a part of.
pub open spec fn is_home(s: Seq<Section>, e: Extent, i: int) -> bool {
    0 <= i < s.len() && s[i].extent.spec_contains(e)
}

/// Finds the section that an extent is a part of.
fn find_home(sections: &Vec<Section>, extent: &Extent) -> (r: usize)
    requires
        sections_wf(sections@),
        extent_ok(*extent),
        exists|i: int| is_home(sections@, *extent, i),
    ensures
        is_home(sections@, *extent, r as int),
        forall|i: int| #[trigger] is_home(sections@, *extent, i) ==> i == r,
{
    let ghost home = choose|i: int| is_home(sections@, *extent, i);
    let mut i: usize = 0;
    while i < sections.len() && sections[i].extent.location.raw <= extent.location.raw
        invariant
            i <= sections@.len(),
            sections_wf(sections@),
            is_home(sections@, *extent, home),
            forall|k: int|
                0 <= k < i ==> (#[trigger] sections@[k]).extent.location.raw
                    <= extent.location.raw,
        decreases sections@.len() - i,
    {
        i += 1;
    }
    proof {
        let s = sections@;
        let h = s[home].extent;
        crate::base_types::law_location_order(extent.location, h.location);
        assert(h.location.raw <= extent.location.raw);
        if home >= i {
            if home > i {
                assert(s[i as int].extent.location.raw < s[home].extent.location.raw);
            }
            assert(false);
        }
        if home < i - 1 {
            let last = s[i - 1].extent;
            assert(last.location.raw <= extent.location.raw);
            assert(h.location.raw < last.location.raw);
            crate::base_types::law_location_order(h.location, last.location);
            crate::base_types::law_location_order(extent.location, last.location);
            assert(!h.overlaps(last));
            assert(false);
        }
        assert forall|k: int| #[trigger] is_home(s, *extent, k) implies k == home by {
            if k < home {
                assert(!s[k].extent.overlaps(s[home].extent));
            } else if home < k {
                assert(!s[home].extent.overlaps(s[k].extent));
            }
        }
    }
    i - 1
}

/// The sum of what can be allocated.
pub open spec fn space_of(s: Seq<Section>) -> int
    decreases s.len(),
{
    if s.len() == 0 {
        0
    } else {
        space_of(s.drop_last()) + total_size(s.last().allocatable.segs@)
    }
}

proof fn lemma_space(s: Seq<Section>, n: int)
    requires
        0 <= n <= s.len(),
        forall|i: int| 0 <= i < s.len() ==> (#[trigger] s[i]).allocatable.wf(),
    ensures
        0 <= space_of(s.take(n)) <= space_of(s),
    decreases s.len(),
{
    if n == s.len() {
        assert(s.take(n) =~= s);
        if n > 0 {
            lemma_space(s.drop_last(), n - 1);
            assert(s[n - 1].allocatable.wf());
        }
    } else {
        lemma_space(s.drop_last(), n);
        assert(s.drop_last().take(n) =~= s.take(n));
        assert(s.last().allocatable.wf());
    }
}

fn sum_space(sections: &Vec<Section>) -> (r: u64)
    requires
        sections_wf(sections@),
        space_of(sections@) <= u64::MAX,
    ensures
        r == space_of(sections@),
{
    let mut total: u64 = 0;
    let mut i: usize = 0;
    assert(sections@.take(0) =~= Seq::<Section>::empty());
    while i < sections.len()
        invariant
            i <= sections@.len(),
            sections_wf(sections@),
            space_of(sections@) <= u64::MAX,
            total == space_of(sections@.take(i as int)),
        decreases sections@.len() - i,
    {
        proof {
            lemma_space(sections@, i + 1);
            assert(sections@.take(i + 1).drop_last() =~= sections@.take(i as int));
        }
        total = total + sections[i].allocatable.space();
        i += 1;
    }
    assert(sections@.take(i as int) =~= sections@);
    total
}

/// The same sections, with one that has changed.
pub open spec fn only_changed(a: Seq<Section>, b: Seq<Section>, i: int) -> bool {
    &&& a.len() == b.len()
    &&& 0 <= i < a.len()
    &&& b[i].extent == a[i].extent
    &&& forall|j: int| 0 <= j < a.len() && j != i ==> #[trigger] b[j] == a[j]
}

proof fn lemma_only_changed(a: Seq<Section>, b: Seq<Section>, i: int)
    requires
        sections_wf(a),
        only_changed(a, b, i),
        b[i].wf(),
    ensures
        sections_wf(b),
{
    assert forall|x: int, y: int| 0 <= x < y < b.len() implies {
        &&& (#[trigger] b[x]).extent.location.raw < (#[trigger] b[y]).extent.location.raw
        &&& !b[x].extent.overlaps(b[y].extent)
    } by {
        assert(b[x].extent == a[x].extent);
        assert(b[y].extent == a[y].extent);
    }
}

impl ExtentAllocatorBuilder {
    pub open spec fn wf(&self) -> bool {
        &&& sections_wf(self.sections@)
        &&& forall|i: int| 0 <= i < self.sections@.len() ==> (#[trigger] self.sections@[i]).freeing@
            == Set::<int>::empty()
    }

    /// Whether the byte can be allocated.
    pub open spec fn free_at(&self, disk: int, o: int) -> bool {
        byte_free(self.sections@, disk, o)
    }

    /// All of the capacity can be allocated. Its extents do not overlap.
    pub fn new(phys: &ExtentAllocatorPhys) -> (r: Self)
        requires
            forall|i: int| 0 <= i < phys.capacity@.len() ==> extent_ok(#[trigger] phys.capacity@[i]),
            forall|i: int, j: int|
                0 <= i < j < phys.capacity@.len() ==> !(#[trigger] phys.capacity@[i]).overlaps(
                    #[trigger] phys.capacity@[j],
                ),
        ensures
            r.wf(),
            r.sections@.len() == phys.capacity@.len(),
            forall|i: int|
                0 <= i < r.sections@.len() ==> {
                    &&& phys.capacity@.contains((#[trigger] r.sections@[i]).extent)
                    &&& r.sections@[i].allocatable@ == span(
                        r.sections@[i].extent.start(),
                        r.sections@[i].extent.size as int,
                    )
                },
            forall|e: Extent|
                #[trigger] phys.capacity@.contains(e) ==> exists|i: int|
                    0 <= i < r.sections@.len() && (#[trigger] r.sections@[i]).extent == e,
    {
        let mut sections: Vec<Section> = Vec::new();
        let mut i: usize = 0;
        while i < phys.capacity.len()
            invariant
                i <= phys.capacity@.len(),
                forall|k: int|
                    0 <= k < phys.capacity@.len() ==> extent_ok(#[trigger] phys.capacity@[k]),
                forall|k: int, l: int|
                    0 <= k < l < phys.capacity@.len() ==> !(
                    #[trigger] phys.capacity@[k]).overlaps(#[trigger] phys.capacity@[l]),
                sections@.len() == i,
                sections_wf(sections@),
                forall|k: int|
                    0 <= k < i ==> {
                        &&& phys.capacity@.take(i as int).contains(
                            (#[trigger] sections@[k]).extent,
                        )
                        &&& is_fresh(sections@[k])
                    },
                forall|k: int|
                    0 <= k < i ==> exists|l: int|
                        0 <= l < i && (#[trigger] sections@[l]).extent
                            == #[trigger] phys.capacity@[k],
            decreases phys.capacity@.len() - i,
        {
            let extent = phys.capacity[i];
            let ghost s0 = sections@;
            let ghost c = phys.capacity@;
            let mut allocatable = RangeTree::new();
            proof {
                assert(extent_ok(c[i as int]));
                lemma_span_whole(extent.start(), extent.size as int);
            }
            allocatable.add(extent.location.offset(), extent.size);
            proof {
                assert(allocatable@ =~= span(extent.start(), extent.size as int));
            }
            let section = Section { extent, allocatable, freeing: RangeTree::new() };
            let mut at: usize = 0;
            while at < sections.len() && sections[at].extent.location.raw < extent.location.raw
                invariant
                    at <= sections@.len(),
                    sections@ == s0,
                    forall|k: int|
                        0 <= k < at ==> (#[trigger] s0[k]).extent.location.raw
                            < extent.location.raw,
                decreases sections@.len() - at,
            {
                at += 1;
            }
            sections.insert(at, section);
            proof {
                let s1 = sections@;
                assert(s1 =~= s0.insert(at as int, section));
                assert forall|k: int| 0 <= k < i implies !(#[trigger] s0[k]).extent.overlaps(
                    extent,
                ) && s0[k].extent.location.raw != extent.location.raw by {
                    let m = choose|m: int|
                        0 <= m < c.take(i as int).len() && c.take(i as int)[m] == s0[k].extent;
                    assert(c[m] == s0[k].extent);
                    assert(!c[m].overlaps(c[i as int]));
                    assert(extent_ok(c[m]));
                    crate::base_types::law_location_order(c[m].location, extent.location);
                }
                assert forall|k: int| at <= k < i implies (#[trigger] s0[k]).extent.location.raw
                    > extent.location.raw by {
                    if k > at {
                        assert(s0[at as int].extent.location.raw < s0[k].extent.location.raw);
                    }
                }
                assert forall|k: int| 0 <= k < i + 1 implies {
                    &&& c.take(i + 1).contains((#[trigger] s1[k]).extent)
                    &&& is_fresh(s1[k])
                    &&& s1[k].wf()
                } by {
                    if k == at {
                        assert(c.take(i + 1)[i as int] == extent);
                    } else {
                        let k0 = if k < at { k } else { k - 1 };
                        assert(s1[k] == s0[k0]);
                        let m = choose|m: int|
                            0 <= m < c.take(i as int).len() && c.take(i as int)[m]
                                == s0[k0].extent;
                        assert(c.take(i + 1)[m] == s0[k0].extent);
                    }
                }
                assert forall|x: int, y: int| 0 <= x < y < s1.len() implies {
                    &&& (#[trigger] s1[x]).extent.location.raw < (
                    #[trigger] s1[y]).extent.location.raw
                    &&& !s1[x].extent.overlaps(s1[y].extent)
                } by {
                    let x0 = if x < at { x } else { x - 1 };
                    let y0 = if y < at { y } else { y - 1 };
                    if x != at {
                        assert(s1[x] == s0[x0]);
                    }
                    if y != at {
                        assert(s1[y] == s0[y0]);
                    }
                    if x != at && y != at {
                        assert(s0[x0].extent.location.raw < s0[y0].extent.location.raw);
                    }
                }
                assert forall|k: int| 0 <= k < i + 1 implies exists|l: int|
                    0 <= l < i + 1 && (#[trigger] s1[l]).extent == #[trigger] c[k] by {
                    if k == i {
                        assert(s1[at as int].extent == c[k]);
                    } else {
                        let l = choose|l: int| 0 <= l < i && (#[trigger] s0[l]).extent == c[k];
                        let l1 = if l < at { l } else { l + 1 };
                        assert(s1[l1] == s0[l]);
                    }
                }
            }
            i += 1;
        }
        proof {
            let c = phys.capacity@;
            assert(c.take(i as int) =~= c);
            assert forall|e: Extent| #[trigger] c.contains(e) implies exists|k: int|
                0 <= k < sections@.len() && (#[trigger] sections@[k]).extent == e by {
                let m = choose|m: int| 0 <= m < c.len() && c[m] == e;
                assert(c[m] == e);
            }
        }
        ExtentAllocatorBuilder { sections }
    }

    /// Marks an extent as used. All of it must be allocatable.
    pub fn claim(&mut self, extent: &Extent)
        requires
            old(self).wf(),
            extent_ok(*extent),
            exists|i: int| is_home(old(self).sections@, *extent, i),
            forall|o: int|
                extent.start() <= o < extent.end() ==> #[trigger] old(self).free_at(
                    extent.disk_no(),
                    o,
                ),
        ensures
            final(self).wf(),
            final(self).sections@.len() == old(self).sections@.len(),
            exists|i: int|
                {
                    &&& #[trigger] is_home(old(self).sections@, *extent, i)
                    &&& only_changed(old(self).sections@, final(self).sections@, i)
                    &&& final(self).sections@[i].allocatable@
                        == old(self).sections@[i].allocatable@.difference(
                        span(extent.start(), extent.size as int),
                    )
                    &&& final(self).sections@[i].freeing@ == old(self).sections@[i].freeing@
                },
            space_of(final(self).sections@) == space_of(old(self).sections@) - extent.size,
    {
        proof {
            assert forall|o: int| extent.start() <= o < extent.end() implies #[trigger] byte_free(
                self.sections@,
                extent.disk_no(),
                o,
            ) by {
                assert(self.free_at(extent.disk_no(), o));
            }
        }
        let ghost s = self.sections@;
        let home = take(&mut self.sections, extent);
        proof {
            assert(is_home(s, *extent, home@));
        }
    }

    pub fn allocatable_bytes(&self) -> (r: u64)
        requires
            self.wf(),
            space_of(self.sections@) <= u64::MAX,
        ensures
            r == space_of(self.sections@),
    {
        sum_space(&self.sections)
    }
}

/// Whether the byte can be allocated.
pub open spec fn byte_free(s: Seq<Section>, disk: int, o: int) -> bool {
    exists|i: int|
        0 <= i < s.len() && (#[trigger] s[i]).extent.disk_no() == disk && s[i].allocatable@.contains(
            o,
        )
}

/// Takes an extent out of what can be allocated.
fn take(sections: &mut Vec<Section>, extent: &Extent) -> (home: Ghost<int>)
    requires
        sections_wf(old(sections)@),
        extent_ok(*extent),
        exists|i: int| is_home(old(sections)@, *extent, i),
        forall|o: int|
            extent.start() <= o < extent.end() ==> #[trigger] byte_free(
                old(sections)@,
                extent.disk_no(),
                o,
            ),
    ensures
        sections_wf(final(sections)@),
        is_home(old(sections)@, *extent, home@),
        only_changed(old(sections)@, final(sections)@, home@),
        final(sections)@[home@].allocatable@ == old(sections)@[home@].allocatable@.difference(
            span(extent.start(), extent.size as int),
        ),
        final(sections)@[home@].freeing == old(sections)@[home@].freeing,
        space_of(final(sections)@) == space_of(old(sections)@) - extent.size,
{
    let i = find_home(sections, extent);
    let ghost s0 = sections@;
    proof {
        let set = s0[i as int].allocatable@;
        assert forall|o: int| extent.start() <= o < extent.end() implies segs_have(
            s0[i as int].allocatable.segs@,
            o,
        ) by {
            assert(byte_free(s0, extent.disk_no(), o));
            let k = choose|k: int|
                0 <= k < s0.len() && (#[trigger] s0[k]).extent.disk_no() == extent.disk_no()
                    && s0[k].allocatable@.contains(o);
            assert(s0[k].wf());
            assert(span(s0[k].extent.start(), s0[k].extent.size as int).contains(o));
            if k < i {
                assert(!s0[k].extent.overlaps(s0[i as int].extent));
            } else if i < k {
                assert(!s0[i as int].extent.overlaps(s0[k].extent));
            }
            assert(set.contains(o));
        }
        assert(s0[i as int].wf());
        lemma_span_whole(extent.start(), extent.size as int);
    }
    sections[i].allocatable.remove(extent.location.offset(), extent.size);
    proof {
        let s1 = sections@;
        assert(only_changed(s0, s1, i as int));
        let a = s0[i as int].allocatable@;
        let b = s1[i as int].allocatable@;
        assert forall|o: int| 0 <= o implies #[trigger] sector_whole(b, o) by {
            assert(sector_whole(a, o));
            assert(sector_whole(span(extent.start(), extent.size as int), o));
        }
        assert(s1[i as int].wf());
        lemma_only_changed(s0, s1, i as int);
        lemma_space_changed(s0, s1, i as int);
    }
    Ghost(i as int)
}

proof fn lemma_space_changed(a: Seq<Section>, b: Seq<Section>, i: int)
    requires
        only_changed(a, b, i),
    ensures
        space_of(b) == space_of(a) + total_size(b[i].allocatable.segs@) - total_size(
            a[i].allocatable.segs@,
        ),
    decreases a.len(),
{
    if i == a.len() - 1 {
        assert(a.drop_last() =~= b.drop_last());
    } else {
        assert(only_changed(a.drop_last(), b.drop_last(), i));
        lemma_space_changed(a.drop_last(), b.drop_last(), i);
    }
}

/// How much is allocated at most of a section of the given size: `most`, but not more than a
/// 128th of the section, and at least what is asked for.
pub open spec fn alloc_limit(min_size: int, section_size: int, most: int) -> int {
    let part = section_size / 128 - (section_size / 128) % 4096;
    let capped = if part < most {
        part
    } else {
        most
    };
    if min_size < capped {
        capped
    } else {
        min_size
    }
}

/// The best extent so far, after the segments of a section from the `j`-th on: a segment in which
/// the request fits is better if it is larger than what was found, and the search ends with one
/// that is as large as can be used.
pub open spec fn best_in(
    section: Extent,
    segs: Seq<(u64, u64)>,
    j: int,
    min_size: int,
    best: Option<Extent>,
    most: int,
) -> Option<Extent>
    decreases segs.len() - j,
{
    if j < 0 || j >= segs.len() {
        best
    } else {
        let seg = segs[j];
        let limit = alloc_limit(min_size, section.size as int, most);
        let found = match best {
            Some(e) => e.size as int,
            None => 0,
        };
        if seg.1 >= min_size && seg.1 > found {
            let size = if seg.1 < limit {
                seg.1 as int
            } else {
                limit
            };
            let better = Some(Extent::at(section.disk_no(), seg.0 as int, size));
            if seg.1 >= limit {
                better
            } else {
                best_in(section, segs, j + 1, min_size, better, most)
            }
        } else {
            best_in(section, segs, j + 1, min_size, best, most)
        }
    }
}

/// The best extent after `n` sections, from the one at `first` on and around.
pub open spec fn best_of(
    s: Seq<Section>,
    first: int,
    n: int,
    min_size: int,
    most: int,
) -> Option<Extent>
    decreases n,
{
    if n <= 0 {
        None
    } else {
        let i = (first + n - 1) % s.len() as int;
        best_in(
            s[i].extent,
            s[i].allocatable.segs@,
            0,
            min_size,
            best_of(s, first, n - 1, min_size, most),
            most,
        )
    }
}

/// The first section that is not before the location; the first of all if there is none.
pub open spec fn first_from(s: Seq<Section>, raw: u64) -> int
    decreases s.len(),
{
    if s.len() == 0 || s.last().extent.location.raw < raw {
        0
    } else {
        // the last one qualifies; look whether an earlier one does
        let f = first_from(s.drop_last(), raw);
        if s.len() > 1 && s[s.len() - 2].extent.location.raw >= raw {
            f
        } else {
            s.len() - 1
        }
    }
}

/// What an extent that was found looks like: a part of a free segment.
pub open spec fn is_candidate(s: Seq<Section>, min_size: int, e: Extent) -> bool {
    exists|i: int, j: int| #[trigger] candidate_at(s, min_size, e, i, j)
}

pub open spec fn candidate_at(s: Seq<Section>, min_size: int, e: Extent, i: int, j: int) -> bool {
    &&& 0 <= i < s.len()
    &&& 0 <= j < s[i].allocatable.segs@.len()
    &&& e.wf()
    &&& e.disk_no() == s[i].extent.disk_no()
    &&& e.start() == s[i].allocatable.segs@[j].0
    &&& min_size <= e.size <= s[i].allocatable.segs@[j].1
    &&& e.size % 512 == 0
}

/// Whether there is a free segment of at least `min_size`.
pub open spec fn has_segment(s: Seq<Section>, min_size: int) -> bool {
    exists|i: int, j: int| #[trigger] segment_over(s, min_size, i, j)
}

pub open spec fn segment_over(s: Seq<Section>, min_size: int, i: int, j: int) -> bool {
    0 <= i < s.len() && 0 <= j < s[i].allocatable.segs@.len() && s[i].allocatable.segs@[j].1
        >= min_size
}

#[verifier::spinoff_prover]
proof fn lemma_limit(min_size: int, section_size: int, most: int)
    requires
        min_size > 0,
        min_size % 512 == 0,
        section_size >= 0,
        most >= 0,
        most % 512 == 0,
    ensures
        alloc_limit(min_size, section_size, most) >= min_size,
        alloc_limit(min_size, section_size, most) % 512 == 0,
        alloc_limit(min_size, section_size, most) <= if min_size > most {
            min_size
        } else {
            most
        },
{
    let x = section_size / 128;
    let q = x / 4096;
    assert(x - x % 4096 == 4096 * q);
    assert((4096 * q) % 512 == 0);
}

/// The best extent is a part of a free segment, and there is one if one was found already or a
/// segment that is left is large enough.
proof fn lemma_best_in(
    s: Seq<Section>,
    i: int,
    j: int,
    min_size: int,
    best: Option<Extent>,
    most: int,
)
    requires
        most >= 0,
        most % 512 == 0,
        sections_wf(s),
        0 <= i < s.len(),
        0 <= j <= s[i].allocatable.segs@.len(),
        min_size > 0,
        min_size % 512 == 0,
        best matches Some(e) ==> is_candidate(s, min_size, e),
    ensures
        ({
            let r = best_in(s[i].extent, s[i].allocatable.segs@, j, min_size, best, most);
            &&& r matches Some(e) ==> is_candidate(s, min_size, e)
            &&& best is Some ==> r is Some
            &&& (exists|k: int| j <= k && segment_over(s, min_size, i, k)) ==> r is Some
        }),
    decreases s[i].allocatable.segs@.len() - j,
{
    let segs = s[i].allocatable.segs@;
    let x = s[i].extent;
    let r = best_in(x, segs, j, min_size, best, most);
    if j < segs.len() {
        let seg = segs[j];
        let limit = alloc_limit(min_size, x.size as int, most);
        lemma_limit(min_size, x.size as int, most);
        assert(s[i].wf());
        assert(s[i].allocatable@ =~= segs_set(segs));
        lemma_segs_whole(segs, j);
        let found = match best {
            Some(e) => e.size as int,
            None => 0,
        };
        if seg.1 >= min_size && seg.1 > found {
            let size = if seg.1 < limit {
                seg.1 as int
            } else {
                limit
            };
            crate::base_types::law_location_round_trip(x.disk_no(), seg.0 as int);
            let e = Extent::at(x.disk_no(), seg.0 as int, size);
            assert(candidate_at(s, min_size, e, i, j));
            if seg.1 < limit {
                lemma_best_in(s, i, j + 1, min_size, Some(e), most);
            }
        } else {
            lemma_best_in(s, i, j + 1, min_size, best, most);
            if best is None {
                assert forall|k: int|
                    j <= k && segment_over(s, min_size, i, k) implies j + 1 <= k by {
                    if k == j {
                        assert(seg.1 >= min_size);
                    }
                }
            }
        }
    }
}

proof fn lemma_best_of(s: Seq<Section>, first: int, n: int, min_size: int, most: int)
    requires
        most >= 0,
        most % 512 == 0,
        sections_wf(s),
        0 <= first < s.len(),
        0 <= n <= s.len(),
        min_size > 0,
        min_size % 512 == 0,
    ensures
        best_of(s, first, n, min_size, most) matches Some(e) ==> is_candidate(s, min_size, e),
        best_of(s, first, n, min_size, most) is None ==> forall|m: int, k: int|
            0 <= m < n ==> !#[trigger] segment_over(s, min_size, (first + m) % s.len() as int, k),
    decreases n,
{
    if n > 0 {
        lemma_best_of(s, first, n - 1, min_size, most);
        let i = (first + n - 1) % s.len() as int;
        lemma_best_in(s, i, 0, min_size, best_of(s, first, n - 1, min_size, most), most);
        if best_of(s, first, n, min_size, most) is None {
            assert forall|m: int, k: int| 0 <= m < n implies !#[trigger] segment_over(
                s,
                min_size,
                (first + m) % s.len() as int,
                k,
            ) by {
                if m == n - 1 && segment_over(s, min_size, i, k) {
                    assert(0 <= k && segment_over(s, min_size, i, k));
                }
            }
        }
    }
}

/// A search finds an extent exactly if there is a free segment at least as large as asked for,
/// and what it finds is at least as large, and free.
pub proof fn law_search_finds(s: Seq<Section>, first: int, min_size: int, most: int)
    requires
        sections_wf(s),
        0 <= first < s.len(),
        min_size > 0,
        min_size % 512 == 0,
        most >= 0,
        most % 512 == 0,
    ensures
        has_segment(s, min_size) <==> best_of(s, first, s.len() as int, min_size, most) is Some,
        best_of(s, first, s.len() as int, min_size, most) matches Some(e) ==> {
            &&& extent_ok(e)
            &&& e.size >= min_size
            &&& forall|o: int|
                e.start() <= o < e.end() ==> #[trigger] byte_free(s, e.disk_no(), o)
            &&& exists|i: int| is_home(s, e, i)
        },
{
    let n = s.len() as int;
    lemma_best_of(s, first, n, min_size, most);
    if has_segment(s, min_size) && best_of(s, first, n, min_size, most) is None {
        let (i, j) = choose|i: int, j: int| #[trigger] segment_over(s, min_size, i, j);
        let m = if i >= first {
            i - first
        } else {
            i - first + n
        };
        if i >= first {
            vstd::arithmetic::div_mod::lemma_small_mod((first + m) as nat, n as nat);
        } else {
            vstd::arithmetic::div_mod::lemma_mod_add_multiples_vanish(i, n);
            vstd::arithmetic::div_mod::lemma_small_mod(i as nat, n as nat);
        }
        assert((first + m) % n == i);
        assert(!segment_over(s, min_size, (first + m) % n, j));
        assert(false);
    }
    if let Some(e) = best_of(s, first, n, min_size, most) {
        let (i, j) = choose|i: int, j: int| #[trigger] candidate_at(s, min_size, e, i, j);
        assert(segment_over(s, min_size, i, j));
        let segs = s[i].allocatable.segs@;
        assert(s[i].wf());
        assert forall|o: int| e.start() <= o < e.end() implies #[trigger] byte_free(
            s,
            e.disk_no(),
            o,
        ) by {
            assert(segs_have(segs, o));
            assert(s[i].allocatable@.contains(o));
        }
        assert(segs_have(segs, e.start()));
        assert(segs_have(segs, e.end() - 1));
        assert(s[i].allocatable@.contains(e.start()));
        assert(s[i].allocatable@.contains(e.end() - 1));
        assert(span(s[i].extent.start(), s[i].extent.size as int).contains(e.start()));
        assert(span(s[i].extent.start(), s[i].extent.size as int).contains(e.end() - 1));
        assert(is_home(s, e, i));
    }
}

proof fn lemma_first_from(s: Seq<Section>, raw: u64, f: int)
    requires
        sections_wf(s),
        0 <= f <= s.len(),
        forall|k: int| 0 <= k < f ==> (#[trigger] s[k]).extent.location.raw < raw,
        f < s.len() ==> s[f].extent.location.raw >= raw,
    ensures
        first_from(s, raw) == if f < s.len() {
            f
        } else {
            0
        },
    decreases s.len(),
{
    if f < s.len() {
        if f < s.len() - 1 {
            assert(s[f].extent.location.raw < s.last().extent.location.raw);
            let t = s.drop_last();
            assert(sections_wf(t)) by {
                assert forall|i: int| 0 <= i < t.len() implies (#[trigger] t[i]).wf() by {
                    assert(s[i].wf());
                }
                assert forall|i: int, j: int| 0 <= i < j < t.len() implies {
                    &&& (#[trigger] t[i]).extent.location.raw < (
                    #[trigger] t[j]).extent.location.raw
                    &&& !t[i].extent.overlaps(t[j].extent)
                } by {
                    assert(s[i].extent.location.raw < s[j].extent.location.raw);
                }
            }
            lemma_first_from(t, raw, f);
            if f < s.len() - 2 {
                assert(s[f].extent.location.raw < s[s.len() - 2].extent.location.raw);
            }
        } else if s.len() > 1 {
            assert(s[s.len() - 2].extent.location.raw < raw);
        }
    }
}

fn find_first(sections: &Vec<Section>, raw: u64) -> (r: usize)
    requires
        sections_wf(sections@),
        sections@.len() > 0,
    ensures
        r == first_from(sections@, raw),
        r < sections@.len(),
{
    let mut i: usize = 0;
    while i < sections.len() && sections[i].extent.location.raw < raw
        invariant
            i <= sections@.len(),
            forall|k: int| 0 <= k < i ==> (#[trigger] sections@[k]).extent.location.raw < raw,
        decreases sections@.len() - i,
    {
        i += 1;
    }
    proof {
        lemma_first_from(sections@, raw, i as int);
    }
    if i == sections.len() {
        0
    } else {
        i
    }
}

impl ExtentAllocator {
    pub open spec fn wf(&self) -> bool {
        &&& sections_wf(self.sections@)
        &&& self.sections@.len() > 0
    }

    /// Whether the byte can be allocated.
    pub open spec fn free_at(&self, disk: int, o: int) -> bool {
        byte_free(self.sections@, disk, o)
    }

    /// Since the on-disk representation doesn't indicate which extents are allocated, they must
    /// all be claimed first.
    pub fn open(builder: ExtentAllocatorBuilder) -> (r: ExtentAllocator)
        requires
            builder.wf(),
            builder.sections@.len() > 0,
        ensures
            r.wf(),
            r.sections == builder.sections,
            r.next == builder.sections@[0].extent,
    {
        let next = builder.sections[0].extent;
        ExtentAllocator { sections: builder.sections, next }
    }

    pub fn get_phys(&self) -> (r: ExtentAllocatorPhys)
        ensures
            r.capacity@.len() == self.sections@.len(),
            forall|i: int|
                0 <= i < r.capacity@.len() ==> #[trigger] r.capacity@[i]
                    == self.sections@[i].extent,
    {
        let mut capacity: Vec<Extent> = Vec::new();
        let mut i: usize = 0;
        while i < self.sections.len()
            invariant
                i <= self.sections@.len(),
                capacity@.len() == i,
                forall|k: int|
                    0 <= k < i ==> #[trigger] capacity@[k] == self.sections@[k].extent,
            decreases self.sections@.len() - i,
        {
            capacity.push(self.sections[i].extent);
            i += 1;
        }
        ExtentAllocatorPhys { capacity }
    }

    pub fn allocatable_bytes(&self) -> (r: u64)
        requires
            self.wf(),
            space_of(self.sections@) <= u64::MAX,
        ensures
            r == space_of(self.sections@),
    {
        sum_space(&self.sections)
    }

    /// Space freed during this checkpoint is now available for reallocation.
    pub fn checkpoint_done(&mut self)
        requires
            old(self).wf(),
        ensures
            final(self).wf(),
            final(self).next == old(self).next,
            final(self).sections@.len() == old(self).sections@.len(),
            forall|i: int|
                0 <= i < final(self).sections@.len() ==> {
                    &&& (#[trigger] final(self).sections@[i]).extent
                        == old(self).sections@[i].extent
                    &&& final(self).sections@[i].allocatable@
                        == old(self).sections@[i].allocatable@.union(
                        old(self).sections@[i].freeing@,
                    )
                    &&& final(self).sections@[i].freeing@ == Set::<int>::empty()
                },
    {
        let ghost s0 = self.sections@;
        let mut i: usize = 0;
        while i < self.sections.len()
            invariant
                i <= self.sections@.len(),
                sections_wf(s0),
                self.next == old(self).next,
                self.sections@.len() == s0.len(),
                forall|k: int|
                    0 <= k < i ==> {
                        &&& (#[trigger] self.sections@[k]).wf()
                        &&& self.sections@[k].extent == s0[k].extent
                        &&& self.sections@[k].allocatable@ == s0[k].allocatable@.union(
                            s0[k].freeing@,
                        )
                        &&& self.sections@[k].freeing@ == Set::<int>::empty()
                    },
                forall|k: int| i <= k < s0.len() ==> #[trigger] self.sections@[k] == s0[k],
            decreases self.sections@.len() - i,
        {
            let ghost s1 = self.sections@;
            let mut freeing = RangeTree::new();
            assert(s0[i as int].wf());
            std::mem::swap(&mut self.sections[i].freeing, &mut freeing);
            let ghost mid = self.sections@[i as int];
            proof {
                assert(mid.allocatable == s0[i as int].allocatable);
                assert(freeing == s0[i as int].freeing);
            }
            let mut j: usize = 0;
            while j < freeing.segs.len()
                invariant
                    j <= freeing.segs@.len(),
                    i < self.sections@.len(),
                    self.sections@.len() == s0.len(),
                    freeing == s0[i as int].freeing,
                    s0[i as int].wf(),
                    self.next == old(self).next,
                    forall|k: int| 0 <= k < s0.len() && k != i ==> #[trigger] self.sections@[k]
                        == s1[k],
                    self.sections@[i as int].extent == s0[i as int].extent,
                    self.sections@[i as int].freeing.wf(),
                    self.sections@[i as int].freeing@ == Set::<int>::empty(),
                    self.sections@[i as int].allocatable.wf(),
                    self.sections@[i as int].allocatable@ == s0[i as int].allocatable@.union(
                        segs_set(freeing.segs@.take(j as int)),
                    ),
                decreases freeing.segs@.len() - j,
            {
                let (start, size) = freeing.segs[j];
                let ghost a = self.sections@[i as int].allocatable@;
                proof {
                    let segs = freeing.segs@;
                    assert(segs[j as int].1 > 0);
                    assert forall|o: int| start <= o < start + size implies !segs_have(
                        self.sections@[i as int].allocatable.segs@,
                        o,
                    ) by {
                        assert(segs_have(segs, o));
                        assert(s0[i as int].freeing@.contains(o));
                        assert(!s0[i as int].allocatable@.contains(o));
                        if segs_have(segs.take(j as int), o) {
                            let k = choose|k: int|
                                0 <= k < j && (#[trigger] segs.take(j as int)[k]).0 <= o
                                    < segs.take(j as int)[k].0 + segs.take(j as int)[k].1;
                            assert(segs[k].0 + segs[k].1 < segs[j as int].0);
                        }
                        assert(!a.contains(o));
                    }
                }
                self.sections[i].allocatable.add(start, size);
                proof {
                    let segs = freeing.segs@;
                    assert forall|o: int| segs_have(segs.take(j + 1), o) <==> segs_have(
                        segs.take(j as int),
                        o,
                    ) || start <= o < start + size by {
                        if segs_have(segs.take(j + 1), o) {
                            let k = choose|k: int|
                                0 <= k < j + 1 && (#[trigger] segs.take(j + 1)[k]).0 <= o
                                    < segs.take(j + 1)[k].0 + segs.take(j + 1)[k].1;
                            if k < j {
                                assert(segs.take(j as int)[k] == segs.take(j + 1)[k]);
                            }
                        }
                        if segs_have(segs.take(j as int), o) {
                            let k = choose|k: int|
                                0 <= k < j && (#[trigger] segs.take(j as int)[k]).0 <= o
                                    < segs.take(j as int)[k].0 + segs.take(j as int)[k].1;
                            assert(segs.take(j as int)[k] == segs.take(j + 1)[k]);
                        }
                        if start <= o < start + size {
                            assert(segs.take(j + 1)[j as int] == (start, size));
                        }
                    }
                    let old_part = segs_set(segs.take(j as int));
                    let new_part = segs_set(segs.take(j + 1));
                    assert(new_part =~= old_part.union(span(start as int, size as int)));
                    let set0 = s0[i as int].allocatable@;
                    assert(set0.union(old_part).union(span(start as int, size as int))
                        =~= set0.union(new_part));
                    assert(self.sections@[i as int].allocatable@ == set0.union(new_part));
                }
                j += 1;
            }
            proof {
                assert(freeing.segs@.take(j as int) =~= freeing.segs@);
                let a = s0[i as int].allocatable@;
                let f = s0[i as int].freeing@;
                let u = self.sections@[i as int].allocatable@;
                assert(u == a.union(f));
                assert forall|o: int| 0 <= o implies #[trigger] sector_whole(u, o) by {
                    assert(sector_whole(a, o));
                    assert(sector_whole(f, o));
                }
                assert(self.sections@[i as int].wf());
            }
            i += 1;
        }
        proof {
            let s = self.sections@;
            assert forall|x: int, y: int| 0 <= x < y < s.len() implies {
                &&& (#[trigger] s[x]).extent.location.raw < (#[trigger] s[y]).extent.location.raw
                &&& !s[x].extent.overlaps(s[y].extent)
            } by {
                assert(s[x].extent == s0[x].extent);
                assert(s[y].extent == s0[y].extent);
            }
        }
    }

    /// Allocates an extent of at least the given size. There must be a free segment
    /// of that size. Where there is space, more is allocated: up to `default_extent_size`, but not
    /// more than a 128th of the section.
    pub fn allocate(&mut self, min_size: u64, default_extent_size: u64) -> (r: Extent)
        requires
            old(self).wf(),
            default_extent_size % SECTOR == 0,
            min_size > 0,
            min_size % SECTOR == 0,
            has_segment(old(self).sections@, min_size as int),
        ensures
            final(self).wf(),
            ({
                let s = old(self).sections@;
                &&& best_of(
                    s,
                    first_from(s, old(self).next.location.raw),
                    s.len() as int,
                    min_size as int,
                    default_extent_size as int,
                ) == Some(r)
                &&& extent_ok(r)
                &&& r.size >= min_size
                &&& forall|o: int|
                    r.start() <= o < r.end() ==> #[trigger] old(self).free_at(r.disk_no(), o)
                &&& exists|i: int|
                    {
                        &&& #[trigger] is_home(s, r, i)
                        &&& only_changed(s, final(self).sections@, i)
                        &&& final(self).sections@[i].allocatable@ == s[i].allocatable@.difference(
                            span(r.start(), r.size as int),
                        )
                        &&& final(self).sections@[i].freeing == s[i].freeing
                    }
                &&& final(self).next == s[(first_from(s, r.location.raw) + if s.len() > 1 {
                    1int
                } else {
                    0
                }) % s.len() as int].extent
                &&& space_of(final(self).sections@) == space_of(s) - r.size
            }),
    {
        let ghost s = self.sections@;
        let n: usize = self.sections.len();
        let first = find_first(&self.sections, self.next.location.raw);
        let mut best: Option<Extent> = None;
        let mut m: usize = 0;
        while m < n
            invariant
                m <= n,
                n == s.len(),
                s == self.sections@,
                sections_wf(s),
                first < n,
                min_size > 0,
                min_size % SECTOR == 0,
                default_extent_size % SECTOR == 0,
                best == best_of(
                    s,
                    first as int,
                    m as int,
                    min_size as int,
                    default_extent_size as int,
                ),
            decreases n - m,
        {
            let i: usize = if m < n - first {
                first + m
            } else {
                m - (n - first)
            };
            proof {
                if m < n - first {
                    vstd::arithmetic::div_mod::lemma_small_mod((first + m) as nat, n as nat);
                } else {
                    vstd::arithmetic::div_mod::lemma_mod_add_multiples_vanish(i as int, n as int);
                    vstd::arithmetic::div_mod::lemma_small_mod(i as nat, n as nat);
                }
                assert((first + (m + 1) - 1) % n as int == i);
            }
            let ghost before = best;
            let extent = self.sections[i].extent;
            let part: u64 = (extent.size / 128) - (extent.size / 128) % MAX_SECTOR_SIZE;
            let capped: u64 = if part < default_extent_size {
                part
            } else {
                default_extent_size
            };
            let limit: u64 = if min_size < capped {
                capped
            } else {
                min_size
            };
            assert(limit == alloc_limit(
                min_size as int,
                extent.size as int,
                default_extent_size as int,
            ));
            let mut j: usize = 0;
            let mut found = false;
            while j < self.sections[i].allocatable.segs.len() && !found
                invariant
                    s == self.sections@,
                    sections_wf(s),
                    i < s.len(),
                    extent == s[i as int].extent,
                    j <= s[i as int].allocatable.segs@.len(),
                    min_size > 0,
                    min_size % SECTOR == 0,
                    default_extent_size % SECTOR == 0,
                    limit == alloc_limit(
                        min_size as int,
                        extent.size as int,
                        default_extent_size as int,
                    ),
                    best_in(
                        extent,
                        s[i as int].allocatable.segs@,
                        0,
                        min_size as int,
                        before,
                        default_extent_size as int,
                    ) == if found {
                        best
                    } else {
                        best_in(
                            extent,
                            s[i as int].allocatable.segs@,
                            j as int,
                            min_size as int,
                            best,
                            default_extent_size as int,
                        )
                    },
                decreases s[i as int].allocatable.segs@.len() - j,
            {
                let (offset, size) = self.sections[i].allocatable.segs[j];
                let have: u64 = match best {
                    Some(e) => e.size,
                    None => 0,
                };
                proof {
                    assert(s[i as int].wf());
                    assert(s[i as int].allocatable@ =~= segs_set(s[i as int].allocatable.segs@));
                    lemma_segs_whole(s[i as int].allocatable.segs@, j as int);
                    lemma_limit(min_size as int, extent.size as int, default_extent_size as int);
                }
                if size >= min_size && size > have {
                    let len: u64 = if size < limit {
                        size
                    } else {
                        limit
                    };
                    best = Some(Extent::new(extent.location.disk(), offset, len));
                    if size >= limit {
                        found = true;
                    }
                }
                j += 1;
            }
            m += 1;
        }
        proof {
            law_search_finds(s, first as int, min_size as int, default_extent_size as int);
        }
        let extent = best.unwrap();
        let at = find_first(&self.sections, extent.location.raw);
        let after: usize = if n == 1 {
            at
        } else if at == n - 1 {
            0
        } else {
            at + 1
        };
        proof {
            if n == 1 || at < n - 1 {
                vstd::arithmetic::div_mod::lemma_small_mod(after as nat, n as nat);
            } else {
                vstd::arithmetic::div_mod::lemma_mod_self_0(n as int);
            }
        }
        self.next = self.sections[after].extent;
        let home = take(&mut self.sections, &extent);
        proof {
            assert(is_home(s, extent, home@));
        }
        extent
    }

    /// The extent can be a subset of what was previously allocated.
    pub fn free(&mut self, extent: &Extent)
        requires
            old(self).wf(),
            extent_ok(*extent),
            exists|i: int| is_home(old(self).sections@, *extent, i),
            forall|i: int, o: int|
                is_home(old(self).sections@, *extent, i) && extent.start() <= o < extent.end()
                    ==> !(#[trigger] old(self).sections@[i].allocatable@.contains(o)) && !(
                #[trigger] old(self).sections@[i].freeing@.contains(o)),
        ensures
            final(self).wf(),
            final(self).next == old(self).next,
            exists|i: int|
                {
                    &&& #[trigger] is_home(old(self).sections@, *extent, i)
                    &&& only_changed(old(self).sections@, final(self).sections@, i)
                    &&& final(self).sections@[i].allocatable == old(self).sections@[i].allocatable
                    &&& final(self).sections@[i].freeing@ == old(self).sections@[i].freeing@.union(
                        span(extent.start(), extent.size as int),
                    )
                },
    {
        let i = find_home(&self.sections, extent);
        let ghost s0 = self.sections@;
        proof {
            assert(s0[i as int].wf());
            lemma_span_whole(extent.start(), extent.size as int);
            assert forall|o: int| extent.start() <= o < extent.end() implies !segs_have(
                s0[i as int].freeing.segs@,
                o,
            ) by {
                assert(is_home(s0, *extent, i as int));
                let _ = s0[i as int].allocatable@.contains(o);
                assert(!s0[i as int].freeing@.contains(o));
            }
        }
        self.sections[i].freeing.add(extent.location.offset(), extent.size);
        proof {
            let s1 = self.sections@;
            let f = s0[i as int].freeing@;
            let g = s1[i as int].freeing@;
            let e = span(extent.start(), extent.size as int);
            assert forall|o: int| 0 <= o implies #[trigger] sector_whole(g, o) by {
                assert(sector_whole(f, o));
                assert(sector_whole(e, o));
            }
            assert forall|o: int| !(s1[i as int].allocatable@.contains(o) && #[trigger] g.contains(
                o,
            )) by {
                if e.contains(o) {
                    assert(is_home(s0, *extent, i as int));
                    let _ = s0[i as int].freeing@.contains(o);
                    assert(!s0[i as int].allocatable@.contains(o));
                }
            }
            assert(s1[i as int].wf());
            assert(only_changed(s0, s1, i as int));
            lemma_only_changed(s0, s1, i as int);
            assert(is_home(s0, *extent, i as int));
        }
    }

    /// For each disk, how much of its sections is in use and how much there is.
    pub fn zcachedb_metadata_per_disk(&self) -> (r: VecMap<(u64, u64)>)
        requires
            self.wf(),
            forall|d: int| #[trigger] total_on(self.sections@, d) <= u64::MAX,
        ensures
            forall|d: int|
                #[trigger] r@.contains_key(d) <==> exists|i: int|
                    0 <= i < self.sections@.len() && (
                    #[trigger] self.sections@[i]).extent.disk_no() == d,
            forall|d: int|
                #[trigger] r@.contains_key(d) ==> r@[d].0 == used_on(self.sections@, d) && r@[d].1
                    == total_on(self.sections@, d),
    {
        let mut map: VecMap<(u64, u64)> = VecMap::new();
        let ghost s = self.sections@;
        let mut i: usize = 0;
        while i < self.sections.len()
            invariant
                i <= s.len(),
                s == self.sections@,
                sections_wf(s),
                forall|d: int| #[trigger] total_on(s, d) <= u64::MAX,
                forall|d: int|
                    #[trigger] map@.contains_key(d) <==> exists|k: int|
                        0 <= k < i && (#[trigger] s[k]).extent.disk_no() == d,
                forall|d: int|
                    #[trigger] map@.contains_key(d) ==> map@[d].0 == used_on(s.take(i as int), d)
                        && map@[d].1 == total_on(s.take(i as int), d),
                forall|d: int|
                    !map@.contains_key(d) ==> #[trigger] used_on(s.take(i as int), d) == 0
                        && total_on(s.take(i as int), d) == 0,
            decreases s.len() - i,
        {
            let disk = self.sections[i].extent.location.disk().index();
            let total: u64 = self.sections[i].extent.size;
            let ghost m0 = map@;
            proof {
                assert(s[i as int].wf());
                lemma_on_disk(s, i as int, disk as int);
                lemma_on_disk(s, i + 1, disk as int);
                assert(s.take(i + 1).drop_last() =~= s.take(i as int));
                let _ = total_on(s, disk as int);
                lemma_section_used(s[i as int]);
                let _ = used_on(s.take(i as int), disk as int);
            }
            let used: u64 = total - self.sections[i].allocatable.space();
            let entry: (u64, u64) = match map.get(disk) {
                Some(e) => *e,
                None => (0, 0),
            };
            let _ = map.insert(disk, (entry.0 + used, entry.1 + total));
            proof {
                assert forall|d: int|
                    #[trigger] map@.contains_key(d) <==> exists|k: int|
                        0 <= k < i + 1 && (#[trigger] s[k]).extent.disk_no() == d by {
                    if d == disk {
                        assert(s[i as int].extent.disk_no() == d);
                    } else {
                        assert(map@.contains_key(d) <==> m0.contains_key(d));
                        if m0.contains_key(d) {
                            let k = choose|k: int|
                                0 <= k < i && (#[trigger] s[k]).extent.disk_no() == d;
                            assert(0 <= k < i + 1);
                        }
                    }
                }
                assert forall|d: int| #[trigger] map@.contains_key(d) implies map@[d].0 == used_on(
                    s.take(i + 1),
                    d,
                ) && map@[d].1 == total_on(s.take(i + 1), d) by {
                    let _ = used_on(s.take(i as int), d);
                    if d != disk {
                        assert(m0.contains_key(d));
                    }
                }
                assert forall|d: int| !map@.contains_key(d) implies #[trigger] used_on(
                    s.take(i + 1),
                    d,
                ) == 0 && total_on(s.take(i + 1), d) == 0 by {
                    assert(!m0.contains_key(d));
                    assert(used_on(s.take(i as int), d) == 0);
                }
            }
            i += 1;
        }
        assert(s.take(i as int) =~= s);
        map
    }
}

/// How much of the sections of a disk is in use.
pub open spec fn used_on(s: Seq<Section>, disk: int) -> int
    decreases s.len(),
{
    if s.len() == 0 {
        0
    } else {
        used_on(s.drop_last(), disk) + if s.last().extent.disk_no() == disk {
            s.last().extent.size - total_size(s.last().allocatable.segs@)
        } else {
            0
        }
    }
}

/// How much the sections of a disk are.
pub open spec fn total_on(s: Seq<Section>, disk: int) -> int
    decreases s.len(),
{
    if s.len() == 0 {
        0
    } else {
        total_on(s.drop_last(), disk) + if s.last().extent.disk_no() == disk {
            s.last().extent.size as int
        } else {
            0
        }
    }
}

proof fn lemma_section_used(s: Section)
    requires
        s.wf(),
    ensures
        0 <= total_size(s.allocatable.segs@) <= s.extent.size,
{
    let segs = s.allocatable.segs@;
    assert forall|i: int| 0 <= i < segs.len() implies s.extent.start() <= (#[trigger] segs[i]).0
        && segs[i].0 + segs[i].1 <= s.extent.end() by {
        assert(segs[i].1 > 0);
        assert(segs_have(segs, segs[i].0 as int));
        assert(segs_have(segs, segs[i].0 + segs[i].1 - 1));
        assert(s.allocatable@.contains(segs[i].0 as int));
        assert(s.allocatable@.contains(segs[i].0 + segs[i].1 - 1));
    }
    crate::range_tree::lemma_total_size_within(segs, s.extent.start(), s.extent.end());
}

proof fn lemma_on_disk(s: Seq<Section>, n: int, disk: int)
    requires
        sections_wf(s),
        0 <= n <= s.len(),
    ensures
        0 <= used_on(s.take(n), disk) <= total_on(s.take(n), disk) <= total_on(s, disk),
    decreases s.len(), n,
{
    if n == s.len() {
        assert(s.take(n) =~= s);
        if n > 0 {
            assert(s[n - 1].wf());
            lemma_section_used(s[n - 1]);
            lemma_on_disk(s, n - 1, disk);
            assert(s.take(n - 1) =~= s.drop_last());
        }
    } else {
        lemma_totals_prefix(s, n, disk);
        if n > 0 {
            lemma_on_disk(s, n - 1, disk);
            assert(s.take(n).drop_last() =~= s.take(n - 1));
            assert(s[n - 1].wf());
            lemma_section_used(s[n - 1]);
        }
    }
}

proof fn lemma_totals_prefix(s: Seq<Section>, n: int, disk: int)
    requires
        0 <= n <= s.len(),
    ensures
        0 <= total_on(s.take(n), disk) <= total_on(s, disk),
    decreases s.len(),
{
    if n == s.len() {
        assert(s.take(n) =~= s);
        if n > 0 {
            lemma_totals_prefix(s.drop_last(), n - 1, disk);
        }
    } else {
        lemma_totals_prefix(s.drop_last(), n, disk);
        assert(s.drop_last().take(n) =~= s.take(n));
    }
}

/// An allocation is of no more than what is asked for, unless less than that is the default, and
/// less than a part of the section, in whole pages.
pub proof fn law_limit(min_size: int, section_size: int, most: int)
    requires
        min_size > 0,
        section_size >= 0,
        most >= 0,
    ensures
        ({
            let r = alloc_limit(min_size, section_size, most);
            &&& r >= min_size
            &&& r > min_size ==> r <= most && r * 128 <= section_size
            &&& r == min_size || r == most || (r % 4096 == 0 && (r + 4096) * 128 > section_size)
            &&& most > min_size && (most + 4096) * 128 <= section_size ==> r == most
        }),
{
    let x = section_size / 128;
    assert(x * 128 <= section_size < (x + 1) * 128);
}

spec fn found_size(best: Option<Extent>) -> int {
    match best {
        Some(e) => e.size as int,
        None => 0,
    }
}

proof fn lemma_best_in_size(
    section: Extent,
    segs: Seq<(u64, u64)>,
    j: int,
    min_size: int,
    best: Option<Extent>,
    most: int,
    least: int,
)
    requires
        min_size > 0,
        most >= 0,
        0 <= j <= segs.len(),
        least <= alloc_limit(min_size, section.size as int, most),
    ensures
        ({
            let r = best_in(section, segs, j, min_size, best, most);
            &&& found_size(r) >= least || found_size(r) >= found_size(best)
            &&& forall|k: int|
                j <= k < segs.len() && (#[trigger] segs[k]).1 >= min_size ==> found_size(r)
                    >= least || found_size(r) >= segs[k].1
            &&& r == best || (r is Some && found_size(r) <= alloc_limit(
                min_size,
                section.size as int,
                most,
            ))
        }),
    decreases segs.len() - j,
{
    if j < segs.len() {
        let seg = segs[j];
        let limit = alloc_limit(min_size, section.size as int, most);
        if seg.1 >= min_size && seg.1 > found_size(best) {
            if seg.1 < limit {
                let e = Extent::at(section.disk_no(), seg.0 as int, seg.1 as int);
                lemma_best_in_size(section, segs, j + 1, min_size, Some(e), most, least);
            }
        } else {
            lemma_best_in_size(section, segs, j + 1, min_size, best, most, least);
        }
    }
}

proof fn lemma_best_of_size(
    s: Seq<Section>,
    first: int,
    n: int,
    min_size: int,
    most: int,
    least: int,
)
    requires
        min_size > 0,
        most >= 0,
        0 <= first < s.len(),
        0 <= n <= s.len(),
        forall|i: int|
            0 <= i < s.len() ==> least <= alloc_limit(
                min_size,
                (#[trigger] s[i]).extent.size as int,
                most,
            ),
    ensures
        ({
            let r = best_of(s, first, n, min_size, most);
            &&& forall|m: int, k: int|
                0 <= m < n && #[trigger] segment_over(
                    s,
                    min_size,
                    (first + m) % s.len() as int,
                    k,
                ) ==> found_size(r) >= least || found_size(r) >= s[(first + m)
                    % s.len() as int].allocatable.segs@[k].1
            &&& r is Some ==> exists|i: int|
                0 <= i < s.len() && found_size(r) <= alloc_limit(
                    min_size,
                    (#[trigger] s[i]).extent.size as int,
                    most,
                )
        }),
    decreases n,
{
    if n > 0 {
        lemma_best_of_size(s, first, n - 1, min_size, most, least);
        let i = (first + n - 1) % s.len() as int;
        let before = best_of(s, first, n - 1, min_size, most);
        let r = best_of(s, first, n, min_size, most);
        assert(least <= alloc_limit(min_size, s[i].extent.size as int, most));
        lemma_best_in_size(s[i].extent, s[i].allocatable.segs@, 0, min_size, before, most, least);
        assert forall|m: int, k: int|
            0 <= m < n && #[trigger] segment_over(
                s,
                min_size,
                (first + m) % s.len() as int,
                k,
            ) implies found_size(r) >= least || found_size(r) >= s[(first + m)
            % s.len() as int].allocatable.segs@[k].1 by {
            if m == n - 1 {
                assert(s[i].allocatable.segs@[k].1 >= min_size);
            }
        }
    }
}

/// A search takes as much as it can: what it finds is as large as any free segment, or as large
/// as an allocation may be in each of the sections. It is not larger than an allocation may be.
pub proof fn law_search_takes_most(
    s: Seq<Section>,
    first: int,
    min_size: int,
    most: int,
    least: int,
    i: int,
    j: int,
)
    requires
        min_size > 0,
        most >= 0,
        0 <= first < s.len(),
        forall|i: int|
            0 <= i < s.len() ==> least <= alloc_limit(
                min_size,
                (#[trigger] s[i]).extent.size as int,
                most,
            ),
        segment_over(s, min_size, i, j),
        best_of(s, first, s.len() as int, min_size, most) is Some,
    ensures
        ({
            let e = best_of(s, first, s.len() as int, min_size, most)->0;
            &&& e.size >= s[i].allocatable.segs@[j].1 || e.size >= least
            &&& exists|k: int|
                0 <= k < s.len() && e.size <= alloc_limit(
                    min_size,
                    (#[trigger] s[k]).extent.size as int,
                    most,
                )
        }),
{
    let n = s.len() as int;
    lemma_best_of_size(s, first, n, min_size, most, least);
    let m = if i >= first {
        i - first
    } else {
        i - first + n
    };
    assert((first + m) % n == i) by {
        if i < first {
            assert((i + n) % n == i % n) by (nonlinear_arith)
                requires
                    n > 0,
            ;
        }
        assert(i % n == i) by (nonlinear_arith)
            requires
                0 <= i < n,
        ;
    }
    assert(segment_over(s, min_size, (first + m) % s.len() as int, j));
}

/// A search starts with the first section that is not before the given place, and with the first
/// of all if there is none.
pub proof fn law_search_starts(s: Seq<Section>, raw: u64, f: int)
    requires
        sections_wf(s),
        0 <= f <= s.len(),
        forall|k: int| 0 <= k < f ==> (#[trigger] s[k]).extent.location.raw < raw,
        f < s.len() ==> s[f].extent.location.raw >= raw,
    ensures
        f < s.len() ==> first_from(s, raw) == f,
        f == s.len() ==> first_from(s, raw) == 0,
{
    lemma_first_from(s, raw, f);
}

/// The space of a disk is that of its sections, and what is used of it is what is not free.
pub proof fn law_disk_totals(s: Seq<Section>, section: Section, disk: int)
    ensures
        space_of(s.push(section)) == space_of(s) + total_size(section.allocatable.segs@),
        section.extent.disk_no() == disk ==> {
            &&& total_on(s.push(section), disk) == total_on(s, disk) + section.extent.size
            &&& used_on(s.push(section), disk) + total_size(section.allocatable.segs@)
                == used_on(s, disk) + section.extent.size
        },
        section.extent.disk_no() != disk ==> {
            &&& total_on(s.push(section), disk) == total_on(s, disk)
            &&& used_on(s.push(section), disk) == used_on(s, disk)
        },
        space_of(Seq::empty()) == 0 && total_on(Seq::empty(), disk) == 0 && used_on(
            Seq::empty(),
            disk,
        ) == 0,
{
    assert(s.push(section).drop_last() =~= s);
}

} // verus!
