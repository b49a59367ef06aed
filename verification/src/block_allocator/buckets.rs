//! The slabs from which blocks of a size are allocated.
use crate::slab_allocator::SlabId;
use vstd::prelude::*;

verus! {

/// The largest allocation that the slabs of a bucket can satisfy.
#[derive(Debug, Clone, Copy, PartialEq, Eq, Structural, PartialOrd, Ord, Hash)]
pub struct SlabBucketSize(pub u32);

/// The slabs of a bucket are ordered by allocated space, and then by number.
#[derive(Debug, Clone, Copy, PartialEq, Eq, Structural, PartialOrd, Ord)]
pub struct SlabBucketEntry {
    pub allocated_space: u64,
    pub slab_id: SlabId,
}

/// The order of the entries of a bucket.
pub open spec fn before(a: SlabBucketEntry, b: SlabBucketEntry) -> bool {
    a.allocated_space < b.allocated_space || a.allocated_space == b.allocated_space && a.slab_id.0
        < b.slab_id.0
}

fn is_before(a: &SlabBucketEntry, b: &SlabBucketEntry) -> (r: bool)
    ensures
        r == before(*a, *b),
{
    a.allocated_space < b.allocated_space || a.allocated_space == b.allocated_space && a.slab_id.0
        < b.slab_id.0
}

pub open spec fn ordered(entries: Seq<SlabBucketEntry>) -> bool {
    forall|i: int, j: int| 0 <= i < j < entries.len() ==> before(entries[i], entries[j])
}

/// Whether an entry of the slab is there.
pub open spec fn has_slab(entries: Seq<SlabBucketEntry>, id: SlabId) -> bool {
    exists|k: int| 0 <= k < entries.len() && (#[trigger] entries[k]).slab_id == id
}

/// No slab has two entries.
pub open spec fn one_each(entries: Seq<SlabBucketEntry>) -> bool {
    forall|i: int, j: int|
        0 <= i < j < entries.len() ==> (#[trigger] entries[i]).slab_id != (
        #[trigger] entries[j]).slab_id
}

/// What follows `entry`, if anything does.
pub open spec fn is_next(
    entries: Seq<SlabBucketEntry>,
    entry: SlabBucketEntry,
    next: Option<SlabBucketEntry>,
) -> bool {
    match next {
        None => forall|k: int| 0 <= k < entries.len() ==> !before(entry, #[trigger] entries[k]),
        Some(e) => {
            &&& entries.contains(e)
            &&& before(entry, e)
            &&& forall|k: int|
                0 <= k < entries.len() && before(entry, #[trigger] entries[k]) ==> !before(
                    entries[k],
                    e,
                )
        },
    }
}

/// The slabs of one bucket, those with the most free space first.
pub struct SlabBucket {
    pub is_extent_based: bool,
    pub by_freeness: Vec<SlabBucketEntry>,
    /// The slab that the next block is allocated from, if it has room.
    pub last_allocated: Option<SlabBucketEntry>,
    pub been_through_once: bool,
}

/// Where an entry belongs.
fn position(entries: &Vec<SlabBucketEntry>, entry: &SlabBucketEntry) -> (r: usize)
    requires
        ordered(entries@),
    ensures
        r <= entries@.len(),
        forall|k: int| 0 <= k < r ==> before(#[trigger] entries@[k], *entry),
        forall|k: int| r <= k < entries@.len() ==> !before(#[trigger] entries@[k], *entry),
{
    let mut i: usize = 0;
    while i < entries.len() && is_before(&entries[i], entry)
        invariant
            i <= entries@.len(),
            forall|k: int| 0 <= k < i ==> before(#[trigger] entries@[k], *entry),
        decreases entries@.len() - i,
    {
        i += 1;
    }
    proof {
        assert forall|k: int| i <= k < entries@.len() implies !before(
            #[trigger] entries@[k],
            *entry,
        ) by {
            if k > i {
                assert(before(entries@[i as int], entries@[k]));
            }
        }
    }
    i
}

/// Adds an entry, unless it is there already.
fn add_entry(entries: &mut Vec<SlabBucketEntry>, entry: SlabBucketEntry)
    requires
        ordered(old(entries)@),
    ensures
        ordered(final(entries)@),
        forall|e: SlabBucketEntry|
            #[trigger] final(entries)@.contains(e) <==> old(entries)@.contains(e) || e == entry,
        one_each(old(entries)@) && !has_slab(old(entries)@, entry.slab_id) ==> one_each(
            final(entries)@,
        ),
{
    let ghost s0 = entries@;
    let i = position(entries, &entry);
    if i < entries.len() && entries[i] == entry {
        return;
    }
    entries.insert(i, entry);
    proof {
        let s = entries@;
        assert(s =~= s0.insert(i as int, entry));
        assert forall|a: int, b: int| 0 <= a < b < s.len() implies before(s[a], s[b]) by {
            let a0 = if a > i {
                a - 1
            } else {
                a
            };
            let b0 = if b > i {
                b - 1
            } else {
                b
            };
            if a == i {
                assert(s[b] == s0[b0]);
                assert(!before(s0[b0], entry));
                if b0 > i {
                    assert(before(s0[i as int], s0[b0]));
                }
            } else if b == i {
                assert(s[a] == s0[a0]);
            } else {
                assert(before(s0[a0], s0[b0]));
            }
        }
        assert forall|e: SlabBucketEntry| #[trigger] s.contains(e) <==> s0.contains(e) || e
            == entry by {
            if s0.contains(e) {
                let k = choose|k: int| 0 <= k < s0.len() && s0[k] == e;
                assert(s[if k >= i {
                    k + 1
                } else {
                    k
                }] == e);
            }
            if e == entry {
                assert(s[i as int] == e);
            }
            if s.contains(e) && e != entry {
                let k = choose|k: int| 0 <= k < s.len() && s[k] == e;
                assert(s0[if k > i {
                    k - 1
                } else {
                    k
                }] == e);
            }
        }
        if one_each(s0) && !has_slab(s0, entry.slab_id) {
            assert forall|a: int, b: int| 0 <= a < b < s.len() implies (#[trigger] s[a]).slab_id
                != (#[trigger] s[b]).slab_id by {
                let a0 = if a > i {
                    a - 1
                } else {
                    a
                };
                let b0 = if b > i {
                    b - 1
                } else {
                    b
                };
                if a == i {
                    assert(s0[b0] == s[b]);
                } else if b == i {
                    assert(s0[a0] == s[a]);
                } else {
                    assert(s0[a0].slab_id != s0[b0].slab_id);
                }
            }
        }
    }
}

impl SlabBucket {
    pub open spec fn wf(&self) -> bool {
        &&& ordered(self.by_freeness@)
        &&& one_each(self.by_freeness@)
        &&& self.last_allocated matches Some(e) ==> self.by_freeness@.contains(e)
    }

    pub fn new(is_extent_based: bool, entries: &Vec<SlabBucketEntry>) -> (r: SlabBucket)
        requires
            one_each(entries@),
        ensures
            r.wf(),
            r.is_extent_based == is_extent_based,
            forall|e: SlabBucketEntry|
                #[trigger] r.by_freeness@.contains(e) <==> entries@.contains(e),
            r.last_allocated == if r.by_freeness@.len() > 0 {
                Some(r.by_freeness@[0])
            } else {
                None
            },
            !r.been_through_once,
    {
        let mut by_freeness: Vec<SlabBucketEntry> = Vec::new();
        let mut i: usize = 0;
        while i < entries.len()
            invariant
                i <= entries@.len(),
                one_each(entries@),
                ordered(by_freeness@),
                one_each(by_freeness@),
                forall|e: SlabBucketEntry|
                    #[trigger] by_freeness@.contains(e) <==> exists|k: int|
                        0 <= k < i && entries@[k] == e,
            decreases entries@.len() - i,
        {
            let ghost b0 = by_freeness@;
            proof {
                if has_slab(b0, entries@[i as int].slab_id) {
                    let k = choose|k: int|
                        0 <= k < b0.len() && (#[trigger] b0[k]).slab_id
                            == entries@[i as int].slab_id;
                    assert(b0.contains(b0[k]));
                    let m = choose|m: int| 0 <= m < i && entries@[m] == b0[k];
                    assert(entries@[m].slab_id != entries@[i as int].slab_id);
                }
            }
            add_entry(&mut by_freeness, entries[i]);
            i += 1;
            proof {
                assert forall|e: SlabBucketEntry| #[trigger] by_freeness@.contains(e) <==> exists|
                    k: int,
                | 0 <= k < i && entries@[k] == e by {
                    if b0.contains(e) {
                        let k = choose|k: int| 0 <= k < i - 1 && entries@[k] == e;
                        assert(entries@[k] == e);
                    }
                    if e == entries@[i - 1] {
                        assert(entries@[i - 1] == e);
                    }
                }
            }
        }
        let last_allocated = if by_freeness.len() > 0 {
            Some(by_freeness[0])
        } else {
            None
        };
        let r = SlabBucket {
            is_extent_based,
            by_freeness,
            last_allocated,
            been_through_once: false,
        };
        proof {
            assert forall|e: SlabBucketEntry| #[trigger] r.by_freeness@.contains(e) <==> entries@.contains(
                e,
            ) by {
                if entries@.contains(e) {
                    let k = choose|k: int| 0 <= k < entries@.len() && entries@[k] == e;
                    assert(0 <= k < i && entries@[k] == e);
                }
            }
        }
        r
    }

    pub open spec fn current(&self) -> Option<SlabId> {
        match self.last_allocated {
            Some(e) => Some(e.slab_id),
            None => None,
        }
    }

    pub fn get_current(&self) -> (r: Option<SlabId>)
        ensures
            r == self.current(),
    {
        match self.last_allocated {
            Some(e) => Some(e.slab_id),
            None => None,
        }
    }

    /// Moves on to the next slab. Once the end was reached, a slab that was added since is not
    /// followed by those that had no room before.
    pub fn advance(&mut self) -> (r: Option<SlabId>)
        requires
            ordered(old(self).by_freeness@),
        ensures
            final(self).is_extent_based == old(self).is_extent_based,
            final(self).by_freeness == old(self).by_freeness,
            if old(self).been_through_once || old(self).last_allocated is None {
                final(self).last_allocated is None
            } else {
                is_next(
                    old(self).by_freeness@,
                    old(self).last_allocated->0,
                    final(self).last_allocated,
                )
            },
            final(self).been_through_once == (old(self).been_through_once || final(self).last_allocated is None),
            r == final(self).current(),
            old(self).wf() ==> final(self).wf(),
    {
        if self.been_through_once {
            self.last_allocated = None;
        }
        if let Some(last) = self.last_allocated {
            let mut i = position(&self.by_freeness, &last);
            let ghost s = self.by_freeness@;
            if i < self.by_freeness.len() && self.by_freeness[i] == last {
                i += 1;
            }
            proof {
                assert forall|k: int| i <= k < s.len() implies before(last, #[trigger] s[k]) by {
                    let p = if i > 0 && s[i - 1] == last {
                        i - 1
                    } else {
                        i as int
                    };
                    if s[p] == last {
                        assert(before(s[p], s[k]));
                    } else {
                        assert(!before(s[k], last));
                        if s[k] == last {
                            assert(before(s[p], s[k]) || p == k);
                        }
                    }
                }
                assert forall|k: int| 0 <= k < i implies !before(last, #[trigger] s[k]) by {}
                if i < s.len() {
                    assert(s.contains(s[i as int]));
                    assert forall|k: int|
                        0 <= k < s.len() && before(last, #[trigger] s[k]) implies !before(
                        s[k],
                        s[i as int],
                    ) by {
                        if k > i {
                            assert(before(s[i as int], s[k]));
                        }
                    }
                }
            }
            self.last_allocated =
            if i < self.by_freeness.len() {
                Some(self.by_freeness[i])
            } else {
                None
            };
        }
        if self.last_allocated.is_none() {
            self.been_through_once = true;
        }
        self.get_current()
    }

    /// Adds a slab and makes it the one to allocate from.
    pub fn insert(&mut self, entry: SlabBucketEntry)
        requires
            old(self).wf(),
            !has_slab(old(self).by_freeness@, entry.slab_id),
        ensures
            final(self).wf(),
            final(self).is_extent_based == old(self).is_extent_based,
            final(self).been_through_once == old(self).been_through_once,
            forall|e: SlabBucketEntry|
                #[trigger] final(self).by_freeness@.contains(e) <==> old(self).by_freeness@.contains(e) || e == entry,
            final(self).last_allocated == Some(entry),
    {
        add_entry(&mut self.by_freeness, entry);
        self.last_allocated = Some(entry);
        assert(self.by_freeness@.contains(entry));
    }

    /// Takes a slab out, and moves on if it was the one to allocate from.
    pub fn remove(&mut self, id: SlabId)
        requires
            old(self).wf(),
            has_slab(old(self).by_freeness@, id),
        ensures
            final(self).wf(),
            final(self).is_extent_based == old(self).is_extent_based,
            forall|e: SlabBucketEntry|
                #[trigger] final(self).by_freeness@.contains(e) <==> old(self).by_freeness@.contains(e) && e.slab_id != id,
            if old(self).current() == Some(id) {
                &&& if old(self).been_through_once {
                    final(self).last_allocated is None
                } else {
                    is_next(
                        old(self).by_freeness@,
                        old(self).last_allocated->0,
                        final(self).last_allocated,
                    )
                }
                &&& final(self).been_through_once == (old(self).been_through_once || final(self).last_allocated is None)
            } else {
                &&& final(self).last_allocated == old(self).last_allocated
                &&& final(self).been_through_once == old(self).been_through_once
            },
    {
        let ghost s0 = self.by_freeness@;
        if let Some(last) = self.last_allocated {
            if last.slab_id == id {
                let _ = self.advance();
            }
        }
        let mut i: usize = 0;
        while self.by_freeness[i].slab_id != id
            invariant
                i < s0.len(),
                self.by_freeness@ == s0,
                has_slab(s0, id),
                forall|k: int| 0 <= k < i ==> (#[trigger] s0[k]).slab_id != id,
            decreases s0.len() - i,
        {
            assert(i < self.by_freeness.len());
            i += 1;
            proof {
                let k = choose|k: int| 0 <= k < s0.len() && (#[trigger] s0[k]).slab_id == id;
                assert(k >= i);
            }
        }
        let _ = self.by_freeness.remove(i);
        proof {
            let s = self.by_freeness@;
            assert(s =~= s0.remove(i as int));
            assert forall|e: SlabBucketEntry| #[trigger] s.contains(e) <==> s0.contains(e)
                && e.slab_id != id by {
                if s.contains(e) {
                    let k = choose|k: int| 0 <= k < s.len() && s[k] == e;
                    let k0 = if k >= i {
                        k + 1
                    } else {
                        k
                    };
                    assert(s0[k0] == e);
                    if k0 < i {
                        assert(s0[k0].slab_id != s0[i as int].slab_id);
                    } else {
                        assert(s0[i as int].slab_id != s0[k0].slab_id);
                    }
                }
                if s0.contains(e) && e.slab_id != id {
                    let k = choose|k: int| 0 <= k < s0.len() && s0[k] == e;
                    assert(s[if k > i {
                        k - 1
                    } else {
                        k
                    }] == e);
                }
            }
            assert forall|a: int, b: int| 0 <= a < b < s.len() implies before(s[a], s[b]) by {
                let a0 = if a >= i {
                    a + 1
                } else {
                    a
                };
                let b0 = if b >= i {
                    b + 1
                } else {
                    b
                };
                assert(before(s0[a0], s0[b0]));
            }
            assert forall|a: int, b: int| 0 <= a < b < s.len() implies (#[trigger] s[a]).slab_id
                != (#[trigger] s[b]).slab_id by {
                let a0 = if a >= i {
                    a + 1
                } else {
                    a
                };
                let b0 = if b >= i {
                    b + 1
                } else {
                    b
                };
                assert(s0[a0].slab_id != s0[b0].slab_id);
            }
            if self.last_allocated is Some {
                let e = self.last_allocated->0;
                assert(s0.contains(e));
                let l0 = old(self).last_allocated->0;
                if old(self).current() == Some(id) {
                    assert(before(l0, e));
                    let p = choose|p: int| 0 <= p < s0.len() && s0[p] == l0;
                    let q = choose|q: int| 0 <= q < s0.len() && s0[q] == e;
                    assert(p != q);
                    if p < q {
                        assert(s0[p].slab_id != s0[q].slab_id);
                    } else {
                        assert(s0[q].slab_id != s0[p].slab_id);
                    }
                }
                assert(e.slab_id != id);
                assert(s.contains(e));
            }
        }
    }
}

/// The buckets by size, as they are stored: the largest allocation, and whether extents are
/// allocated. The sizes ascend.
#[derive(Debug)]
pub struct SlabAllocationBucketsPhys {
    pub buckets: Vec<(SlabBucketSize, bool)>,
}

pub open spec fn sizes_ascend(buckets: Seq<(SlabBucketSize, bool)>) -> bool {
    forall|i: int, j: int|
        0 <= i < j < buckets.len() ==> (#[trigger] buckets[i]).0.0 < (#[trigger] buckets[j]).0.0
}

/// The default buckets: slots up to 15.5K, and extents up to 32M.
pub open spec fn default_buckets() -> Seq<(SlabBucketSize, bool)> {
    Seq::new(31, |i: int| (SlabBucketSize(((i + 1) * 512) as u32), false)) + seq![
        (SlabBucketSize(65536), true),
        (SlabBucketSize(262144), true),
        (SlabBucketSize(1048576), true),
        (SlabBucketSize(33554432), true),
    ]
}

impl Default for SlabAllocationBucketsPhys {
    fn default() -> (r: SlabAllocationBucketsPhys)
        ensures
            r.buckets@ == default_buckets(),
            sizes_ascend(r.buckets@),
    {
        let mut buckets: Vec<(SlabBucketSize, bool)> = Vec::new();
        let mut b: u32 = 1;
        while b < 32
            invariant
                1 <= b <= 32,
                buckets@.len() == b - 1,
                forall|i: int|
                    0 <= i < b - 1 ==> buckets@[i] == (
                        SlabBucketSize(((i + 1) * 512) as u32),
                        false,
                    ),
            decreases 32 - b,
        {
            buckets.push((SlabBucketSize(b * 512), false));
            b += 1;
        }
        buckets.push((SlabBucketSize(65536), true));
        buckets.push((SlabBucketSize(262144), true));
        buckets.push((SlabBucketSize(1048576), true));
        buckets.push((SlabBucketSize(33554432), true));
        assert(buckets@ =~= default_buckets());
        SlabAllocationBucketsPhys { buckets }
    }
}

/// The buckets, by ascending size.
pub struct SlabAllocationBuckets {
    pub buckets: Vec<(SlabBucketSize, SlabBucket)>,
}

impl SlabAllocationBuckets {
    pub open spec fn len(&self) -> int {
        self.buckets@.len() as int
    }

    pub open spec fn size(&self, i: int) -> u32 {
        self.buckets@[i].0.0
    }

    pub open spec fn bucket(&self, i: int) -> SlabBucket {
        self.buckets@[i].1
    }

    /// Bucket `i` is the smallest that can satisfy the request.
    pub open spec fn serves(&self, i: int, request_size: int) -> bool {
        &&& 0 <= i < self.len()
        &&& self.size(i) >= request_size
        &&& forall|j: int| 0 <= j < i ==> #[trigger] self.size(j) < request_size
    }

    pub open spec fn wf(&self) -> bool {
        &&& forall|i: int, j: int|
            0 <= i < j < self.len() ==> #[trigger] self.size(i) < #[trigger] self.size(j)
        &&& forall|i: int| 0 <= i < self.len() ==> (#[trigger] self.bucket(i)).wf()
    }

    /// The same buckets as those that are stored.
    pub open spec fn matches_phys(&self, phys: Seq<(SlabBucketSize, bool)>) -> bool {
        &&& self.len() == phys.len()
        &&& forall|i: int|
            0 <= i < phys.len() ==> self.size(i) == (#[trigger] phys[i]).0.0 && self.bucket(
                i,
            ).is_extent_based == phys[i].1
    }

    /// Makes the buckets and puts each slab in the bucket of its size.
    pub fn new(
        phys: &SlabAllocationBucketsPhys,
        slabs: &Vec<(SlabBucketSize, SlabBucketEntry)>,
    ) -> (r: SlabAllocationBuckets)
        requires
            sizes_ascend(phys.buckets@),
            forall|i: int, j: int|
                0 <= i < j < slabs@.len() ==> (#[trigger] slabs@[i]).1.slab_id != (
                #[trigger] slabs@[j]).1.slab_id,
        ensures
            r.wf(),
            r.matches_phys(phys.buckets@),
            forall|i: int, e: SlabBucketEntry|
                0 <= i < r.len() ==> (#[trigger] r.bucket(i).by_freeness@.contains(e)
                    <==> slabs@.contains((SlabBucketSize(r.size(i)), e))),
            forall|i: int|
                0 <= i < r.len() ==> !(#[trigger] r.bucket(i)).been_through_once && r.bucket(
                    i,
                ).last_allocated == if r.bucket(i).by_freeness@.len() > 0 {
                    Some(r.bucket(i).by_freeness@[0])
                } else {
                    None
                },
    {
        let mut buckets: Vec<(SlabBucketSize, SlabBucket)> = Vec::new();
        let mut i: usize = 0;
        while i < phys.buckets.len()
            invariant
                i <= phys.buckets@.len(),
                buckets@.len() == i,
                sizes_ascend(phys.buckets@),
                forall|a: int, b: int|
                    0 <= a < b < slabs@.len() ==> (#[trigger] slabs@[a]).1.slab_id != (
                    #[trigger] slabs@[b]).1.slab_id,
                forall|k: int|
                    0 <= k < i ==> {
                        &&& (#[trigger] buckets@[k]).0 == phys.buckets@[k].0
                        &&& buckets@[k].1.wf()
                        &&& buckets@[k].1.is_extent_based == phys.buckets@[k].1
                        &&& !buckets@[k].1.been_through_once
                        &&& buckets@[k].1.last_allocated == if buckets@[k].1.by_freeness@.len()
                            > 0 {
                            Some(buckets@[k].1.by_freeness@[0])
                        } else {
                            None
                        }
                    },
                forall|k: int, e: SlabBucketEntry|
                    0 <= k < i ==> (#[trigger] buckets@[k].1.by_freeness@.contains(e)
                        <==> slabs@.contains((buckets@[k].0, e))),
            decreases phys.buckets@.len() - i,
        {
            let (size, is_extent_based) = phys.buckets[i];
            let entries = entries_of_size(slabs, size);
            let bucket = SlabBucket::new(is_extent_based, &entries);
            buckets.push((size, bucket));
            i += 1;
        }
        let r = SlabAllocationBuckets { buckets };
        proof {
            assert forall|i: int, j: int| 0 <= i < j < r.len() implies #[trigger] r.size(i)
                < #[trigger] r.size(j) by {
                assert(phys.buckets@[i].0.0 < phys.buckets@[j].0.0);
                assert(r.buckets@[i].0 == phys.buckets@[i].0);
                assert(r.buckets@[j].0 == phys.buckets@[j].0);
            }
        }
        r
    }

    /// The smallest bucket that can satisfy the request.
    pub fn get_bucket_size_for_allocation_size(&self, request_size: u32) -> (r: SlabBucketSize)
        requires
            self.wf(),
            exists|i: int| 0 <= i < self.len() && #[trigger] self.size(i) >= request_size,
        ensures
            exists|i: int| #[trigger] self.serves(i, request_size as int) && r.0 == self.size(i),
    {
        let i = self.find(request_size);
        assert(self.serves(i as int, request_size as int));
        self.buckets[i].0
    }

    /// The index of the smallest bucket that can satisfy the request.
    pub fn find(&self, request_size: u32) -> (r: usize)
        requires
            exists|i: int| 0 <= i < self.len() && #[trigger] self.size(i) >= request_size,
        ensures
            self.serves(r as int, request_size as int),
    {
        let ghost w = choose|i: int| 0 <= i < self.len() && #[trigger] self.size(i)
            >= request_size;
        let mut i: usize = 0;
        while self.buckets[i].0.0 < request_size
            invariant
                0 <= w < self.len(),
                self.size(w) >= request_size,
                i <= w,
                forall|j: int| 0 <= j < i ==> #[trigger] self.size(j) < request_size,
            decreases w - i,
        {
            assert(self.size(i as int) < request_size);
            assert(i < self.buckets.len());
            i += 1;
        }
        i
    }
}

/// The entries that have the given size.
fn entries_of_size(
    slabs: &Vec<(SlabBucketSize, SlabBucketEntry)>,
    size: SlabBucketSize,
) -> (r: Vec<SlabBucketEntry>)
    requires
        forall|a: int, b: int|
            0 <= a < b < slabs@.len() ==> (#[trigger] slabs@[a]).1.slab_id != (
            #[trigger] slabs@[b]).1.slab_id,
    ensures
        one_each(r@),
        forall|e: SlabBucketEntry| #[trigger] r@.contains(e) <==> slabs@.contains((size, e)),
{
    let mut r: Vec<SlabBucketEntry> = Vec::new();
    let mut i: usize = 0;
    while i < slabs.len()
        invariant
            i <= slabs@.len(),
            forall|a: int, b: int|
                0 <= a < b < slabs@.len() ==> (#[trigger] slabs@[a]).1.slab_id != (
                #[trigger] slabs@[b]).1.slab_id,
            one_each(r@),
            forall|k: int|
                0 <= k < r@.len() ==> exists|m: int|
                    0 <= m < i && slabs@[m] == (size, #[trigger] r@[k]),
            forall|m: int|
                0 <= m < i && (#[trigger] slabs@[m]).0 == size ==> r@.contains(slabs@[m].1),
        decreases slabs@.len() - i,
    {
        let (s, e) = slabs[i];
        if s == size {
            let ghost r0 = r@;
            r.push(e);
            proof {
                assert forall|a: int, b: int|
                    0 <= a < b < r@.len() implies (#[trigger] r@[a]).slab_id != (
                #[trigger] r@[b]).slab_id by {
                    assert(r0[a] == r@[a]);
                    let ma = choose|m: int| 0 <= m < i && slabs@[m] == (size, r0[a]);
                    if b < r0.len() {
                        assert(r0[a].slab_id != r0[b].slab_id);
                    } else {
                        assert(slabs@[ma].1.slab_id != slabs@[i as int].1.slab_id);
                    }
                }
                assert forall|k: int| 0 <= k < r@.len() implies exists|m: int|
                    0 <= m < i + 1 && slabs@[m] == (size, #[trigger] r@[k]) by {
                    if k < r0.len() {
                        assert(r@[k] == r0[k]);
                        let m = choose|m: int| 0 <= m < i && slabs@[m] == (size, r0[k]);
                        assert(slabs@[m] == (size, r@[k]));
                    } else {
                        assert(slabs@[i as int] == (size, r@[k]));
                    }
                }
                assert forall|m: int|
                    0 <= m < i + 1 && (#[trigger] slabs@[m]).0 == size implies r@.contains(
                    slabs@[m].1,
                ) by {
                    if m < i {
                        let k = choose|k: int| 0 <= k < r0.len() && r0[k] == slabs@[m].1;
                        assert(r@[k] == slabs@[m].1);
                    } else {
                        assert(r@[r0.len() as int] == slabs@[m].1);
                    }
                }
            }
        }
        i += 1;
    }
    proof {
        assert forall|e: SlabBucketEntry| #[trigger] r@.contains(e) <==> slabs@.contains(
            (size, e),
        ) by {
            if r@.contains(e) {
                let k = choose|k: int| 0 <= k < r@.len() && r@[k] == e;
                let m = choose|m: int| 0 <= m < i && slabs@[m] == (size, r@[k]);
                assert(slabs@[m] == (size, e));
            }
            if slabs@.contains((size, e)) {
                let m = choose|m: int| 0 <= m < slabs@.len() && slabs@[m] == (size, e);
                assert(slabs@[m].0 == size);
            }
        }
    }
    r
}

} // verus!
