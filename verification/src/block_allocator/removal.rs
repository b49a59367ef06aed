//! Disks that are being removed, and how much space there is.
use crate::base_types::DiskId;
use crate::block_allocator::buckets::{
    before, has_slab, is_next, one_each, ordered, SlabAllocationBuckets, SlabBucket,
    SlabBucketEntry, SlabBucketSize,
};
use crate::block_allocator::invariants::{
    blocked, bucket_gained, buckets_ok, distinct, free_on, home, ids_match, inside,
    lemma_buckets_add, lemma_buckets_less, lemma_buckets_live, lemma_stats_fit, noalloc_exact,
    noalloc_ok, sizes_ok, stats_ok, DiskStats,
};
use crate::block_allocator::flush::entry_of;
use crate::block_allocator::slab::{Slab, SlabEnum};
use crate::block_allocator::slabs::{
    indexable, lemma_sum_slabs_change, lemma_sum_slabs_nonneg, slab_ok, slabs_ok, sum_slabs, Slabs,
};
use crate::block_allocator::BlockAllocator;
use crate::slab_allocator::{SlabAllocator, SlabId};
use vstd::prelude::*;

verus! {

/// Sums a number over the listed slabs.
pub open spec fn sum_list(m: Map<int, Slab>, ids: Seq<SlabId>, f: spec_fn(Slab) -> int) -> int
    decreases ids.len(),
{
    if ids.len() == 0 {
        0
    } else {
        sum_list(m, ids.drop_last(), f) + f(m[ids.last().0 as int])
    }
}

proof fn lemma_sum_list_push(
    m: Map<int, Slab>,
    ids: Seq<SlabId>,
    id: SlabId,
    f: spec_fn(Slab) -> int,
)
    ensures
        sum_list(m, ids.push(id), f) == sum_list(m, ids, f) + f(m[id.0 as int]),
{
    assert(ids.push(id).drop_last() =~= ids);
}

proof fn lemma_sum_list_same(
    a: Map<int, Slab>,
    b: Map<int, Slab>,
    ids: Seq<SlabId>,
    f: spec_fn(Slab) -> int,
)
    requires
        forall|i: int| 0 <= i < ids.len() ==> a[(#[trigger] ids[i]).0 as int] == b[ids[i].0 as int],
    ensures
        sum_list(a, ids, f) == sum_list(b, ids, f),
    decreases ids.len(),
{
    if ids.len() > 0 {
        let d = ids.drop_last();
        assert forall|i: int| 0 <= i < d.len() implies a[(#[trigger] d[i]).0 as int]
            == b[d[i].0 as int] by {
            assert(d[i] == ids[i]);
        }
        lemma_sum_list_same(a, b, d, f);
        assert(ids[ids.len() - 1] == ids.last());
    }
}

/// A sum over some slabs is at most the sum over all, and equal to it if the others add nothing.
pub proof fn lemma_sum_list(m: Map<int, Slab>, ids: Seq<SlabId>, n: int, f: spec_fn(Slab) -> int)
    requires
        distinct(ids),
        forall|i: int|
            0 <= i < ids.len() ==> m.contains_key((#[trigger] ids[i]).0 as int) && ids[i].0 < n,
        forall|k: int| #[trigger] m.contains_key(k) ==> 0 <= f(m[k]),
    ensures
        0 <= sum_list(m, ids, f) <= sum_slabs(m, n, f),
        (forall|k: int| #[trigger] m.contains_key(k) ==> f(m[k]) == 0 || (0 <= k <= u64::MAX
            && ids.contains(SlabId(k as u64)))) ==> sum_list(m, ids, f) == sum_slabs(m, n, f),
    decreases ids.len(),
{
    if ids.len() == 0 {
        lemma_sum_slabs_nonneg(m, n, f);
        if forall|k: int| #[trigger] m.contains_key(k) ==> f(m[k]) == 0 || (0 <= k <= u64::MAX
            && ids.contains(SlabId(k as u64))) {
            crate::block_allocator::lemma_sum_none(m, n, f);
        }
    } else {
        let d = ids.drop_last();
        let l = ids.last();
        let i = l.0 as int;
        let r = m.remove(i);
        assert(ids[ids.len() - 1] == l);
        assert forall|x: int| 0 <= x < d.len() implies r.contains_key((#[trigger] d[x]).0 as int)
            && d[x].0 < n && m[d[x].0 as int] == r[d[x].0 as int] by {
            assert(d[x] == ids[x]);
            assert(ids[x] != ids[ids.len() - 1]);
        }
        assert forall|x: int, y: int| 0 <= x < y < d.len() implies d[x] != d[y] by {
            assert(ids[x] != ids[y]);
        }
        lemma_sum_list(r, d, n, f);
        lemma_sum_list_same(m, r, d, f);
        lemma_sum_slabs_change(r, m, i, n, f);
        if forall|k: int| #[trigger] m.contains_key(k) ==> f(m[k]) == 0 || (0 <= k <= u64::MAX
            && ids.contains(SlabId(k as u64))) {
            assert forall|k: int| #[trigger] r.contains_key(k) implies f(r[k]) == 0 || (0 <= k
                <= u64::MAX && d.contains(SlabId(k as u64))) by {
                assert(m.contains_key(k));
                if f(m[k]) != 0 {
                    let s = SlabId(k as u64);
                    let x = choose|x: int| 0 <= x < ids.len() && ids[x] == s;
                    assert(x < d.len());
                    assert(d[x] == s);
                }
            }
        }
    }
}

/// Whether the list holds the slab.
fn list_contains(list: &Vec<SlabId>, id: SlabId) -> (r: bool)
    ensures
        r == list@.contains(id),
{
    let mut i: usize = 0;
    while i < list.len()
        invariant
            i <= list@.len(),
            forall|k: int| 0 <= k < i ==> list@[k] != id,
        decreases list@.len() - i,
    {
        if list[i] == id {
            return true;
        }
        i += 1;
    }
    false
}

/// The bucket without the slabs of a disk. If the slab to allocate from was one of them, the
/// next one follows.
pub open spec fn without_disk(m: Map<int, Slab>, d: int, a: SlabBucket, b: SlabBucket) -> bool {
    &&& b.is_extent_based == a.is_extent_based
    &&& forall|e: SlabBucketEntry|
        #[trigger] b.by_freeness@.contains(e) <==> a.by_freeness@.contains(e)
            && m[e.slab_id.0 as int].disk() != d
    &&& match a.last_allocated {
        Some(e) if m[e.slab_id.0 as int].disk() == d => {
            &&& if a.been_through_once {
                b.last_allocated is None
            } else {
                is_next(b.by_freeness@, e, b.last_allocated)
            }
            &&& b.been_through_once == (a.been_through_once || b.last_allocated is None)
        },
        _ => {
            &&& b.last_allocated == a.last_allocated
            &&& b.been_through_once == a.been_through_once
        },
    }
    &&& b.wf()
}

impl BlockAllocator {
    /// The slab is put aside with its disk.
    pub open spec fn is_listed(&self, id: SlabId, d: int) -> bool {
        self.noalloc_state@.contains_key(d) && self.noalloc_state@[d]@.contains(id)
    }

    /// The slabs of a disk, in use or not.
    pub open spec fn on_disk(&self, id: SlabId, d: int) -> bool {
        self.slabs@.contains_key(id.0 as int) && self.slabs@[id.0 as int].disk() == d
    }

    /// Takes the slabs of a disk out of a bucket.
    fn filter_bucket(&self, sa: Ghost<SlabAllocator>, i: usize, disk: DiskId) -> (r: SlabBucket)
        requires
            self.wf(sa@),
            i < self.slab_buckets.len(),
        ensures
            without_disk(
                self.slabs@,
                disk.0 as int,
                self.slab_buckets.bucket(i as int),
                r,
            ),
    {
        let bucket = &self.slab_buckets.buckets[i].1;
        let ghost s = bucket.by_freeness@;
        let ghost m = self.slabs@;
        let ghost d = disk.0 as int;
        proof {
            reveal(buckets_ok);
            assert(self.slab_buckets.bucket(i as int) == *bucket);
            assert(self.slab_buckets.bucket(i as int).wf());
        }
        let mut entries: Vec<SlabBucketEntry> = Vec::new();
        let mut k: usize = 0;
        while k < bucket.by_freeness.len()
            invariant
                k <= bucket.by_freeness@.len(),
                s == bucket.by_freeness@,
                m == self.slabs@,
                d == disk.0,
                self.wf(sa@),
                i < self.slab_buckets.len(),
                self.slab_buckets.bucket(i as int) == *bucket,
                bucket.wf(),
                ordered(entries@),
                one_each(entries@),
                forall|x: int|
                    0 <= x < entries@.len() ==> exists|y: int|
                        0 <= y < k && s[y] == #[trigger] entries@[x]
                            && m[entries@[x].slab_id.0 as int].disk() != d,
                forall|y: int|
                    0 <= y < k && m[(#[trigger] s[y]).slab_id.0 as int].disk() != d
                        ==> entries@.contains(s[y]),
            decreases bucket.by_freeness@.len() - k,
        {
            let e = bucket.by_freeness[k];
            proof {
                reveal(BlockAllocator::owned_ok);
                reveal(buckets_ok);
                assert(self.slab_buckets.bucket(i as int).by_freeness@[k as int] == s[k as int]);
                let x = e.slab_id.0 as int;
                assert(m.contains_key(x));
                assert(slab_ok(sa@.access, m[x], x));
                sa@.access.lemma_id_below_next(e.slab_id);
                sa@.access.lemma_slab_extent(sa@.access.holder(e.slab_id), e.slab_id);
                m[x].lemma_within(sa@.access.slab_extent(e.slab_id));
            }
            let ghost e0 = entries@;
            if self.slabs.get(e.slab_id).location().disk().0 != disk.0 {
                entries.push(e);
                proof {
                    assert forall|x: int, y: int| 0 <= x < y < entries@.len() implies before(
                        entries@[x],
                        entries@[y],
                    ) && (#[trigger] entries@[x]).slab_id != (#[trigger] entries@[y]).slab_id by {
                        if y < e0.len() {
                            assert(before(e0[x], e0[y]));
                            assert(e0[x].slab_id != e0[y].slab_id);
                        } else {
                            let z = choose|z: int|
                                0 <= z < k && s[z] == #[trigger] entries@[x]
                                    && m[entries@[x].slab_id.0 as int].disk() != d;
                            assert(entries@[x] == e0[x]);
                            assert(before(s[z], s[k as int]));
                            assert(s[z].slab_id != s[k as int].slab_id);
                        }
                    }
                    assert forall|x: int| 0 <= x < entries@.len() implies exists|y: int|
                        0 <= y < k + 1 && s[y] == #[trigger] entries@[x]
                            && m[entries@[x].slab_id.0 as int].disk() != d by {
                        if x < e0.len() {
                            assert(entries@[x] == e0[x]);
                        } else {
                            assert(s[k as int] == entries@[x]);
                        }
                    }
                    assert forall|y: int|
                        0 <= y < k + 1 && m[(#[trigger] s[y]).slab_id.0 as int].disk()
                            != d implies entries@.contains(s[y]) by {
                        if y < k {
                            let x = choose|x: int| 0 <= x < e0.len() && e0[x] == s[y];
                            assert(entries@[x] == s[y]);
                        } else {
                            assert(entries@[e0.len() as int] == s[y]);
                        }
                    }
                }
            }
            k += 1;
        }
        proof {
            assert forall|e: SlabBucketEntry|
                #[trigger] entries@.contains(e) <==> s.contains(e) && m[e.slab_id.0 as int].disk()
                    != d by {
                if entries@.contains(e) {
                    let x = choose|x: int| 0 <= x < entries@.len() && entries@[x] == e;
                    let y = choose|y: int|
                        0 <= y < k && s[y] == #[trigger] entries@[x]
                            && m[entries@[x].slab_id.0 as int].disk() != d;
                    assert(s[y] == e);
                }
                if s.contains(e) && m[e.slab_id.0 as int].disk() != d {
                    let y = choose|y: int| 0 <= y < s.len() && s[y] == e;
                    assert(entries@.contains(s[y]));
                }
            }
        }
        let mut r = SlabBucket {
            is_extent_based: bucket.is_extent_based,
            by_freeness: entries,
            last_allocated: bucket.last_allocated,
            been_through_once: bucket.been_through_once,
        };
        // The slab to allocate from may be one of those that were just taken out.
        if let Some(e) = r.last_allocated {
            proof {
                reveal(BlockAllocator::owned_ok);
                reveal(buckets_ok);
                assert(s.contains(e));
                let y = choose|y: int| 0 <= y < s.len() && s[y] == e;
                assert(self.slab_buckets.bucket(i as int).by_freeness@[y] == s[y]);
                let x = e.slab_id.0 as int;
                assert(m.contains_key(x));
                assert(slab_ok(sa@.access, m[x], x));
                sa@.access.lemma_id_below_next(e.slab_id);
                sa@.access.lemma_slab_extent(sa@.access.holder(e.slab_id), e.slab_id);
                m[x].lemma_within(sa@.access.slab_extent(e.slab_id));
            }
            if self.slabs.get(e.slab_id).location().disk().0 == disk.0 {
                let _ = r.advance();
            } else {
                assert(r.by_freeness@.contains(e));
            }
        }
        r
    }

    /// The slabs of a disk that the list lacks are added to it. Returns the free space in them.
    #[verifier::spinoff_prover]
    #[verifier::rlimit(40)]
    fn list_slabs_of(
        slabs: &Slabs,
        whole: Ghost<BlockAllocator>,
        sa: Ghost<SlabAllocator>,
        disk: DiskId,
        list: &mut Vec<SlabId>,
    ) -> (r: u64)
        requires
            whole@.wf(sa@),
            whole@.slabs == *slabs,
            distinct(old(list)@),
            forall|k: int| 0 <= k < old(list)@.len() ==> whole@.on_disk(
                #[trigger] old(list)@[k],
                disk.0 as int,
            ),
        ensures
            distinct(final(list)@),
            forall|id: SlabId|
                #[trigger] final(list)@.contains(id) <==> whole@.on_disk(id, disk.0 as int),
            old(list)@.len() <= final(list)@.len(),
            final(list)@.take(old(list)@.len() as int) == old(list)@,
            r == sum_list(
                slabs@,
                final(list)@.skip(old(list)@.len() as int),
                free_on(disk.0 as int),
            ),
    {
        let ghost m = slabs@;
        let ghost d = disk.0 as int;
        let ghost l0 = list@;
        let ghost n = sa@.access.next_slab_id.0 as int;
        let ids = slabs.ids();
        let mut bytes: u64 = 0;
        let mut i: usize = 0;
        proof {
            reveal(BlockAllocator::owned_ok);
            assert(list@.take(l0.len() as int) =~= l0);
            assert(list@.skip(l0.len() as int) =~= Seq::<SlabId>::empty());
        }
        while i < ids.len()
            invariant
                i <= ids@.len(),
                m == slabs@,
                whole@.slabs == *slabs,
                d == disk.0,
                n == sa@.access.next_slab_id.0,
                whole@.wf(sa@),
                sa@.access.wf(),
                slabs_ok(sa@.access, m),
                forall|k: int|
                    0 <= k < ids@.len() ==> (#[trigger] ids@[k]).0 <= usize::MAX && m.contains_key(
                        ids@[k].0 as int,
                    ),
                distinct(list@),
                forall|k: int| 0 <= k < list@.len() ==> whole@.on_disk(#[trigger] list@[k], d),
                forall|k: int|
                    0 <= k < i && whole@.on_disk(#[trigger] ids@[k], d) ==> list@.contains(ids@[k]),
                l0.len() <= list@.len(),
                list@.take(l0.len() as int) == l0,
                bytes == sum_list(m, list@.skip(l0.len() as int), free_on(d)),
            decreases ids@.len() - i,
        {
            let id = ids[i];
            let ghost l1 = list@;
            let slab = slabs.get(id);
            proof {
                let x = id.0 as int;
                assert(m.contains_key(ids@[i as int].0 as int));
                assert(slab_ok(sa@.access, m[x], x));
                sa@.access.lemma_slab_extent(sa@.access.holder(id), id);
                m[x].lemma_within(sa@.access.slab_extent(id));
            }
            if slab.location().disk().0 == disk.0 && !list_contains(list, id) {
                proof {
                    let added = l1.skip(l0.len() as int).push(id);
                    lemma_sum_list_push(m, l1.skip(l0.len() as int), id, free_on(d));
                    assert(added =~= l1.push(id).skip(l0.len() as int));
                    assert forall|x: int, y: int| 0 <= x < y < added.len() implies added[x]
                        != added[y] by {
                        let p = l1.push(id);
                        assert(added[x] == p[l0.len() + x]);
                        assert(added[y] == p[l0.len() + y]);
                        if y == added.len() - 1 {
                            assert(l1.contains(l1[l0.len() + x]));
                        }
                    }
                    assert forall|x: int| 0 <= x < added.len() implies m.contains_key(
                        (#[trigger] added[x]).0 as int,
                    ) && added[x].0 < n by {
                        if x < added.len() - 1 {
                            assert(added[x] == l1[l0.len() + x]);
                            assert(whole@.on_disk(l1[l0.len() + x], d));
                        }
                        let y = added[x].0 as int;
                        assert(slab_ok(sa@.access, m[y], y));
                        sa@.access.lemma_id_below_next(added[x]);
                    }
                    lemma_sum_list(m, added, n, free_on(d));
                    lemma_stats_fit(sa@.access, m, d);
                }
                list.push(id);
                bytes = bytes + slab.free_space();
                proof {
                    assert(list@.take(l0.len() as int) =~= l0);
                    assert forall|x: int, y: int| 0 <= x < y < list@.len() implies list@[x]
                        != list@[y] by {
                        if y == l1.len() {
                            assert(l1.contains(l1[x]));
                        }
                    }
                    assert forall|k: int| 0 <= k < list@.len() implies whole@.on_disk(
                        #[trigger] list@[k],
                        d,
                    ) by {
                        if k < l1.len() {
                            assert(list@[k] == l1[k]);
                        }
                    }
                }
            }
            proof {
                assert forall|k: int|
                    0 <= k < i + 1 && whole@.on_disk(#[trigger] ids@[k], d) implies list@.contains(
                    ids@[k],
                ) by {
                    crate::block_based_log::lemma_contains_push(l1, id, ids@[k]);
                }
            }
            i += 1;
        }
        proof {
            assert forall|id: SlabId| #[trigger] list@.contains(id) <==> whole@.on_disk(id, d) by {
                if list@.contains(id) {
                    let k = choose|k: int| 0 <= k < list@.len() && list@[k] == id;
                    assert(whole@.on_disk(list@[k], d));
                }
                if whole@.on_disk(id, d) {
                    let k = choose|k: int|
                        0 <= k < ids@.len() && (#[trigger] ids@[k]).0 == id.0 as int;
                    assert(ids@[k] == id);
                    assert(list@.contains(ids@[k]));
                }
            }
        }
        bytes
    }

    /// Takes all slabs of a disk out of the buckets, so that nothing is allocated from them any
    /// more.
    pub fn mark_noalloc_disk(&mut self, sa: &SlabAllocator, disk: DiskId)
        requires
            old(self).wf(*sa),
            old(self).exact(),
            old(self).aside@ == Set::<int>::empty(),
            disk.wf(),
            old(self).per_disk_stats@.contains_key(disk.0 as int),
        ensures
            final(self).wf(*sa),
            final(self).exact(),
            *final(self) == (BlockAllocator {
                noalloc_state: final(self).noalloc_state,
                slab_buckets: final(self).slab_buckets,
                per_disk_stats: final(self).per_disk_stats,
                ..*old(self)
            }),
            ({
                let d = disk.0 as int;
                let b = final(self).noalloc_state@;
                &&& b.remove(d) == old(self).noalloc_state@.remove(d)
                &&& b.contains_key(d) <==> exists|id: SlabId| #[trigger] old(self).on_disk(id, d)
                &&& b.contains_key(d) ==> distinct(b[d]@) && forall|id: SlabId|
                    #[trigger] b[d]@.contains(id) <==> old(self).on_disk(id, d)
            }),
            forall|x: int|
                x != disk.0 ==> #[trigger] final(self).is_blocked(x) == old(self).is_blocked(x),
            final(self).slab_buckets.len() == old(self).slab_buckets.len(),
            forall|i: int|
                0 <= i < old(self).slab_buckets.len() ==> {
                    &&& #[trigger] final(self).slab_buckets.size(i) == old(self).slab_buckets.size(
                        i,
                    )
                    &&& without_disk(
                        old(self).slabs@,
                        disk.0 as int,
                        old(self).slab_buckets.bucket(i),
                        final(self).slab_buckets.bucket(i),
                    )
                },
            ({
                let d = disk.0 as int;
                let s = old(self).per_disk_stats@[d];
                final(self).per_disk_stats@ == old(self).per_disk_stats@.insert(
                    d,
                    DiskStats { noalloc_bytes: s.free_bytes, ..s },
                )
            }),
    {
        let ghost a = *self;
        let ghost d = disk.0 as int;
        let ghost m = self.slabs@;
        let mut buckets: Vec<(SlabBucketSize, SlabBucket)> = Vec::new();
        let mut i: usize = 0;
        while i < self.slab_buckets.buckets.len()
            invariant
                i <= self.slab_buckets.buckets@.len(),
                *self == a,
                a.wf(*sa),
                d == disk.0,
                m == a.slabs@,
                buckets@.len() == i,
                forall|k: int|
                    0 <= k < i ==> {
                        &&& (#[trigger] buckets@[k]).0.0 == a.slab_buckets.size(k)
                        &&& without_disk(m, d, a.slab_buckets.bucket(k), buckets@[k].1)
                    },
            decreases self.slab_buckets.buckets@.len() - i,
        {
            let size = self.slab_buckets.buckets[i].0;
            let bucket = self.filter_bucket(Ghost(*sa), i, disk);
            buckets.push((size, bucket));
            i += 1;
        }
        let mut list = match self.noalloc_state.remove(disk.index()) {
            Some(list) => list,
            None => Vec::new(),
        };
        let ghost l0 = list@;
        proof {
            assert(distinct(l0) && forall|k: int|
                0 <= k < l0.len() ==> a.on_disk(#[trigger] l0[k], d)) by {
                reveal(noalloc_ok);
                if a.noalloc_state@.contains_key(d) {
                    assert(a.noalloc_state@[d]@ == l0);
                    assert forall|k: int| 0 <= k < l0.len() implies a.on_disk(
                        #[trigger] l0[k],
                        d,
                    ) by {
                        assert(m.contains_key(a.noalloc_state@[d]@[k].0 as int));
                    }
                }
            }
        }
        let bytes = Self::list_slabs_of(&self.slabs, Ghost(a), Ghost(*sa), disk, &mut list);
        let mut stats = self.per_disk_stats.remove(disk.index()).unwrap();
        proof {
            lemma_marked_bytes(a, *sa, d, l0, list@, bytes as int);
        }
        stats.noalloc_bytes = stats.noalloc_bytes + bytes;
        let _ = self.per_disk_stats.insert(disk.index(), stats);
        if list.len() > 0 {
            let _ = self.noalloc_state.insert(disk.index(), list);
        }
        self.slab_buckets = SlabAllocationBuckets { buckets };
        proof {
            let b = *self;
            let s = a.per_disk_stats@[d];
            assert(b.per_disk_stats@ =~= a.per_disk_stats@.insert(
                d,
                DiskStats { noalloc_bytes: s.free_bytes, ..s },
            ));
            if list@.len() > 0 {
                assert(b.noalloc_state@ =~= a.noalloc_state@.insert(d, list));
                assert(list@.contains(list@[0]));
            } else {
                assert(l0.len() == 0);
                reveal(noalloc_ok);
                assert(!a.noalloc_state@.contains_key(d));
                assert(b.noalloc_state@ =~= a.noalloc_state@);
                assert forall|id: SlabId| !#[trigger] a.on_disk(id, d) by {
                    assert(list@.contains(id) <==> a.on_disk(id, d));
                }
            }
            assert(b.noalloc_state@.remove(d) =~= a.noalloc_state@.remove(d));
            assert forall|k: int| 0 <= k < a.slab_buckets.len() implies #[trigger] b.slab_buckets.size(
                k,
            ) == a.slab_buckets.size(k) && without_disk(
                m,
                d,
                a.slab_buckets.bucket(k),
                b.slab_buckets.bucket(k),
            ) by {
                assert(buckets@[k].0.0 == a.slab_buckets.size(k));
            }
            lemma_marked(a, b, *sa, d, list@);
        }
    }

    /// Puts the slabs of a disk back into the buckets, so that they can be allocated from again.
    /// Those that are being evacuated stay listed until that is done.
    #[verifier::spinoff_prover]
    #[verifier::rlimit(40)]
    pub fn unmark_noalloc_disk(&mut self, sa: &SlabAllocator, disk: DiskId)
        requires
            old(self).wf(*sa),
            old(self).exact(),
            old(self).aside@ == Set::<int>::empty(),
            disk.wf(),
            old(self).per_disk_stats@.contains_key(disk.0 as int),
            !old(self).noalloc_state@.contains_key(disk.0 as int) ==> {
                let s = old(self).per_disk_stats@[disk.0 as int];
                s.alloc_bytes == 0 && s.free_bytes == 0 && s.noalloc_bytes == 0
            },
        ensures
            final(self).wf(*sa),
            final(self).exact(),
            !final(self).is_blocked(disk.0 as int),
            forall|x: int|
                x != disk.0 ==> #[trigger] final(self).is_blocked(x) == old(self).is_blocked(x),
            *final(self) == (BlockAllocator {
                noalloc_state: final(self).noalloc_state,
                slab_buckets: final(self).slab_buckets,
                per_disk_stats: final(self).per_disk_stats,
                ..*old(self)
            }),
            final(self).noalloc_state@.remove(disk.0 as int) == old(self).noalloc_state@.remove(
                disk.0 as int,
            ),
            forall|id: SlabId|
                #[trigger] final(self).is_listed(id, disk.0 as int) <==> old(self).is_listed(
                    id,
                    disk.0 as int,
                ) && !old(self).slabs@[id.0 as int].live(),
            put_back(*old(self), *final(self), disk.0 as int),
            final(self).per_disk_stats@ == old(self).per_disk_stats@.insert(
                disk.0 as int,
                DiskStats { noalloc_bytes: 0, ..old(self).per_disk_stats@[disk.0 as int] },
            ),
    {
        let ghost a = *self;
        let ghost d = disk.0 as int;
        let ghost m = self.slabs@;
        let ghost n = sa.access.next_slab_id.0 as int;
        let list = match self.noalloc_state.remove(disk.index()) {
            Some(list) => list,
            None => {
                proof {
                    reveal(BlockAllocator::owned_ok);
                    assert(self.noalloc_state@ =~= a.noalloc_state@);
                    assert(self.per_disk_stats@ =~= a.per_disk_stats@.insert(
                        d,
                        DiskStats { noalloc_bytes: 0, ..a.per_disk_stats@[d] },
                    ));
                }
                return;
            },
        };
        let mut kept: Vec<SlabId> = Vec::new();
        let mut stats = self.per_disk_stats.remove(disk.index()).unwrap();
        let mut k: usize = 0;
        proof {
            reveal(BlockAllocator::owned_ok);
            assert(a.noalloc_state@[d] == list);
            assert(distinct(list@)) by {
                reveal(noalloc_ok);
            }
            assert forall|x: int| 0 <= x < list@.len() implies a.on_disk(
                #[trigger] list@[x],
                d,
            ) by {
                reveal(noalloc_ok);
                assert(m.contains_key(a.noalloc_state@[d]@[x].0 as int));
            }
            assert(list@.take(0) =~= Seq::<SlabId>::empty());
            assert(put_ids(m, list@, 0) =~= Set::<int>::empty());
            assert(a.inside().union(put_ids(m, list@, 0)) =~= a.inside());
            lemma_list_bytes(a, *sa, d, list@);
        }
        while k < list.len()
            invariant
                k <= list@.len(),
                a.wf(*sa),
                a.aside@ == Set::<int>::empty(),
                sa.access.wf(),
                slabs_ok(sa.access, m),
                indexable(sa.access),
                m == a.slabs@,
                d == disk.0,
                n == sa.access.next_slab_id.0,
                a.noalloc_state@.contains_key(d),
                a.noalloc_state@[d] == list,
                distinct(list@),
                forall|x: int| 0 <= x < list@.len() ==> a.on_disk(#[trigger] list@[x], d),
                stats.alloc_bytes == a.per_disk_stats@[d].alloc_bytes,
                stats.free_bytes == a.per_disk_stats@[d].free_bytes,
                sum_list(m, list@, free_on(d)) == a.per_disk_stats@[d].noalloc_bytes,
                stats.noalloc_bytes == a.per_disk_stats@[d].noalloc_bytes - sum_list(
                    m,
                    list@.take(k as int),
                    free_on(d),
                ),
                distinct(kept@),
                forall|id: SlabId|
                    #[trigger] kept@.contains(id) <==> list@.take(k as int).contains(id)
                        && !m[id.0 as int].live(),
                buckets_ok(
                    self.slab_buckets,
                    m,
                    a.inside().union(put_ids(m, list@, k as int)),
                ),
                sizes_ok(self.slab_buckets, a.slab_size),
                put_so_far(a, self.slab_buckets, list@, k as int),
                *self == (BlockAllocator {
                    noalloc_state: self.noalloc_state,
                    slab_buckets: self.slab_buckets,
                    per_disk_stats: self.per_disk_stats,
                    ..a
                }),
                self.noalloc_state@ == a.noalloc_state@.remove(d),
                self.per_disk_stats@ == a.per_disk_stats@.remove(d),
            decreases list@.len() - k,
        {
            let id = list[k];
            let ghost x = id.0 as int;
            let ghost t = list@.take(k as int);
            let ghost kept0 = kept@;
            let ghost b = *self;
            proof {
                assert(a.on_disk(list@[k as int], d));
                assert(slab_ok(sa.access, m[x], x));
                sa.access.lemma_id_below_next(id);
                assert(list@.take(k + 1) =~= t.push(id));
                lemma_sum_list_push(m, t, id, free_on(d));
                lemma_prefix_sum(m, list@, k + 1, free_on(d));
                assert(!t.contains(id)) by {
                    if t.contains(id) {
                        let y = choose|y: int| 0 <= y < t.len() && t[y] == id;
                        assert(list@[y] == list@[k as int]);
                    }
                }
            }
            let slab = self.slabs.get(id);
            stats.noalloc_bytes = stats.noalloc_bytes - slab.free_space();
            let evacuating = match &slab.inner {
                SlabEnum::Evacuating(_) => true,
                _ => false,
            };
            if evacuating {
                // The slab goes back to the slab allocator when it has been evacuated.
                kept.push(id);
                proof {
                    assert(put_ids(m, list@, k + 1) =~= put_ids(m, list@, k as int)) by {
                        lemma_put_ids(m, list@, k as int);
                    }
                    assert forall|y: SlabId|
                        #[trigger] kept@.contains(y) <==> list@.take(k + 1).contains(y)
                            && !m[y.0 as int].live() by {
                        crate::block_based_log::lemma_contains_push(kept0, id, y);
                        crate::block_based_log::lemma_contains_push(t, id, y);
                    }
                    assert forall|y: int, z: int| 0 <= y < z < kept@.len() implies kept@[y]
                        != kept@[z] by {
                        if z == kept0.len() {
                            assert(kept0.contains(kept0[y]));
                        }
                    }
                    lemma_put_skip(a, b.slab_buckets, list@, k as int);
                }
            } else {
                proof {
                    lemma_put_ids(m, list@, k as int);
                    assert(!a.inside().contains(x)) by {
                        assert(a.noalloc_state@[d]@[k as int] == id);
                        assert(m[a.noalloc_state@[d]@[k as int].0 as int].live());
                    }
                    assert(!put_ids(m, list@, k as int).contains(x)) by {
                        if put_ids(m, list@, k as int).contains(x) {
                            let y = choose|y: int|
                                0 <= y < k && (#[trigger] list@[y]).0 == x && m[x].live();
                            assert(t[y] == id);
                        }
                    }
                    assert forall|y: int| #[trigger] m.contains_key(y) implies ids_match(m, y) by {
                        assert(slab_ok(sa.access, m[y], y));
                    }
                }
                put_in_bucket(
                    &mut self.slab_buckets,
                    slab,
                    Ghost(m),
                    Ghost(a.inside().union(put_ids(m, list@, k as int))),
                    Ghost(a.slab_size),
                );
                proof {
                    assert(a.inside().union(put_ids(m, list@, k as int)).insert(x)
                        =~= a.inside().union(put_ids(m, list@, k + 1)));
                    assert forall|y: SlabId|
                        #[trigger] kept@.contains(y) <==> list@.take(k + 1).contains(y)
                            && !m[y.0 as int].live() by {
                        crate::block_based_log::lemma_contains_push(t, id, y);
                    }
                    assert(a.slab_buckets.wf()) by {
                        reveal(buckets_ok);
                    }
                    lemma_put_step(a, b.slab_buckets, self.slab_buckets, list@, k as int);
                }
            }
            k += 1;
        }
        let _ = self.per_disk_stats.insert(disk.index(), stats);
        proof {
            assert(list@.take(list@.len() as int) =~= list@);
            assert(stats.noalloc_bytes == 0);
            assert(self.per_disk_stats@ =~= a.per_disk_stats@.insert(
                d,
                DiskStats { noalloc_bytes: 0, ..a.per_disk_stats@[d] },
            ));
        }
        if kept.len() > 0 {
            let _ = self.noalloc_state.insert(disk.index(), kept);
        }
        proof {
            let b = *self;
            if kept@.len() > 0 {
                assert(b.noalloc_state@ =~= a.noalloc_state@.insert(d, kept));
            } else {
                assert(b.noalloc_state@ =~= a.noalloc_state@.remove(d));
                assert forall|id: SlabId| !#[trigger] kept@.contains(id) by {}
            }
            assert(b.noalloc_state@.remove(d) =~= a.noalloc_state@.remove(d));
            assert forall|id: SlabId|
                #[trigger] b.is_listed(id, d) <==> a.is_listed(id, d)
                    && !a.slabs@[id.0 as int].live() by {
                assert(kept@.contains(id) <==> list@.take(k as int).contains(id)
                    && !m[id.0 as int].live());
            }
            lemma_unmarked(a, b, *sa, d, kept@);
        }
    }
}

/// The slabs in use among the first `k` of the list.
pub open spec fn put_ids(m: Map<int, Slab>, list: Seq<SlabId>, k: int) -> Set<int> {
    Set::new(|x: int| exists|y: int| 0 <= y < k && (#[trigger] list[y]).0 == x && m[x].live())
}

proof fn lemma_put_ids(m: Map<int, Slab>, list: Seq<SlabId>, k: int)
    requires
        0 <= k < list.len(),
    ensures
        put_ids(m, list, k + 1) == if m[list[k].0 as int].live() {
            put_ids(m, list, k).insert(list[k].0 as int)
        } else {
            put_ids(m, list, k)
        },
{
    let a = put_ids(m, list, k + 1);
    let b = if m[list[k].0 as int].live() {
        put_ids(m, list, k).insert(list[k].0 as int)
    } else {
        put_ids(m, list, k)
    };
    assert forall|x: int| a.contains(x) <==> b.contains(x) by {
        if a.contains(x) {
            let y = choose|y: int| 0 <= y < k + 1 && (#[trigger] list[y]).0 == x && m[x].live();
            assert(list[y].0 == x);
        }
        if put_ids(m, list, k).contains(x) {
            let y = choose|y: int| 0 <= y < k && (#[trigger] list[y]).0 == x && m[x].live();
            assert(list[y].0 == x);
        }
        if x == list[k].0 && m[x].live() {
            assert(list[k].0 == x);
        }
    }
    assert(a =~= b);
}

/// The entry of one of the first `k` listed slabs, for the bucket it belongs to.
pub open spec fn put_entry(
    a: BlockAllocator,
    list: Seq<SlabId>,
    k: int,
    i: int,
    e: SlabBucketEntry,
) -> bool {
    exists|y: int|
        {
            let slab = a.slabs@[(#[trigger] list[y]).0 as int];
            &&& 0 <= y < k
            &&& slab.live()
            &&& home(a.slab_buckets, slab, i)
            &&& e == entry_of(slab)
        }
}

/// A bucket after the first `k` listed slabs were put back.
pub open spec fn put_bucket(
    a: BlockAllocator,
    b: SlabAllocationBuckets,
    list: Seq<SlabId>,
    k: int,
    i: int,
) -> bool {
    let p = a.slab_buckets.bucket(i);
    let q = b.bucket(i);
    &&& b.size(i) == a.slab_buckets.size(i)
    &&& q.is_extent_based == p.is_extent_based
    &&& q.been_through_once == p.been_through_once
    &&& q.last_allocated == p.last_allocated || q.last_allocated is Some && put_entry(
        a,
        list,
        k,
        i,
        q.last_allocated->0,
    )
    &&& forall|e: SlabBucketEntry|
        #[trigger] q.by_freeness@.contains(e) <==> p.by_freeness@.contains(e) || put_entry(
            a,
            list,
            k,
            i,
            e,
        )
}

/// The buckets after the first `k` listed slabs were put back.
pub open spec fn put_so_far(
    a: BlockAllocator,
    b: SlabAllocationBuckets,
    list: Seq<SlabId>,
    k: int,
) -> bool {
    &&& b.len() == a.slab_buckets.len()
    &&& forall|i: int| 0 <= i < a.slab_buckets.len() ==> #[trigger] put_bucket(a, b, list, k, i)
}

/// The buckets after the slabs of a disk were put back. Allocation goes on with one of them,
/// where there is one, or else where it was.
pub open spec fn put_back(a: BlockAllocator, b: BlockAllocator, d: int) -> bool {
    if a.noalloc_state@.contains_key(d) {
        put_so_far(a, b.slab_buckets, a.noalloc_state@[d]@, a.noalloc_state@[d]@.len() as int)
    } else {
        b.slab_buckets == a.slab_buckets
    }
}

proof fn lemma_put_entry(a: BlockAllocator, list: Seq<SlabId>, k: int, i: int, e: SlabBucketEntry)
    requires
        0 <= k < list.len(),
    ensures
        put_entry(a, list, k + 1, i, e) <==> put_entry(a, list, k, i, e) || {
            let slab = a.slabs@[list[k].0 as int];
            slab.live() && home(a.slab_buckets, slab, i) && e == entry_of(slab)
        },
{
    if put_entry(a, list, k, i, e) {
        let y = choose|y: int|
            {
                let slab = a.slabs@[(#[trigger] list[y]).0 as int];
                &&& 0 <= y < k
                &&& slab.live()
                &&& home(a.slab_buckets, slab, i)
                &&& e == entry_of(slab)
            };
        assert(0 <= y < k + 1 && list[y] == list[y]);
    }
    if put_entry(a, list, k + 1, i, e) {
        let y = choose|y: int|
            {
                let slab = a.slabs@[(#[trigger] list[y]).0 as int];
                &&& 0 <= y < k + 1
                &&& slab.live()
                &&& home(a.slab_buckets, slab, i)
                &&& e == entry_of(slab)
            };
        assert(list[y] == list[y]);
    }
    let slab = a.slabs@[list[k].0 as int];
    if slab.live() && home(a.slab_buckets, slab, i) && e == entry_of(slab) {
        assert(list[k] == list[k]);
    }
}

proof fn lemma_put_skip(a: BlockAllocator, b: SlabAllocationBuckets, list: Seq<SlabId>, k: int)
    requires
        0 <= k < list.len(),
        put_so_far(a, b, list, k),
        !a.slabs@[list[k].0 as int].live(),
    ensures
        put_so_far(a, b, list, k + 1),
{
    assert forall|i: int, e: SlabBucketEntry| #[trigger]
        put_entry(a, list, k + 1, i, e) == put_entry(a, list, k, i, e) by {
        lemma_put_entry(a, list, k, i, e);
    }
    assert forall|i: int| 0 <= i < a.slab_buckets.len() implies #[trigger] put_bucket(
        a,
        b,
        list,
        k + 1,
        i,
    ) by {
        assert(put_bucket(a, b, list, k, i));
        let q = b.bucket(i);
        if q.last_allocated is Some {
            assert(put_entry(a, list, k + 1, i, q.last_allocated->0) == put_entry(
                a,
                list,
                k,
                i,
                q.last_allocated->0,
            ));
        }
    }
}

/// A slab was put into the bucket it belongs to.
pub open spec fn gained(a: SlabAllocationBuckets, b: SlabAllocationBuckets, slab: Slab) -> bool {
    exists|j: int| #[trigger]
        home(a, slab, j) && bucket_gained(a, b, j, slab.id) && b.bucket(j).been_through_once
            == a.bucket(j).been_through_once && b.bucket(j).last_allocated == Some(entry_of(slab))
            && forall|e: SlabBucketEntry|
            #[trigger] b.bucket(j).by_freeness@.contains(e) <==> a.bucket(
                j,
            ).by_freeness@.contains(e) || e == entry_of(slab)
}

proof fn lemma_put_step(
    a: BlockAllocator,
    b: SlabAllocationBuckets,
    c: SlabAllocationBuckets,
    list: Seq<SlabId>,
    k: int,
)
    requires
        0 <= k < list.len(),
        put_so_far(a, b, list, k),
        a.slabs@[list[k].0 as int].live(),
        gained(b, c, a.slabs@[list[k].0 as int]),
        a.slab_buckets.wf(),
    ensures
        put_so_far(a, c, list, k + 1),
{
    let slab = a.slabs@[list[k].0 as int];
    let j = choose|j: int| #[trigger]
        home(b, slab, j) && bucket_gained(
            b,
            c,
            j,
            slab.id,
        ) && c.bucket(j).been_through_once == b.bucket(
            j,
        ).been_through_once && c.bucket(j).last_allocated == Some(entry_of(slab))
            && forall|e: SlabBucketEntry|
            #[trigger] c.bucket(j).by_freeness@.contains(e)
                <==> b.bucket(j).by_freeness@.contains(e) || e == entry_of(slab);
    assert(put_bucket(a, b, list, k, j));
    assert(home(a.slab_buckets, slab, j));
    assert forall|i: int| 0 <= i < a.slab_buckets.len() implies #[trigger] put_bucket(
        a,
        c,
        list,
        k + 1,
        i,
    ) by {
        let p = a.slab_buckets.bucket(i);
        let q = c.bucket(i);
        assert(put_bucket(a, b, list, k, i));
        assert(c.size(i) == b.size(i));
        assert forall|e: SlabBucketEntry| #[trigger]
            put_entry(a, list, k + 1, i, e) == (put_entry(a, list, k, i, e) || i == j && e
                == entry_of(slab)) by {
            lemma_put_entry(a, list, k, i, e);
            if home(a.slab_buckets, slab, i) {
                crate::block_allocator::invariants::lemma_home_unique(
                    a.slab_buckets,
                    slab,
                    i,
                    j,
                );
            }
        }
        if i != j {
            assert(c.bucket(i) == b.bucket(i));
            if q.last_allocated is Some {
                assert(put_entry(a, list, k + 1, i, q.last_allocated->0) == put_entry(
                    a,
                    list,
                    k,
                    i,
                    q.last_allocated->0,
                ));
            }
        } else {
            assert(put_entry(a, list, k + 1, i, entry_of(slab)));
        }
    }
}

/// The smallest bucket that is large enough for the blocks of a slab is its own.
pub proof fn lemma_serves_home(buckets: SlabAllocationBuckets, slab: Slab, i: int, j: int)
    requires
        buckets.wf(),
        home(buckets, slab, i),
        buckets.serves(j, slab.spec_max_size() as int),
    ensures
        i == j,
{
    if j < i {
        assert(buckets.size(j) < buckets.size(i));
    } else if i < j {
        assert(buckets.size(i) < slab.spec_max_size());
    }
}

/// Puts a slab into the bucket it belongs to.
fn put_in_bucket(
    buckets: &mut SlabAllocationBuckets,
    slab: &Slab,
    m: Ghost<Map<int, Slab>>,
    ids: Ghost<Set<int>>,
    slab_size: Ghost<u32>,
)
    requires
        buckets_ok(*old(buckets), m@, ids@),
        sizes_ok(*old(buckets), slab_size@),
        m@.contains_key(slab.id.0 as int),
        m@[slab.id.0 as int] == *slab,
        slab.live(),
        slab.wf(),
        !ids@.contains(slab.id.0 as int),
        forall|y: int| #[trigger] m@.contains_key(y) ==> ids_match(m@, y),
    ensures
        buckets_ok(*final(buckets), m@, ids@.insert(slab.id.0 as int)),
        sizes_ok(*final(buckets), slab_size@),
        gained(*old(buckets), *final(buckets), *slab),
{
    let ghost a = *buckets;
    let ghost x = slab.id.0 as int;
    proof {
        reveal(buckets_ok);
        assert(m@.contains_key(x));
        let i = choose|i: int| #[trigger]
            home(a, m@[x], i) && (has_slab(a.bucket(i).by_freeness@, m@[x].id) <==> ids@.contains(
                x,
            ));
        assert(a.size(i) >= slab.spec_max_size());
    }
    let j = buckets.find(slab.max_size());
    let entry = slab.to_slab_bucket_entry();
    proof {
        reveal(buckets_ok);
        let i = choose|i: int| #[trigger]
            home(a, m@[x], i) && (has_slab(a.bucket(i).by_freeness@, m@[x].id) <==> ids@.contains(
                x,
            ));
        lemma_serves_home(a, *slab, i, j as int);
        assert(a.bucket(j as int).wf());
        slab.lemma_sizes();
    }
    buckets.buckets[j].1.insert(entry);
    proof {
        assert(entry == entry_of(*slab));
        let s = buckets.bucket(j as int).by_freeness@;
        assert(s.contains(entry));
        let y = choose|y: int| 0 <= y < s.len() && s[y] == entry;
        assert(s[y].slab_id == slab.id);
        assert(bucket_gained(a, *buckets, j as int, slab.id));
        assert(home(a, *slab, j as int));
        lemma_buckets_add(a, *buckets, m@, m@, ids@, slab.id, j as int, slab_size@);
    }
}

/// What the listed slabs of a disk have free is what is counted as not allocatable.
proof fn lemma_list_bytes(a: BlockAllocator, sa: SlabAllocator, d: int, list: Seq<SlabId>)
    requires
        a.wf(sa),
        a.exact(),
        a.per_disk_stats@.contains_key(d),
        a.noalloc_state@.contains_key(d),
        a.noalloc_state@[d]@ == list,
        distinct(list),
        forall|x: int| 0 <= x < list.len() ==> a.on_disk(#[trigger] list[x], d),
    ensures
        sum_list(a.slabs@, list, free_on(d)) == a.per_disk_stats@[d].noalloc_bytes,
{
    reveal(BlockAllocator::owned_ok);
    reveal(noalloc_exact);
    reveal(stats_ok);
    let m = a.slabs@;
    let n = sa.access.next_slab_id.0 as int;
    if a.is_blocked(d) {
        assert forall|x: int| 0 <= x < list.len() implies m.contains_key(
            (#[trigger] list[x]).0 as int,
        ) && list[x].0 < n by {
            assert(a.on_disk(list[x], d));
            let y = list[x].0 as int;
            assert(slab_ok(sa.access, m[y], y));
            sa.access.lemma_id_below_next(list[x]);
        }
        assert forall|k: int| #[trigger] m.contains_key(k) implies free_on(d)(m[k]) == 0 || (0 <= k
            <= u64::MAX && list.contains(SlabId(k as u64))) by {
            assert(slab_ok(sa.access, m[k], k));
            if m[k].disk() == d {
                reveal(noalloc_ok);
                assert(a.noalloc_state@[d]@.contains(m[k].id));
                assert(m[k].id == SlabId(k as u64));
            }
        }
        lemma_sum_list(m, list, n, free_on(d));
    } else {
        lemma_sum_list_none(m, list, free_on(d), d);
    }
}

proof fn lemma_sum_list_none(
    m: Map<int, Slab>,
    list: Seq<SlabId>,
    f: spec_fn(Slab) -> int,
    d: int,
)
    requires
        f == free_on(d),
        forall|x: int| 0 <= x < list.len() ==> !m[(#[trigger] list[x]).0 as int].live(),
    ensures
        sum_list(m, list, f) == 0,
    decreases list.len(),
{
    if list.len() > 0 {
        let t = list.drop_last();
        assert forall|x: int| 0 <= x < t.len() implies !m[(#[trigger] t[x]).0 as int].live() by {
            assert(t[x] == list[x]);
        }
        lemma_sum_list_none(m, t, f, d);
        let s = m[list[list.len() - 1].0 as int];
        assert(s.free_bytes() =~= Set::<int>::empty());
    }
}

/// A sum over the first slabs of a list is at most the sum over the list.
proof fn lemma_prefix_sum(
    m: Map<int, Slab>,
    list: Seq<SlabId>,
    k: int,
    f: spec_fn(Slab) -> int,
)
    requires
        0 <= k <= list.len(),
        forall|x: int| 0 <= x < list.len() ==> 0 <= f(m[(#[trigger] list[x]).0 as int]),
    ensures
        sum_list(m, list.take(k), f) <= sum_list(m, list, f),
    decreases list.len() - k,
{
    if k < list.len() {
        lemma_prefix_sum(m, list, k + 1, f);
        assert(list.take(k + 1) =~= list.take(k).push(list[k]));
        lemma_sum_list_push(m, list.take(k), list[k], f);
    } else {
        assert(list.take(k) =~= list);
    }
}

/// All is well after the slabs of a disk were put back.
proof fn lemma_unmarked(
    a: BlockAllocator,
    b: BlockAllocator,
    sa: SlabAllocator,
    d: int,
    kept: Seq<SlabId>,
)
    requires
        a.wf(sa),
        a.exact(),
        a.aside@ == Set::<int>::empty(),
        a.per_disk_stats@.contains_key(d),
        a.noalloc_state@.contains_key(d),
        b == (BlockAllocator {
            noalloc_state: b.noalloc_state,
            slab_buckets: b.slab_buckets,
            per_disk_stats: b.per_disk_stats,
            ..a
        }),
        b.noalloc_state@.remove(d) == a.noalloc_state@.remove(d),
        distinct(kept),
        forall|id: SlabId|
            #[trigger] kept.contains(id) <==> a.noalloc_state@[d]@.contains(id)
                && !a.slabs@[id.0 as int].live(),
        b.noalloc_state@.contains_key(d) <==> kept.len() > 0,
        b.noalloc_state@.contains_key(d) ==> b.noalloc_state@[d]@ == kept,
        buckets_ok(
            b.slab_buckets,
            a.slabs@,
            a.inside().union(
                put_ids(
                    a.slabs@,
                    a.noalloc_state@[d]@,
                    a.noalloc_state@[d]@.len() as int,
                ),
            ),
        ),
        sizes_ok(b.slab_buckets, a.slab_size),
        b.per_disk_stats@ == a.per_disk_stats@.insert(
            d,
            DiskStats { noalloc_bytes: 0, ..a.per_disk_stats@[d] },
        ),
    ensures
        b.wf(sa),
        b.exact(),
        !b.is_blocked(d),
        forall|x: int| x != d ==> #[trigger] b.is_blocked(x) == a.is_blocked(x),
{
    let m = a.slabs@;
    let na = a.noalloc_state@;
    let nb = b.noalloc_state@;
    let list = na[d]@;
    reveal(BlockAllocator::owned_ok);
    assert forall|x: int| x != d implies (#[trigger] nb.contains_key(x) == na.contains_key(x)) && (
    na.contains_key(x) ==> nb[x] == na[x]) by {
        assert(nb.remove(d).contains_key(x) == nb.contains_key(x));
        assert(na.remove(d).contains_key(x) == na.contains_key(x));
        if na.contains_key(x) {
            assert(na.remove(d)[x] == nb.remove(d)[x]);
        }
    }
    assert forall|x: int| x != d implies #[trigger] b.is_blocked(x) == a.is_blocked(x) by {
        assert(nb.contains_key(x) == na.contains_key(x));
    }
    assert(!b.is_blocked(d)) by {
        if b.is_blocked(d) {
            let k = choose|k: int|
                0 <= k < nb[d]@.len() && m[(#[trigger] nb[d]@[k]).0 as int].live();
            assert(kept.contains(kept[k]));
        }
    }
    assert(noalloc_ok(nb, b.evacuating_slabs@, m)) by {
        reveal(noalloc_ok);
        assert forall|x: int, k: int| nb.contains_key(x) && 0 <= k < nb[x]@.len() implies ({
            &&& m.contains_key((#[trigger] nb[x]@[k]).0 as int)
            &&& m[nb[x]@[k].0 as int].disk() == x
        }) by {
            if x == d {
                assert(kept.contains(kept[k]));
                let y = choose|y: int| 0 <= y < list.len() && list[y] == kept[k];
                assert(m.contains_key(na[d]@[y].0 as int));
            } else {
                assert(nb.contains_key(x) == na.contains_key(x));
                assert(m.contains_key(na[x]@[k].0 as int));
            }
        }
        assert forall|id: int|
            #[trigger] m.contains_key(id) && nb.contains_key(m[id].disk()) && (!m[id].live()
                || blocked(nb, m, m[id].disk())) implies nb[m[id].disk()]@.contains(m[id].id) by {
            assert(slab_ok(sa.access, m[id], id));
            if m[id].disk() == d {
                assert(na[d]@.contains(m[id].id));
                assert(kept.contains(m[id].id));
            } else {
                assert(b.is_blocked(m[id].disk()) == a.is_blocked(m[id].disk()));
            }
        }
    }
    let ids = a.inside().union(put_ids(m, list, list.len() as int));
    assert forall|x: int| #[trigger] m.contains_key(x) && m[x].live() implies (ids.contains(x)
        <==> b.inside().contains(x)) by {
        assert(slab_ok(sa.access, m[x], x));
        if m[x].disk() == d {
            if a.is_blocked(d) {
                reveal(noalloc_ok);
                assert(na[d]@.contains(m[x].id));
                let y = choose|y: int| 0 <= y < list.len() && list[y] == m[x].id;
                assert(list[y].0 == x);
            }
        } else {
            assert(b.is_blocked(m[x].disk()) == a.is_blocked(m[x].disk()));
            if put_ids(m, list, list.len() as int).contains(x) {
                let y = choose|y: int|
                    0 <= y < list.len() && (#[trigger] list[y]).0 == x && m[x].live();
                reveal(noalloc_ok);
                assert(m[na[d]@[y].0 as int].disk() == d);
            }
        }
    }
    lemma_buckets_live(b.slab_buckets, m, ids, b.inside());
    assert(stats_ok(b.per_disk_stats@, m, sa.access.next_slab_id.0 as int)) by {
        reveal(stats_ok);
    }
    assert(b.exact()) by {
        reveal(noalloc_exact);
        assert forall|x: int| #[trigger] b.per_disk_stats@.contains_key(
            x,
        ) implies b.per_disk_stats@[x].noalloc_bytes == if blocked(nb, m, x) {
            b.per_disk_stats@[x].free_bytes
        } else {
            0
        } by {
            assert(a.per_disk_stats@.contains_key(x));
            if x != d {
                assert(b.is_blocked(x) == a.is_blocked(x));
            }
        }
    }
}

/// What is free on the disk, but not counted yet as not allocatable, is what is added.
#[verifier::spinoff_prover]
#[verifier::rlimit(40)]
proof fn lemma_marked_bytes(
    a: BlockAllocator,
    sa: SlabAllocator,
    d: int,
    l0: Seq<SlabId>,
    list: Seq<SlabId>,
    bytes: int,
)
    requires
        a.wf(sa),
        a.exact(),
        a.per_disk_stats@.contains_key(d),
        l0 == if a.noalloc_state@.contains_key(d) {
            a.noalloc_state@[d]@
        } else {
            Seq::empty()
        },
        distinct(list),
        forall|id: SlabId| #[trigger] list.contains(id) <==> a.on_disk(id, d),
        l0.len() <= list.len(),
        list.take(l0.len() as int) == l0,
        bytes == sum_list(a.slabs@, list.skip(l0.len() as int), free_on(d)),
    ensures
        a.per_disk_stats@[d].noalloc_bytes + bytes == a.per_disk_stats@[d].free_bytes,
{
    reveal(BlockAllocator::owned_ok);
    reveal(noalloc_exact);
    reveal(stats_ok);
    let m = a.slabs@;
    let n = sa.access.next_slab_id.0 as int;
    let added = list.skip(l0.len() as int);
    assert forall|x: int, y: int| 0 <= x < y < added.len() implies added[x] != added[y] by {
        assert(added[x] == list[l0.len() + x]);
        assert(added[y] == list[l0.len() + y]);
    }
    assert forall|x: int| 0 <= x < added.len() implies m.contains_key(
        (#[trigger] added[x]).0 as int,
    ) && added[x].0 < n by {
        assert(added[x] == list[l0.len() + x]);
        assert(list.contains(added[x]));
        let y = added[x].0 as int;
        assert(slab_ok(sa.access, m[y], y));
        sa.access.lemma_id_below_next(added[x]);
    }
    lemma_sum_list(m, added, n, free_on(d));
    if a.is_blocked(d) {
        if added.len() > 0 {
            let x = 0int;
            assert(added[x] == list[l0.len() + x]);
            assert(list.contains(added[x]));
            let id = added[x];
            assert(a.on_disk(id, d));
            reveal(noalloc_ok);
            let y = id.0 as int;
            assert(slab_ok(sa.access, m[y], y));
            assert(m.contains_key(y));
            assert(a.noalloc_state@[d]@.contains(m[y].id));
            let z = choose|z: int| 0 <= z < l0.len() && l0[z] == id;
            assert(list.take(l0.len() as int)[z] == list[z]);
            assert(list[z] != list[l0.len() + x]);
        }
        assert(added.len() == 0);
    } else {
        assert forall|k: int| #[trigger] m.contains_key(k) implies free_on(d)(m[k]) == 0 || (0 <= k
            <= u64::MAX && added.contains(SlabId(k as u64))) by {
            assert(slab_ok(sa.access, m[k], k));
            let id = SlabId(k as u64);
            if m[k].disk() == d && m[k].live() {
                assert(a.on_disk(id, d));
                assert(list.contains(id));
                let z = choose|z: int| 0 <= z < list.len() && list[z] == id;
                if z < l0.len() {
                    assert(list.take(l0.len() as int)[z] == id);
                    assert(l0[z] == id);
                    assert(a.noalloc_state@[d]@[z] == id);
                    assert(m[a.noalloc_state@[d]@[z].0 as int].live());
                }
                assert(added[z - l0.len()] == id);
            } else if m[k].disk() == d {
                assert(m[k].free_bytes() =~= Set::<int>::empty());
            }
        }
    }
}

/// All is well after the slabs of a disk were put aside.
proof fn lemma_marked(
    a: BlockAllocator,
    b: BlockAllocator,
    sa: SlabAllocator,
    d: int,
    list: Seq<SlabId>,
)
    requires
        a.wf(sa),
        a.exact(),
        a.aside@ == Set::<int>::empty(),
        a.per_disk_stats@.contains_key(d),
        b == (BlockAllocator {
            noalloc_state: b.noalloc_state,
            slab_buckets: b.slab_buckets,
            per_disk_stats: b.per_disk_stats,
            ..a
        }),
        b.noalloc_state@.remove(d) == a.noalloc_state@.remove(d),
        distinct(list),
        forall|id: SlabId| #[trigger] list.contains(id) <==> a.on_disk(id, d),
        b.noalloc_state@.contains_key(d) <==> list.len() > 0,
        b.noalloc_state@.contains_key(d) ==> b.noalloc_state@[d]@ == list,
        b.slab_buckets.len() == a.slab_buckets.len(),
        forall|i: int|
            0 <= i < a.slab_buckets.len() ==> {
                &&& #[trigger] b.slab_buckets.size(i) == a.slab_buckets.size(i)
                &&& without_disk(
                    a.slabs@,
                    d,
                    a.slab_buckets.bucket(i),
                    b.slab_buckets.bucket(i),
                )
            },
        b.per_disk_stats@ == a.per_disk_stats@.insert(
            d,
            DiskStats {
                noalloc_bytes: a.per_disk_stats@[d].free_bytes,
                ..a.per_disk_stats@[d]
            },
        ),
    ensures
        b.wf(sa),
        b.exact(),
        forall|x: int| x != d ==> #[trigger] b.is_blocked(x) == a.is_blocked(x),
{
    let m = a.slabs@;
    let na = a.noalloc_state@;
    let nb = b.noalloc_state@;
    reveal(BlockAllocator::owned_ok);
    assert forall|x: int| x != d implies (#[trigger] nb.contains_key(x) == na.contains_key(x)) && (
    na.contains_key(x) ==> nb[x] == na[x]) by {
        assert(nb.remove(d).contains_key(x) == nb.contains_key(x));
        assert(na.remove(d).contains_key(x) == na.contains_key(x));
        assert(na.remove(d)[x] == nb.remove(d)[x]);
    }
    assert forall|x: int| x != d implies #[trigger] b.is_blocked(x) == a.is_blocked(x) by {
        assert(nb.contains_key(x) == na.contains_key(x));
    }
    assert(noalloc_ok(nb, b.evacuating_slabs@, m)) by {
        reveal(noalloc_ok);
        assert forall|x: int, k: int| nb.contains_key(x) && 0 <= k < nb[x]@.len() implies ({
            &&& m.contains_key((#[trigger] nb[x]@[k]).0 as int)
            &&& m[nb[x]@[k].0 as int].disk() == x
        }) by {
            if x == d {
                assert(list.contains(list[k]));
            } else {
                assert(nb.contains_key(x) == na.contains_key(x));
                assert(m.contains_key(na[x]@[k].0 as int));
            }
        }
        assert forall|id: int|
            #[trigger] m.contains_key(id) && nb.contains_key(m[id].disk()) && (!m[id].live()
                || blocked(nb, m, m[id].disk())) implies nb[m[id].disk()]@.contains(m[id].id) by {
            assert(slab_ok(sa.access, m[id], id));
            if m[id].disk() == d {
                assert(a.on_disk(m[id].id, d));
            } else {
                assert(b.is_blocked(m[id].disk()) == a.is_blocked(m[id].disk()));
            }
        }
    }
    let gone = Set::new(|id: int| m.contains_key(id) && m[id].disk() == d);
    assert forall|x: int| #[trigger] m.contains_key(x) implies ids_match(m, x) by {
        assert(slab_ok(sa.access, m[x], x));
    }
    assert forall|i: int| 0 <= i < a.slab_buckets.len() implies ({
        &&& #[trigger] b.slab_buckets.size(i) == a.slab_buckets.size(i)
        &&& b.slab_buckets.bucket(i).is_extent_based == a.slab_buckets.bucket(i).is_extent_based
        &&& b.slab_buckets.bucket(i).wf()
        &&& forall|e: SlabBucketEntry|
            #[trigger] b.slab_buckets.bucket(i).by_freeness@.contains(e)
                <==> a.slab_buckets.bucket(i).by_freeness@.contains(e) && !gone.contains(
                e.slab_id.0 as int,
            )
    }) by {
        let s = a.slab_buckets.bucket(i).by_freeness@;
        assert(b.slab_buckets.size(i) == a.slab_buckets.size(i));
        assert(without_disk(m, d, a.slab_buckets.bucket(i), b.slab_buckets.bucket(i)));
        assert forall|e: SlabBucketEntry|
            #[trigger] b.slab_buckets.bucket(i).by_freeness@.contains(e) <==> s.contains(e)
                && !gone.contains(e.slab_id.0 as int) by {
            if s.contains(e) {
                reveal(buckets_ok);
                let k = choose|k: int| 0 <= k < s.len() && s[k] == e;
                assert(m.contains_key(a.slab_buckets.bucket(i).by_freeness@[k].slab_id.0 as int));
            }
        }
    }
    lemma_buckets_less(a.slab_buckets, b.slab_buckets, m, a.inside(), gone, a.slab_size);
    assert forall|x: int| #[trigger] m.contains_key(x) && m[x].live() implies (
    a.inside().difference(gone).contains(x) <==> b.inside().contains(x)) by {
        assert(slab_ok(sa.access, m[x], x));
        if m[x].disk() == d {
            assert(a.on_disk(m[x].id, d));
            assert(list.contains(m[x].id));
            let k = choose|k: int| 0 <= k < list.len() && list[k] == m[x].id;
            assert(nb[d]@[k] == m[x].id);
            assert(m[nb[d]@[k].0 as int].live());
            assert(b.is_blocked(d));
        } else {
            assert(b.is_blocked(m[x].disk()) == a.is_blocked(m[x].disk()));
        }
    }
    lemma_buckets_live(b.slab_buckets, m, a.inside().difference(gone), b.inside());
    assert(stats_ok(b.per_disk_stats@, m, sa.access.next_slab_id.0 as int)) by {
        reveal(stats_ok);
    }
    assert(b.exact()) by {
        reveal(noalloc_exact);
        assert forall|x: int| #[trigger] b.per_disk_stats@.contains_key(
            x,
        ) implies b.per_disk_stats@[x].noalloc_bytes == if blocked(nb, m, x) {
            b.per_disk_stats@[x].free_bytes
        } else {
            0
        } by {
            assert(a.per_disk_stats@.contains_key(x));
            if x == d {
                if !b.is_blocked(d) {
                    lemma_nothing_free(a, b, sa, d, list);
                }
            } else {
                assert(b.is_blocked(x) == a.is_blocked(x));
            }
        }
    }
}

/// A disk without slabs in use has no free space in its slabs.
proof fn lemma_nothing_free(
    a: BlockAllocator,
    b: BlockAllocator,
    sa: SlabAllocator,
    d: int,
    list: Seq<SlabId>,
)
    requires
        a.wf(sa),
        a.per_disk_stats@.contains_key(d),
        forall|id: SlabId| #[trigger] list.contains(id) <==> a.on_disk(id, d),
        b.slabs@ == a.slabs@,
        b.noalloc_state@.contains_key(d) <==> list.len() > 0,
        b.noalloc_state@.contains_key(d) ==> b.noalloc_state@[d]@ == list,
        !b.is_blocked(d),
    ensures
        a.per_disk_stats@[d].free_bytes == 0,
{
    reveal(BlockAllocator::owned_ok);
    reveal(stats_ok);
    let m = a.slabs@;
    assert forall|k: int| #[trigger] m.contains_key(k) implies free_on(d)(m[k]) == 0 by {
        assert(slab_ok(sa.access, m[k], k));
        if m[k].disk() == d {
            let id = m[k].id;
            assert(a.on_disk(id, d));
            assert(list.contains(id));
            let z = choose|z: int| 0 <= z < list.len() && list[z] == id;
            assert(b.noalloc_state@[d]@[z] == id);
            if m[k].live() {
                assert(m[b.noalloc_state@[d]@[z].0 as int].live());
            }
            assert(m[k].free_bytes() =~= Set::<int>::empty());
        }
    }
    crate::block_allocator::lemma_sum_none(m, sa.access.next_slab_id.0 as int, free_on(d));
}

/// When nothing is to be allocated from a disk any more, its slabs are in no bucket, all others
/// stay in theirs, and no bucket goes on with a slab of that disk.
pub proof fn law_bucket_without_disk(
    m: Map<int, Slab>,
    d: int,
    a: SlabBucket,
    b: SlabBucket,
    e: SlabBucketEntry,
)
    requires
        without_disk(m, d, a, b),
    ensures
        m[e.slab_id.0 as int].disk() == d ==> !b.by_freeness@.contains(e),
        m[e.slab_id.0 as int].disk() != d ==> (b.by_freeness@.contains(e)
            <==> a.by_freeness@.contains(e)),
        b.last_allocated matches Some(last) ==> m[last.slab_id.0 as int].disk() != d,
        a.last_allocated == Some(e) && m[e.slab_id.0 as int].disk() != d ==> b.last_allocated
            == Some(e),
        b.is_extent_based == a.is_extent_based,
{
}

/// When a disk is used again, each of its slabs that was not emptied is in its bucket again, with
/// what is in use of it; and the buckets have nothing else than before.
pub proof fn law_put_back_in_bucket(
    a: BlockAllocator,
    b: BlockAllocator,
    d: int,
    k: int,
    i: int,
    e: SlabBucketEntry,
)
    requires
        put_back(a, b, d),
        a.noalloc_state@.contains_key(d),
        0 <= k < a.noalloc_state@[d]@.len(),
        0 <= i < a.slab_buckets.len(),
    ensures
        ({
            let slab = a.slabs@[a.noalloc_state@[d]@[k].0 as int];
            slab.live() && home(a.slab_buckets, slab, i) ==> b.slab_buckets.bucket(
                i,
            ).by_freeness@.contains(
                SlabBucketEntry {
                    allocated_space: slab.allocated_bytes().len() as u64,
                    slab_id: slab.id,
                },
            )
        }),
        a.slab_buckets.bucket(i).by_freeness@.contains(e) ==> b.slab_buckets.bucket(
            i,
        ).by_freeness@.contains(e),
        b.slab_buckets.bucket(i).by_freeness@.contains(e) ==> a.slab_buckets.bucket(
            i,
        ).by_freeness@.contains(e) || exists|y: int|
            0 <= y < a.noalloc_state@[d]@.len() && e.slab_id == a.slabs@[(
            #[trigger] a.noalloc_state@[d]@[y]).0 as int].id,
{
    let list = a.noalloc_state@[d]@;
    let n = list.len() as int;
    assert(put_bucket(a, b.slab_buckets, list, n, i));
    let slab = a.slabs@[list[k].0 as int];
    if slab.live() && home(a.slab_buckets, slab, i) {
        assert(put_entry(a, list, n, i, entry_of(slab)));
    }
    if put_entry(a, list, n, i, e) {
        let y = choose|y: int|
            {
                let slab = a.slabs@[(#[trigger] list[y]).0 as int];
                &&& 0 <= y < n
                &&& slab.live()
                &&& home(a.slab_buckets, slab, i)
                &&& e == entry_of(slab)
            };
        assert(e.slab_id == a.slabs@[list[y].0 as int].id);
    }
}

} // verus!
