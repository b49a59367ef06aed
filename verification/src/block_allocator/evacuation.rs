//! Which slabs are evacuated, and the start and the end of evacuating them.
use crate::base_types::{DiskId, DiskLocation, Extent};
use crate::block_allocator::buckets::{
    before, has_slab, one_each, ordered, SlabAllocationBuckets, SlabBucket, SlabBucketEntry,
};
use crate::block_allocator::flush::entry_of;
use crate::block_allocator::invariants::{
    buckets_ok, distinct, home, ids_match, inside, lemma_buckets_less, lemma_sum_fits, noalloc_ok,
    same_state,
};
use crate::block_allocator::rebalance::{
    moved_with, newly_in, same_sizes_and_kinds, slab_moved, RemapTable,
};
use crate::block_allocator::removal::{lemma_serves_home, lemma_sum_list, sum_list};
use crate::block_allocator::slab::{Slab, SlabEnum};
use crate::block_allocator::slabs::{indexable, slab_ok, slabs_ok};
use crate::block_allocator::BlockAllocator;
use crate::slab_allocator::{SlabAllocator, SlabId};
use crate::space_map::extent_bytes;
use vstd::prelude::*;

verus! {

/// The bucket that a slab belongs to.
pub open spec fn home_of(buckets: SlabAllocationBuckets, slab: Slab) -> int {
    choose|i: int| home(buckets, slab, i)
}

/// The slabs that are picked in turn, and what is left of the budgets of the buckets. A slab is
/// picked if the slabs of its bucket have enough free space for all that it can hold; picking it
/// uses that up.
pub open spec fn pick(
    m: Map<int, Slab>,
    buckets: SlabAllocationBuckets,
    entries: Seq<SlabBucketEntry>,
    budgets: Seq<int>,
) -> (Seq<SlabId>, Seq<int>)
    decreases entries.len(),
{
    if entries.len() == 0 {
        (Seq::empty(), budgets)
    } else {
        let (ids, left) = pick(m, buckets, entries.drop_last(), budgets);
        let id = entries.last().slab_id;
        let slab = m[id.0 as int];
        let j = home_of(buckets, slab);
        let capacity = slab.whole().len() as int;
        if left[j] >= capacity {
            (ids.push(id), left.update(j, left[j] - capacity))
        } else {
            (ids, left)
        }
    }
}

/// The free space of the slabs of a bucket.
pub open spec fn bucket_free(m: Map<int, Slab>, entries: Seq<SlabBucketEntry>) -> int
    decreases entries.len(),
{
    if entries.len() == 0 {
        0
    } else {
        bucket_free(m, entries.drop_last()) + m[entries.last().slab_id.0 as int].free_bytes().len()
    }
}

/// The free space of all buckets.
pub open spec fn budgets_of(m: Map<int, Slab>, buckets: SlabAllocationBuckets) -> Seq<int> {
    Seq::new(
        buckets.len() as nat,
        |i: int| bucket_free(m, buckets.bucket(i).by_freeness@),
    )
}

/// More entries add picks at the end.
proof fn lemma_pick_prefix(
    m: Map<int, Slab>,
    buckets: SlabAllocationBuckets,
    entries: Seq<SlabBucketEntry>,
    budgets: Seq<int>,
    k: int,
)
    requires
        0 <= k <= entries.len(),
    ensures
        pick(m, buckets, entries.take(k), budgets).0.len() <= pick(
            m,
            buckets,
            entries,
            budgets,
        ).0.len(),
        pick(m, buckets, entries.take(k), budgets).0 == pick(m, buckets, entries, budgets).0.take(
            pick(m, buckets, entries.take(k), budgets).0.len() as int,
        ),
    decreases entries.len() - k,
{
    let p = pick(m, buckets, entries.take(k), budgets).0;
    if k < entries.len() {
        lemma_pick_prefix(m, buckets, entries, budgets, k + 1);
        let q = pick(m, buckets, entries.take(k + 1), budgets).0;
        assert(entries.take(k + 1).drop_last() =~= entries.take(k));
        assert(q.take(p.len() as int) =~= p);
        let all = pick(m, buckets, entries, budgets).0;
        assert(all.take(p.len() as int) =~= all.take(q.len() as int).take(p.len() as int));
    } else {
        assert(entries.take(k) =~= entries);
        assert(p.take(p.len() as int) =~= p);
    }
}

impl BlockAllocator {
    /// Whether a slab may be evacuated to gain free slabs: it is in use, and its disk is not
    /// being removed.
    pub open spec fn eligible(&self, id: SlabId) -> bool {
        let x = id.0 as int;
        &&& self.slabs@.contains_key(x)
        &&& self.slabs@[x].live()
        &&& !self.noalloc_state@.contains_key(self.slabs@[x].disk())
    }

    /// The entries of all slabs that may be evacuated, in order.
    pub open spec fn candidates(&self, entries: Seq<SlabBucketEntry>) -> bool {
        &&& ordered(entries)
        &&& one_each(entries)
        &&& forall|e: SlabBucketEntry|
            #[trigger] entries.contains(e) <==> self.eligible(e.slab_id) && e == entry_of(
                self.slabs@[e.slab_id.0 as int],
            )
    }

    /// The slabs that are evacuated to gain `n` free slabs: those with the most free space first,
    /// as long as their bucket has room for what they hold.
    pub open spec fn picked(&self, n: int, ids: Seq<SlabId>) -> bool {
        exists|entries: Seq<SlabBucketEntry>| #[trigger]
            self.candidates(entries) && {
                let all = pick(
                    self.slabs@,
                    self.slab_buckets,
                    entries,
                    budgets_of(self.slabs@, self.slab_buckets),
                ).0;
                ids == if n < all.len() {
                    all.take(n)
                } else {
                    all
                }
            }
    }

    /// The free space of the slabs of a bucket.
    fn free_in_bucket(&self, sa: &SlabAllocator, i: usize) -> (r: u64)
        requires
            self.wf(*sa),
            i < self.slab_buckets.len(),
        ensures
            r == bucket_free(self.slabs@, self.slab_buckets.bucket(i as int).by_freeness@),
    {
        let ghost m = self.slabs@;
        let bucket = &self.slab_buckets.buckets[i].1;
        let ghost s = bucket.by_freeness@;
        let ghost f = |slab: Slab| slab.free_bytes().len() as int;
        let ghost access = sa.access;
        proof {
            reveal(BlockAllocator::owned_ok);
            reveal(buckets_ok);
            assert(self.slab_buckets.bucket(i as int) == *bucket);
            assert(self.slab_buckets.bucket(i as int).wf());
            assert(s.take(0) =~= Seq::<SlabBucketEntry>::empty());
        }
        let mut total: u64 = 0;
        let mut k: usize = 0;
        while k < bucket.by_freeness.len()
            invariant
                k <= bucket.by_freeness@.len(),
                s == bucket.by_freeness@,
                m == self.slabs@,
                access == sa.access,
                access.wf(),
                indexable(access),
                slabs_ok(access, m),
                self.wf(*sa),
                i < self.slab_buckets.len(),
                self.slab_buckets.bucket(i as int) == *bucket,
                one_each(s),
                f == |slab: Slab| slab.free_bytes().len() as int,
                total == bucket_free(m, s.take(k as int)),
            decreases bucket.by_freeness@.len() - k,
        {
            let id = bucket.by_freeness[k].slab_id;
            proof {
                assert(s.take(k + 1).drop_last() =~= s.take(k as int));
                lemma_bucket_free_fits(*self, *sa, i as int, k + 1);
                reveal(buckets_ok);
                assert(self.slab_buckets.bucket(i as int).by_freeness@[k as int] == s[k as int]);
                assert(slab_ok(access, m[id.0 as int], id.0 as int));
                access.lemma_id_below_next(id);
            }
            total = total + self.slabs.get(id).free_space();
            k += 1;
        }
        assert(s.take(s.len() as int) =~= s);
        total
    }

    /// The slabs to evacuate so that enough slabs are free; `target_available` is how many
    /// should be, beyond those that are reserved.
    pub fn slabs_to_rebalance(&self, sa: &SlabAllocator, target_available: u64) -> (r: Vec<SlabId>)
        requires
            self.wf(*sa),
            sa.reserved_slabs + target_available <= u64::MAX,
        ensures
            ({
                let target = sa.reserved_slabs + target_available;
                let current = sa.allocatable@.len() + sa.freeing@.len();
                if target > current {
                    self.picked(target - current, r@)
                } else {
                    r@.len() == 0
                }
            }),
            distinct(r@),
            forall|i: int| 0 <= i < r@.len() ==> self.eligible(#[trigger] r@[i]),
    {
        proof {
            reveal(BlockAllocator::owned_ok);
        }
        let n = sa.num_slabs_to_evacuate(target_available);
        let mut r: Vec<SlabId> = Vec::new();
        if n == 0 {
            return r;
        }
        let ghost m = self.slabs@;
        let ghost access = sa.access;
        proof {
            reveal(BlockAllocator::owned_ok);
        }
        let mut budgets: Vec<u64> = Vec::new();
        let mut i: usize = 0;
        while i < self.slab_buckets.buckets.len()
            invariant
                i <= self.slab_buckets.buckets@.len(),
                self.wf(*sa),
                m == self.slabs@,
                budgets@.len() == i,
                forall|k: int|
                    0 <= k < i ==> #[trigger] budgets@[k] == bucket_free(
                        m,
                        self.slab_buckets.bucket(k).by_freeness@,
                    ),
            decreases self.slab_buckets.buckets@.len() - i,
        {
            let free = self.free_in_bucket(sa, i);
            budgets.push(free);
            i += 1;
        }
        let entries = self.candidate_entries(sa);
        let ghost b0 = budgets_of(m, self.slab_buckets);
        let ghost mut left = b0;
        let mut k: usize = 0;
        proof {
            assert(entries@.take(0) =~= Seq::<SlabBucketEntry>::empty());
            assert forall|j: int| 0 <= j < budgets@.len() implies #[trigger] budgets@[j]
                == left[j] by {}
        }
        while k < entries.len() && (r.len() as u64) < n
            invariant
                k <= entries@.len(),
                self.wf(*sa),
                m == self.slabs@,
                access == sa.access,
                indexable(access),
                slabs_ok(access, m),
                self.candidates(entries@),
                b0 == budgets_of(m, self.slab_buckets),
                pick(m, self.slab_buckets, entries@.take(k as int), b0) == (r@, left),
                budgets@.len() == self.slab_buckets.len(),
                left.len() == budgets@.len(),
                forall|j: int| 0 <= j < budgets@.len() ==> #[trigger] budgets@[j] == left[j],
                r@.len() <= n,
                forall|x: int|
                    0 <= x < r@.len() ==> self.eligible(#[trigger] r@[x]) && exists|y: int|
                        0 <= y < k && (#[trigger] entries@[y]).slab_id == r@[x],
                distinct(r@),
            decreases entries@.len() - k,
        {
            let id = entries[k].slab_id;
            let ghost x = id.0 as int;
            let ghost r0 = r@;
            proof {
                assert(entries@.contains(entries@[k as int]));
                assert(self.eligible(id));
                assert(slab_ok(access, m[x], x));
                access.lemma_id_below_next(id);
                assert(exists|j: int| home(self.slab_buckets, m[x], j)) by {
                    reveal(buckets_ok);
                    assert(m.contains_key(x));
                }
                assert(home(self.slab_buckets, m[x], home_of(self.slab_buckets, m[x])));
                assert(self.slab_buckets.size(home_of(self.slab_buckets, m[x]))
                    >= m[x].spec_max_size());
            }
            let slab = self.slabs.get(id);
            let j = self.slab_buckets.find(slab.max_size());
            proof {
                assert(self.slab_buckets.wf()) by {
                    reveal(buckets_ok);
                }
                lemma_serves_home(
                    self.slab_buckets,
                    m[x],
                    home_of(self.slab_buckets, m[x]),
                    j as int,
                );
                assert(entries@.take(k + 1).drop_last() =~= entries@.take(k as int));
                assert(entries@.take(k + 1).last() == entries@[k as int]);
            }
            let capacity = slab.capacity_bytes();
            let budget: u64 = budgets[j];
            // Without enough free space in the bucket the slab is skipped, so that allocating
            // places for its contents does not fail.
            if budget >= capacity {
                budgets.set(j, budget - capacity);
                r.push(id);
                proof {
                    left = left.update(j as int, left[j as int] - capacity);
                    assert forall|y: int, z: int| 0 <= y < z < r@.len() implies r@[y] != r@[z] by {
                        if z == r0.len() {
                            let w = choose|w: int|
                                0 <= w < k && (#[trigger] entries@[w]).slab_id == r0[y];
                            assert(entries@[w].slab_id != entries@[k as int].slab_id);
                        }
                    }
                    assert forall|y: int| 0 <= y < r@.len() implies self.eligible(#[trigger] r@[y])
                        && exists|z: int|
                        0 <= z < k + 1 && (#[trigger] entries@[z]).slab_id == r@[y] by {
                        if y < r0.len() {
                            assert(r@[y] == r0[y]);
                            let w = choose|w: int|
                                0 <= w < k && (#[trigger] entries@[w]).slab_id == r0[y];
                            assert(entries@[w].slab_id == r@[y]);
                        } else {
                            assert(entries@[k as int].slab_id == r@[y]);
                        }
                    }
                }
            }
            k += 1;
        }
        proof {
            let all = pick(m, self.slab_buckets, entries@, b0).0;
            lemma_pick_prefix(m, self.slab_buckets, entries@, b0, k as int);
            assert(entries@.take(entries@.len() as int) =~= entries@);
            assert(r@ =~= if n < all.len() {
                all.take(n as int)
            } else {
                all
            });
            assert(self.candidates(entries@));
        }
        r
    }

    /// The entries of the slabs that may be evacuated, in order.
    fn candidate_entries(&self, sa: &SlabAllocator) -> (r: Vec<SlabBucketEntry>)
        requires
            self.wf(*sa),
        ensures
            self.candidates(r@),
    {
        let ghost m = self.slabs@;
        let ghost access = sa.access;
        proof {
            reveal(BlockAllocator::owned_ok);
        }
        let ids = self.slabs.ids();
        let mut entries: Vec<SlabBucketEntry> = Vec::new();
        let mut i: usize = 0;
        while i < ids.len()
            invariant
                i <= ids@.len(),
                self.wf(*sa),
                m == self.slabs@,
                access == sa.access,
                access.wf(),
                slabs_ok(access, m),
                forall|x: int, y: int| 0 <= x < y < ids@.len() ==> (#[trigger] ids@[x]).0 < (
                #[trigger] ids@[y]).0,
                forall|x: int|
                    0 <= x < ids@.len() ==> (#[trigger] ids@[x]).0 <= usize::MAX && m.contains_key(
                        ids@[x].0 as int,
                    ),
                one_each(entries@),
                forall|x: int|
                    0 <= x < entries@.len() ==> {
                        let e = #[trigger] entries@[x];
                        &&& self.eligible(e.slab_id)
                        &&& e == entry_of(m[e.slab_id.0 as int])
                        &&& i > 0 && e.slab_id.0 <= ids@[i - 1].0
                    },
                forall|y: int|
                    0 <= y < i && self.eligible(#[trigger] ids@[y]) ==> entries@.contains(
                        entry_of(m[ids@[y].0 as int]),
                    ),
            decreases ids@.len() - i,
        {
            let id = ids[i];
            let ghost e0 = entries@;
            proof {
                let x = id.0 as int;
                assert(m.contains_key(ids@[i as int].0 as int));
                assert(slab_ok(access, m[x], x));
                access.lemma_slab_extent(access.holder(id), id);
                m[x].lemma_within(access.slab_extent(id));
                m[x].lemma_sizes();
                if i > 0 {
                    assert(ids@[i - 1].0 < ids@[i as int].0);
                }
            }
            let slab = self.slabs.get(id);
            let live = match &slab.inner {
                SlabEnum::Evacuating(_) => false,
                _ => true,
            };
            if live && !self.noalloc_state.contains_key(slab.location().disk().index()) {
                let e = slab.to_slab_bucket_entry();
                entries.push(e);
                proof {
                    assert(e == entry_of(m[id.0 as int]));
                    assert forall|x: int, y: int| 0 <= x < y < entries@.len() implies (
                    #[trigger] entries@[x]).slab_id != (#[trigger] entries@[y]).slab_id by {
                        if y < e0.len() {
                            assert(e0[x].slab_id != e0[y].slab_id);
                        } else {
                            assert(e0[x].slab_id.0 <= ids@[i - 1].0);
                        }
                    }
                    assert forall|y: int|
                        0 <= y < i + 1 && self.eligible(
                            #[trigger] ids@[y],
                        ) implies entries@.contains(entry_of(m[ids@[y].0 as int])) by {
                        if y < i {
                            let w = entry_of(m[ids@[y].0 as int]);
                            let z = choose|z: int| 0 <= z < e0.len() && e0[z] == w;
                            assert(entries@[z] == w);
                        } else {
                            assert(entries@[e0.len() as int] == e);
                        }
                    }
                    assert forall|x: int| 0 <= x < entries@.len() implies ({
                        let e = #[trigger] entries@[x];
                        &&& self.eligible(e.slab_id)
                        &&& e == entry_of(m[e.slab_id.0 as int])
                        &&& e.slab_id.0 <= ids@[i as int].0
                    }) by {
                        if x < e0.len() {
                            assert(entries@[x] == e0[x]);
                        }
                    }
                }
            }
            i += 1;
        }
        let sorted = SlabBucket::new(false, &entries);
        proof {
            let s = sorted.by_freeness@;
            assert forall|e: SlabBucketEntry|
                #[trigger] s.contains(e) <==> self.eligible(e.slab_id) && e == entry_of(
                    m[e.slab_id.0 as int],
                ) by {
                if s.contains(e) {
                    assert(entries@.contains(e));
                    let x = choose|x: int| 0 <= x < entries@.len() && entries@[x] == e;
                    assert(self.eligible(entries@[x].slab_id));
                }
                if self.eligible(e.slab_id) && e == entry_of(m[e.slab_id.0 as int]) {
                    let y = choose|y: int|
                        0 <= y < ids@.len() && (#[trigger] ids@[y]).0 == e.slab_id.0 as int;
                    assert(ids@[y] == e.slab_id);
                    assert(entries@.contains(e));
                }
            }
        }
        sorted.by_freeness
    }

    /// Takes a slab out of its bucket before it is evacuated.
    fn set_aside(&mut self, sa: &SlabAllocator, id: SlabId)
        requires
            old(self).wf(*sa),
            old(self).slabs@.contains_key(id.0 as int),
            old(self).slabs@[id.0 as int].live(),
            old(self).inside().contains(id.0 as int),
        ensures
            final(self).wf(*sa),
            old(self).ready(*sa) ==> final(self).ready(*sa),
            forall|x: int| #[trigger] final(self).is_blocked(x) == old(self).is_blocked(x),
            *final(self) == (BlockAllocator {
                slab_buckets: final(self).slab_buckets,
                aside: final(self).aside,
                ..*old(self)
            }),
            final(self).aside@ == old(self).aside@.insert(id.0 as int),
            same_sizes_and_kinds(old(self).slab_buckets, final(self).slab_buckets),
    {
        let ghost a = *self;
        let ghost x = id.0 as int;
        let ghost m = self.slabs@;
        proof {
            reveal(BlockAllocator::owned_ok);
            assert(slab_ok(sa.access, m[x], x));
            sa.access.lemma_id_below_next(id);
            reveal(buckets_ok);
            assert(m.contains_key(x));
            let i = choose|i: int| #[trigger]
                home(a.slab_buckets, m[x], i) && (has_slab(
                    a.slab_buckets.bucket(i).by_freeness@,
                    m[x].id,
                ) <==> a.inside().contains(x));
            assert(a.slab_buckets.size(i) >= m[x].spec_max_size());
        }
        let j = self.slab_buckets.find(self.slabs.get(id).max_size());
        proof {
            reveal(buckets_ok);
            let i = choose|i: int| #[trigger]
                home(a.slab_buckets, m[x], i) && (has_slab(
                    a.slab_buckets.bucket(i).by_freeness@,
                    m[x].id,
                ) <==> a.inside().contains(x));
            lemma_serves_home(a.slab_buckets, m[x], i, j as int);
            assert(a.slab_buckets.bucket(j as int).wf());
        }
        self.slab_buckets.buckets[j].1.remove(id);
        self.aside = Ghost(self.aside@.insert(x));
        proof {
            let gone = set![x];
            assert forall|y: int| #[trigger] m.contains_key(y) implies ids_match(m, y) by {
                assert(slab_ok(sa.access, m[y], y));
            }
            assert forall|i: int| 0 <= i < a.slab_buckets.len() implies ({
                &&& #[trigger] self.slab_buckets.size(i) == a.slab_buckets.size(i)
                &&& self.slab_buckets.bucket(i).is_extent_based == a.slab_buckets.bucket(
                    i,
                ).is_extent_based
                &&& self.slab_buckets.bucket(i).wf()
                &&& forall|e: SlabBucketEntry|
                    #[trigger] self.slab_buckets.bucket(i).by_freeness@.contains(e)
                        <==> a.slab_buckets.bucket(i).by_freeness@.contains(e) && !gone.contains(
                        e.slab_id.0 as int,
                    )
            }) by {
                reveal(buckets_ok);
                assert(a.slab_buckets.bucket(i).wf());
                if i != j {
                    assert(self.slab_buckets.bucket(i) == a.slab_buckets.bucket(i));
                    let s = a.slab_buckets.bucket(i).by_freeness@;
                    assert forall|e: SlabBucketEntry| #[trigger] s.contains(e) implies e.slab_id
                        != id by {
                        let k = choose|k: int| 0 <= k < s.len() && s[k] == e;
                        assert(a.slab_buckets.bucket(i).by_freeness@[k].slab_id == e.slab_id);
                        if e.slab_id == id {
                            assert(home(a.slab_buckets, m[x], i));
                            crate::block_allocator::invariants::lemma_home_unique(
                                a.slab_buckets,
                                m[x],
                                i,
                                j as int,
                            );
                        }
                    }
                }
            }
            lemma_buckets_less(
                a.slab_buckets,
                self.slab_buckets,
                m,
                a.inside(),
                gone,
                a.slab_size,
            );
            assert(self.inside() =~= a.inside().difference(gone));
            assert(self.owned_ok(*sa));
            assert forall|y: int| self.aside@.contains(y) implies #[trigger] m.contains_key(y) by {
                if y != x {
                    assert(a.aside@.contains(y));
                }
            }
        }
    }
}

/// What a move says about an extent.
pub open spec fn told(
    t: Map<Extent, Option<DiskLocation>>,
    moves: Seq<(Extent, Option<Extent>)>,
) -> Map<Extent, Option<DiskLocation>>
    decreases moves.len(),
{
    if moves.len() == 0 {
        t
    } else {
        let (from, to) = moves.last();
        told(t, moves.drop_last()).insert(
            from,
            match to {
                Some(e) => Some(e.location),
                None => None,
            },
        )
    }
}

/// What the moves of the slabs in turn say.
pub open spec fn told_all(maps: Seq<Seq<(Extent, Option<Extent>)>>) -> Map<
    Extent,
    Option<DiskLocation>,
>
    decreases maps.len(),
{
    if maps.len() == 0 {
        Map::empty()
    } else {
        told(told_all(maps.drop_last()), maps.last())
    }
}

/// Slab `k` of those chosen was given up. It and those that come after it were not allocated
/// from, and hold what they held at the start.
pub open spec fn step_moved(
    a: BlockAllocator,
    states: Seq<BlockAllocator>,
    sas: Seq<SlabAllocator>,
    ids: Seq<SlabId>,
    maps: Seq<Seq<(Extent, Option<Extent>)>>,
    merged: Seq<int>,
    k: int,
) -> bool {
    &&& slab_moved(
        states[k],
        states[k + 1],
        ids[k],
        sas[k],
        sas[k + 1],
        maps[k],
        merged[k],
    )
    &&& same_sizes_and_kinds(a.slab_buckets, states[k].slab_buckets)
    &&& forall|i: int| k <= i < ids.len() ==> withheld(a, states[k], #[trigger] ids[i])
}

/// The slab is not to be allocated from, and is as it was.
pub open spec fn withheld(a: BlockAllocator, b: BlockAllocator, id: SlabId) -> bool {
    let x = id.0 as int;
    &&& a.slabs@.contains_key(x)
    &&& b.slabs@.contains_key(x)
    &&& same_state(a.slabs@[x], b.slabs@[x])
    &&& !b.inside().contains(x)
}

/// The chosen slabs were given up in turn.
pub open spec fn started(
    a: BlockAllocator,
    c: BlockAllocator,
    sa: SlabAllocator,
    sc: SlabAllocator,
    ids: Seq<SlabId>,
    states: Seq<BlockAllocator>,
    sas: Seq<SlabAllocator>,
    maps: Seq<Seq<(Extent, Option<Extent>)>>,
    merged: Seq<int>,
    table: Map<Extent, Option<DiskLocation>>,
) -> bool {
    &&& ids.len() > 0
    &&& states.len() == ids.len() + 1
    &&& maps.len() == ids.len()
    &&& merged.len() == ids.len()
    &&& sas.len() == states.len()
    &&& states[0] == (BlockAllocator {
        slab_buckets: states[0].slab_buckets,
        aside: states[0].aside,
        ..a
    })
    &&& states.last() == c
    &&& sas[0] == sa
    &&& sas.last() == sc
    &&& forall|k: int|
        0 <= k < ids.len() ==> #[trigger] step_moved(a, states, sas, ids, maps, merged, k)
    &&& table == told_all(maps)
    &&& c.evacuating_slabs@ == ids
    &&& c.aside@ == Set::<int>::empty()
}

/// No block is moved into a slab that is itself given up: what a slab that is withheld holds does
/// not change, so no place for a block was found in it.
pub proof fn law_not_moved_twice(
    a: BlockAllocator,
    c: BlockAllocator,
    id: SlabId,
    sa: SlabAllocator,
    sc: SlabAllocator,
    map: Seq<(Extent, Option<Extent>)>,
    merged: int,
    b: BlockAllocator,
    unjoined: Seq<(Extent, Option<Extent>)>,
    other: SlabId,
    i: int,
)
    requires
        moved_with(a, c, id, sa, sc, map, merged, b, unjoined),
        a.slabs@.contains_key(other.0 as int),
        !a.inside().contains(other.0 as int),
        0 <= i < unjoined.len(),
        unjoined[i].1 is Some,
        unjoined[i].1->0.size > 0,
    ensures
        !newly_in(a.slabs@, b.slabs@, other, unjoined[i].1->0),
{
    let x = other.0 as int;
    let e = unjoined[i].1->0;
    if newly_in(a.slabs@, b.slabs@, other, e) {
        assert(same_state(a.slabs@[x], b.slabs@[x]));
        let o = e.location.off();
        assert(extent_bytes(e).contains(o));
        assert(a.slabs@[x].free_bytes() == b.slabs@[x].free_bytes());
        assert(false);
    }
}

impl BlockAllocator {
    /// The slabs that a rebalance gives up: those of the disk that is being removed, or else
    /// those whose evacuation is the cheapest.
    pub open spec fn chosen(
        &self,
        sa: SlabAllocator,
        target_available: u64,
        removing_disk: Option<DiskId>,
        ids: Seq<SlabId>,
    ) -> bool {
        match removing_disk {
            Some(disk) => ids == if self.noalloc_state@.contains_key(disk.0 as int) {
                self.noalloc_state@[disk.0 as int]@
            } else {
                Seq::empty()
            },
            None => {
                let target = sa.reserved_slabs + target_available;
                let current = sa.allocatable@.len() + sa.freeing@.len();
                if target > current {
                    self.picked(target - current, ids)
                } else {
                    ids == Seq::<SlabId>::empty()
                }
            },
        }
    }

    /// The disk is being removed, and slabs on it still have blocks.
    pub open spec fn is_to_remap(&self, sa: SlabAllocator, disk: int) -> bool {
        sa.removing(disk) && self.noalloc_state@.contains_key(disk)
    }

    /// The first disk that is being removed on which slabs still have blocks.
    pub fn disk_to_remap(&self, sa: &SlabAllocator) -> (r: Option<DiskId>)
        requires
            sa.wf(),
        ensures
            match r {
                Some(disk) => {
                    &&& self.is_to_remap(*sa, disk.0 as int)
                    &&& forall|d: int| d < disk.0 ==> !#[trigger] self.is_to_remap(*sa, d)
                },
                None => forall|d: int| !#[trigger] self.is_to_remap(*sa, d),
            },
    {
        let disks = sa.removing_disks();
        let mut i: usize = 0;
        while i < disks.len()
            invariant
                i <= disks@.len(),
                forall|a: int, b: int| 0 <= a < b < disks@.len() ==> (#[trigger] disks@[a]).0 < (
                #[trigger] disks@[b]).0,
                forall|d: int|
                    sa.removing(d) <==> exists|a: int|
                        0 <= a < disks@.len() && (#[trigger] disks@[a]).0 == d,
                forall|a: int|
                    0 <= a < i ==> !self.is_to_remap(*sa, (#[trigger] disks@[a]).0 as int),
            decreases disks@.len() - i,
        {
            assert(disks@[i as int].0 == disks[i as int].0);
            assert(sa.removing(disks@[i as int].0 as int));
            if self.disk_is_pending_remap(disks[i]) {
                proof {
                    assert forall|d: int| d < disks[i as int].0 implies !#[trigger] self.is_to_remap(
                        *sa,
                        d,
                    ) by {
                        if sa.removing(d) {
                            let a = choose|a: int|
                                0 <= a < disks@.len() && (#[trigger] disks@[a]).0 == d;
                            assert(disks@[a].0 < disks@[i as int].0);
                            if a > i {
                                assert(disks@[i as int].0 < disks@[a].0);
                            }
                        }
                    }
                }
                return Some(disks[i]);
            }
            i += 1;
        }
        proof {
            assert forall|d: int| !#[trigger] self.is_to_remap(*sa, d) by {
                if sa.removing(d) {
                    let a = choose|a: int| 0 <= a < disks@.len() && (#[trigger] disks@[a]).0 == d;
                    assert(!self.is_to_remap(*sa, disks@[a].0 as int));
                }
            }
        }
        None
    }

    /// Whether blocks have to be moved: there are fewer free slabs than there should be, or a
    /// disk that is being removed still has blocks.
    pub fn rebalance_needed(&self, sa: &SlabAllocator, target_available: u64) -> (r: bool)
        requires
            sa.wf(),
            sa.reserved_slabs + target_available <= u64::MAX,
        ensures
            r <==> sa.reserved_slabs + target_available > sa.allocatable@.len() + sa.freeing@.len()
                || exists|d: int| #[trigger] self.is_to_remap(*sa, d),
    {
        sa.num_slabs_to_evacuate(target_available) > 0 || self.disk_to_remap(sa).is_some()
    }

    /// The slabs of a disk that is being removed.
    pub fn noalloc_slabs_to_remap(&self, disk: DiskId) -> (r: Vec<SlabId>)
        ensures
            r@ == if self.noalloc_state@.contains_key(disk.0 as int) {
                self.noalloc_state@[disk.0 as int]@
            } else {
                Seq::empty()
            },
    {
        let mut r: Vec<SlabId> = Vec::new();
        if let Some(slabs) = self.noalloc_state.get(disk.index()) {
            let mut k: usize = 0;
            while k < slabs.len()
                invariant
                    k <= slabs@.len(),
                    r@ == slabs@.take(k as int),
                decreases slabs@.len() - k,
            {
                r.push(slabs[k]);
                k += 1;
                assert(r@ =~= slabs@.take(k as int));
            }
            assert(slabs@.take(k as int) =~= slabs@);
        }
        r
    }

    /// Starts a rebalance: chooses slabs, gives them up, and allocates places for what they
    /// hold. Returns where each extent goes; where no place was found, that is nowhere. The
    /// caller moves the data and then calls `rebalance_fini`. Without slabs to give up there is
    /// nothing to do, and the result is `None`.
    pub fn rebalance_init(
        &mut self,
        sa: &mut SlabAllocator,
        target_available: u64,
        removing_disk: Option<DiskId>,
    ) -> (r: Option<RemapTable>)
        requires
            old(self).wf(*old(sa)),
            old(self).ready(*old(sa)),
            old(sa).reserved_slabs + target_available <= u64::MAX,
            old(self).evacuating_slabs@.len() == 0,
            old(self).aside@ == Set::<int>::empty(),
            forall|ids: Seq<SlabId>, i: int|
                old(self).chosen(*old(sa), target_available, removing_disk, ids) && 0 <= i
                    < ids.len() ==> old(self).slabs@[(#[trigger] ids[i]).0 as int].freeing_bytes()
                    == Set::<int>::empty(),
            exists|i: int|
                0 <= i < old(self).slab_buckets.len() && #[trigger] old(self).slab_buckets.size(i)
                    >= old(self).slab_size,
        ensures
            final(self).wf(*final(sa)),
            final(self).ready(*final(sa)),
            final(sa).access == old(sa).access,
            old(sa).separate() ==> final(sa).separate(),
            final(self).noalloc_state == old(self).noalloc_state,
            final(self).next_slab_to_condense == old(self).next_slab_to_condense,
            final(self).segments_at_last_merge == old(self).segments_at_last_merge,
            match r {
                None => {
                    &&& *final(self) == *old(self)
                    &&& *final(sa) == *old(sa)
                    &&& old(self).chosen(
                        *old(sa),
                        target_available,
                        removing_disk,
                        Seq::<SlabId>::empty(),
                    )
                },
                Some(t) => t.wf() && exists|
                    ids: Seq<SlabId>,
                    states: Seq<BlockAllocator>,
                    sas: Seq<SlabAllocator>,
                    maps: Seq<Seq<(Extent, Option<Extent>)>>,
                    merged: Seq<int>,
                | #[trigger]
                    started(
                        *old(self),
                        *final(self),
                        *old(sa),
                        *final(sa),
                        ids,
                        states,
                        sas,
                        maps,
                        merged,
                        t@,
                    ) && old(self).chosen(*old(sa), target_available, removing_disk, ids),
            },
    {
        let ghost a = *self;
        let ghost sa0 = *sa;
        let ids = match removing_disk {
            Some(disk) => self.noalloc_slabs_to_remap(disk),
            None => self.slabs_to_rebalance(sa, target_available),
        };
        if ids.len() == 0 {
            assert(ids@ =~= Seq::<SlabId>::empty());
            return None;
        }
        proof {
            assert(a.chosen(sa0, target_available, removing_disk, ids@)) by {
                if removing_disk is None && ids@.len() == 0 {
                    assert(ids@ =~= Seq::<SlabId>::empty());
                }
            }
            lemma_chosen(a, *sa, target_available, removing_disk, ids@);
        }
        // The slabs are set aside before anything is allocated, so that no extent is moved more
        // than once: the moves can be made in any order. Those of a disk that is being removed
        // are set aside already.
        if removing_disk.is_none() {
            let mut k: usize = 0;
            while k < ids.len()
                invariant
                    k <= ids@.len(),
                    distinct(ids@),
                    self.wf(*sa),
                    self.ready(*sa),
                    *sa == sa0,
                    *self == (BlockAllocator {
                        slab_buckets: self.slab_buckets,
                        aside: self.aside,
                        ..a
                    }),
                    self.slab_buckets.len() == a.slab_buckets.len(),
                    same_sizes_and_kinds(a.slab_buckets, self.slab_buckets),
                    forall|x: int| #[trigger] self.is_blocked(x) == a.is_blocked(x),
                    forall|i: int| 0 <= i < ids@.len() ==> a.eligible(#[trigger] ids@[i]),
                    forall|x: int|
                        #[trigger] self.aside@.contains(x) <==> exists|i: int|
                            0 <= i < k && (#[trigger] ids@[i]).0 == x,
                decreases ids@.len() - k,
            {
                let ghost b = *self;
                proof {
                    let x = ids@[k as int].0 as int;
                    assert(a.eligible(ids@[k as int]));
                    if b.aside@.contains(x) {
                        let i = choose|i: int| 0 <= i < k && (#[trigger] ids@[i]).0 == x;
                        assert(ids@[i] == ids@[k as int]);
                    }
                    assert(self.inside().contains(x));
                }
                self.set_aside(sa, ids[k]);
                proof {
                    assert forall|x: int| #[trigger] self.aside@.contains(x) <==> exists|i: int|
                        0 <= i < k + 1 && (#[trigger] ids@[i]).0 == x by {
                        if b.aside@.contains(x) {
                            let i = choose|i: int| 0 <= i < k && (#[trigger] ids@[i]).0 == x;
                            assert(ids@[i].0 == x);
                        }
                        if x == ids@[k as int].0 {
                            assert(ids@[k as int].0 == x);
                        }
                    }
                    assert forall|x: int| #[trigger] self.is_blocked(x) == a.is_blocked(x) by {
                        assert(b.is_blocked(x) == a.is_blocked(x));
                    }
                }
                k += 1;
            }
        }
        let ghost a1 = *self;
        let ghost mut states = seq![a1];
        let ghost mut sas = seq![*sa];
        let ghost mut maps: Seq<Seq<(Extent, Option<Extent>)>> = Seq::empty();
        let ghost mut merged: Seq<int> = Seq::empty();
        let mut table = RemapTable::new();
        proof {
            assert forall|i: int| 0 <= i < ids@.len() implies withheld(
                a,
                a1,
                #[trigger] ids@[i],
            ) by {
                let x = ids@[i].0 as int;
                if removing_disk is None {
                    assert(a1.aside@.contains(x));
                } else {
                    assert(a1.is_blocked(a.slabs@[x].disk()));
                }
            }
            assert(a1.evacuating_slabs@ =~= ids@.take(0));
            assert forall|x: int| #[trigger] a1.aside@.contains(x) implies removing_disk is None
                && exists|i: int| 0 <= i < ids@.len() && (#[trigger] ids@[i]).0 == x by {}
        }
        let mut k: usize = 0;
        while k < ids.len()
            invariant
                k <= ids@.len(),
                ids@.len() > 0,
                distinct(ids@),
                self.wf(*sa),
                self.ready(*sa),
                sa.access == sa0.access,
                sa0.separate() ==> sa.separate(),
                self.noalloc_state == a.noalloc_state,
                self.slab_size == a.slab_size,
                self.next_slab_to_condense == a.next_slab_to_condense,
                self.segments_at_last_merge == a.segments_at_last_merge,
                self.evacuating_slabs@ == ids@.take(k as int),
                same_sizes_and_kinds(a.slab_buckets, self.slab_buckets),
                exists|i: int|
                    0 <= i < a.slab_buckets.len() && #[trigger] a.slab_buckets.size(i)
                        >= a.slab_size,
                states.len() == k + 1,
                states[0] == (BlockAllocator {
                    slab_buckets: states[0].slab_buckets,
                    aside: states[0].aside,
                    ..a
                }),
                states.last() == *self,
                sas.len() == k + 1,
                sas[0] == sa0,
                sas.last() == *sa,
                maps.len() == k,
                merged.len() == k,
                table.wf(),
                table@ == told_all(maps),
                forall|j: int|
                    0 <= j < k ==> #[trigger] step_moved(a, states, sas, ids@, maps, merged, j),
                forall|i: int| k <= i < ids@.len() ==> withheld(a, *self, #[trigger] ids@[i]),
                forall|i: int|
                    0 <= i < ids@.len() ==> {
                        let slab = a.slabs@[(#[trigger] ids@[i]).0 as int];
                        &&& slab.live()
                        &&& slab.freeing_bytes() == Set::<int>::empty()
                        &&& match removing_disk {
                            Some(disk) => {
                                &&& a.noalloc_state@.contains_key(disk.0 as int)
                                &&& a.noalloc_state@[disk.0 as int]@ == ids@
                                &&& slab.disk() == disk.0
                            },
                            None => !a.noalloc_state@.contains_key(slab.disk()),
                        }
                    },
                removing_disk is None ==> forall|i: int|
                    k <= i < ids@.len() ==> self.aside@.contains((#[trigger] ids@[i]).0 as int),
                forall|x: int| #[trigger]
                    self.aside@.contains(x) ==> removing_disk is None && exists|i: int|
                        k <= i < ids@.len() && (#[trigger] ids@[i]).0 == x,
            decreases ids@.len() - k,
        {
            let id = ids[k];
            let ghost b = *self;
            let ghost x = id.0 as int;
            let ghost table0 = table@;
            proof {
                assert(withheld(a, b, ids@[k as int]));
                let slab = a.slabs@[x];
                assert(slab.live());
                if removing_disk is Some {
                    assert(b.is_blocked(slab.disk())) by {
                        let d = slab.disk();
                        assert(b.noalloc_state@[d]@[k as int] == ids@[k as int]);
                        assert(b.slabs@[b.noalloc_state@[d]@[k as int].0 as int].live());
                    }
                }
            }
            proof {
                let i = choose|i: int|
                    0 <= i < a.slab_buckets.len() && #[trigger] a.slab_buckets.size(i)
                        >= a.slab_size;
                assert(self.slab_buckets.size(i) >= self.slab_size);
            }
            let (map, count) = self.rebalance_slab(sa, id);
            let mut j: usize = 0;
            assert(map@.take(0) =~= Seq::<(Extent, Option<Extent>)>::empty());
            while j < map.len()
                invariant
                    j <= map@.len(),
                    table.wf(),
                    table@ == told(table0, map@.take(j as int)),
                decreases map@.len() - j,
            {
                let (from, to) = map[j];
                let place = match to {
                    Some(e) => Some(e.location),
                    None => None,
                };
                table.insert(from, place);
                proof {
                    assert(map@.take(j + 1).drop_last() =~= map@.take(j as int));
                }
                j += 1;
            }
            proof {
                assert(map@.take(map@.len() as int) =~= map@);
                let states0 = states;
                let maps0 = maps;
                let merged0 = merged;
                let sas0 = sas;
                states = states.push(*self);
                sas = sas.push(*sa);
                maps = maps.push(map@);
                merged = merged.push(count as int);
                assert(maps.drop_last() =~= maps0);
                assert forall|i: int| 0 <= i < k + 1 implies #[trigger] step_moved(
                    a,
                    states,
                    sas,
                    ids@,
                    maps,
                    merged,
                    i,
                ) by {
                    if i < k {
                        assert(step_moved(a, states0, sas0, ids@, maps0, merged0, i));
                        assert(sas[i] == sas0[i] && sas[i + 1] == sas0[i + 1]);
                        assert(states[i] == states0[i]);
                        assert(states[i + 1] == states0[i + 1]);
                    } else {
                        assert(states[i] == b);
                    }
                }
                assert(ids@.take(k + 1) =~= ids@.take(k as int).push(id));
                assert forall|i: int| k + 1 <= i < ids@.len() implies withheld(
                    a,
                    *self,
                    #[trigger] ids@[i],
                ) by {
                    let y = ids@[i].0 as int;
                    assert(ids@[k as int] != ids@[i]);
                    assert(withheld(a, b, ids@[i]));
                    assert(b.slabs@.contains_key(y) && !b.inside().contains(y));
                    assert(same_state(b.slabs@[y], self.slabs@[y]));
                    assert(self.slabs@[y].live());
                    if removing_disk is Some {
                        let d = a.slabs@[y].disk();
                        assert(self.noalloc_state@[d]@[i] == ids@[i]);
                        assert(self.is_blocked(d));
                    } else {
                        assert(b.aside@.contains(y));
                    }
                }
                assert forall|y: int| #[trigger] self.aside@.contains(y) implies removing_disk
                    is None && exists|i: int|
                    k + 1 <= i < ids@.len() && (#[trigger] ids@[i]).0 == y by {
                    assert(b.aside@.contains(y));
                    let i = choose|i: int| k <= i < ids@.len() && (#[trigger] ids@[i]).0 == y;
                    assert(ids@[i].0 == y);
                }
                if removing_disk is None {
                    assert forall|i: int| k + 1 <= i < ids@.len() implies self.aside@.contains(
                        (#[trigger] ids@[i]).0 as int,
                    ) by {
                        assert(ids@[k as int] != ids@[i]);
                        assert(b.aside@.contains(ids@[i].0 as int));
                    }
                }
            }
            k += 1;
        }
        proof {
            assert(ids@.take(k as int) =~= ids@);
            assert(self.aside@ =~= Set::<int>::empty());
            assert(a.chosen(sa0, target_available, removing_disk, ids@));
            assert(started(a, *self, sa0, *sa, ids@, states, sas, maps, merged, table@));
        }
        Some(table)
    }
}

/// What is known of the slabs that a rebalance gives up.
proof fn lemma_chosen(
    a: BlockAllocator,
    sa: SlabAllocator,
    target_available: u64,
    removing_disk: Option<DiskId>,
    ids: Seq<SlabId>,
)
    requires
        a.wf(sa),
        a.evacuating_slabs@.len() == 0,
        match removing_disk {
            Some(disk) => a.chosen(sa, target_available, removing_disk, ids),
            None => distinct(ids) && forall|i: int|
                0 <= i < ids.len() ==> a.eligible(#[trigger] ids[i]),
        },
    ensures
        distinct(ids),
        forall|i: int|
            0 <= i < ids.len() ==> {
                let x = (#[trigger] ids[i]).0 as int;
                &&& a.slabs@.contains_key(x)
                &&& a.slabs@[x].live()
                &&& match removing_disk {
                    Some(disk) => {
                        &&& a.noalloc_state@.contains_key(disk.0 as int)
                        &&& a.noalloc_state@[disk.0 as int]@ == ids
                        &&& a.slabs@[x].disk() == disk.0
                        &&& a.is_blocked(disk.0 as int)
                    },
                    None => a.eligible(ids[i]),
                }
            },
{
    reveal(noalloc_ok);
    if let Some(disk) = removing_disk {
        let d = disk.0 as int;
        assert forall|i: int| 0 <= i < ids.len() implies ({
            let x = (#[trigger] ids[i]).0 as int;
            &&& a.slabs@.contains_key(x)
            &&& a.slabs@[x].live()
            &&& a.noalloc_state@.contains_key(d)
            &&& a.noalloc_state@[d]@ == ids
            &&& a.slabs@[x].disk() == d
            &&& a.is_blocked(d)
        }) by {
            let x = ids[i].0 as int;
            assert(a.noalloc_state@[d]@[i] == ids[i]);
            assert(a.slabs@.contains_key(x));
            if !a.slabs@[x].live() {
                assert(a.evacuating_slabs@.contains(ids[i]));
            }
            assert(a.slabs@[a.noalloc_state@[d]@[i].0 as int].live());
        }
    }
}

/// The free space of some slabs of a bucket fits in its type.
proof fn lemma_bucket_free_fits(a: BlockAllocator, sa: SlabAllocator, i: int, k: int)
    requires
        a.wf(sa),
        0 <= i < a.slab_buckets.len(),
        0 <= k <= a.slab_buckets.bucket(i).by_freeness@.len(),
    ensures
        0 <= bucket_free(a.slabs@, a.slab_buckets.bucket(i).by_freeness@.take(k)) <= u64::MAX,
{
    reveal(BlockAllocator::owned_ok);
    let m = a.slabs@;
    let s = a.slab_buckets.bucket(i).by_freeness@;
    let n = sa.access.next_slab_id.0 as int;
    let f = |slab: Slab| slab.free_bytes().len() as int;
    let ids = Seq::new(k as nat, |x: int| s[x].slab_id);
    lemma_bucket_free_list(m, s.take(k), f);
    assert(s.take(k).map_values(|e: SlabBucketEntry| e.slab_id) =~= ids);
    assert(one_each(s) && forall|x: int| 0 <= x < ids.len() ==> m.contains_key(
        (#[trigger] ids[x]).0 as int,
    ) && ids[x].0 < n) by {
        reveal(buckets_ok);
        assert(a.slab_buckets.bucket(i).wf());
        assert forall|x: int| 0 <= x < ids.len() implies m.contains_key(
            (#[trigger] ids[x]).0 as int,
        ) && ids[x].0 < n by {
            assert(ids[x] == a.slab_buckets.bucket(i).by_freeness@[x].slab_id);
            let y = ids[x].0 as int;
            assert(slab_ok(sa.access, m[y], y));
            sa.access.lemma_id_below_next(ids[x]);
        }
    }
    assert forall|x: int, y: int| 0 <= x < y < ids.len() implies ids[x] != ids[y] by {
        assert(s[x].slab_id != s[y].slab_id);
    }
    assert forall|x: int| #[trigger] m.contains_key(x) implies 0 <= f(m[x])
        <= m[x].whole().len() by {
        assert(slab_ok(sa.access, m[x], x));
        m[x].lemma_sizes();
    }
    lemma_sum_list(m, ids, n, f);
    lemma_sum_fits(sa.access, m, f);
}

proof fn lemma_bucket_free_list(
    m: Map<int, Slab>,
    s: Seq<SlabBucketEntry>,
    f: spec_fn(Slab) -> int,
)
    requires
        f == |slab: Slab| slab.free_bytes().len() as int,
    ensures
        bucket_free(m, s) == sum_list(m, s.map_values(|e: SlabBucketEntry| e.slab_id), f),
    decreases s.len(),
{
    let ids = s.map_values(|e: SlabBucketEntry| e.slab_id);
    if s.len() > 0 {
        lemma_bucket_free_list(m, s.drop_last(), f);
        assert(ids.drop_last() =~= s.drop_last().map_values(|e: SlabBucketEntry| e.slab_id));
    }
}

/// The bytes that the slabs of a bucket can hold.
pub open spec fn capacity_in(
    m: Map<int, Slab>,
    buckets: SlabAllocationBuckets,
    ids: Seq<SlabId>,
    j: int,
) -> int
    decreases ids.len(),
{
    if ids.len() == 0 {
        0
    } else {
        capacity_in(m, buckets, ids.drop_last(), j) + if home_of(
            buckets,
            m[ids.last().0 as int],
        ) == j {
            m[ids.last().0 as int].whole().len() as int
        } else {
            0
        }
    }
}

/// Of each bucket no more is emptied than the others of it have free space for.
pub proof fn law_picked_within_budget(
    m: Map<int, Slab>,
    buckets: SlabAllocationBuckets,
    entries: Seq<SlabBucketEntry>,
    budgets: Seq<int>,
    j: int,
)
    requires
        0 <= j < budgets.len(),
        budgets[j] >= 0,
        forall|k: int|
            0 <= k < entries.len() ==> 0 <= home_of(
                buckets,
                m[(#[trigger] entries[k]).slab_id.0 as int],
            ) < budgets.len(),
    ensures
        ({
            let (ids, left) = pick(m, buckets, entries, budgets);
            &&& left.len() == budgets.len()
            &&& left[j] >= 0
            &&& left[j] + capacity_in(m, buckets, ids, j) == budgets[j]
            &&& forall|k: int|
                0 <= k < ids.len() ==> exists|i: int|
                    0 <= i < entries.len() && (#[trigger] entries[i]).slab_id == #[trigger] ids[k]
        }),
    decreases entries.len(),
{
    if entries.len() > 0 {
        let p = entries.drop_last();
        assert forall|k: int| 0 <= k < p.len() implies 0 <= home_of(
            buckets,
            m[(#[trigger] p[k]).slab_id.0 as int],
        ) < budgets.len() by {
            assert(p[k] == entries[k]);
        }
        law_picked_within_budget(m, buckets, p, budgets, j);
        let (ids, left) = pick(m, buckets, p, budgets);
        let (all, rest) = pick(m, buckets, entries, budgets);
        let n = entries.len() - 1;
        assert(entries[n] == entries.last());
        if all.len() > ids.len() {
            assert(all.drop_last() =~= ids);
        }
        assert forall|k: int| 0 <= k < all.len() implies exists|i: int|
            0 <= i < entries.len() && (#[trigger] entries[i]).slab_id == #[trigger] all[k] by {
            if k < ids.len() {
                assert(all[k] == ids[k]);
                let i = choose|i: int|
                    0 <= i < p.len() && (#[trigger] p[i]).slab_id == ids[k];
                assert(entries[i] == p[i]);
            } else {
                assert(entries[n].slab_id == all[k]);
            }
        }
    }
}

/// Slabs are taken as long as there is space for what they hold: one is left out only if the
/// bucket has no space for it any more.
pub proof fn law_picked_while_fits(
    m: Map<int, Slab>,
    buckets: SlabAllocationBuckets,
    entries: Seq<SlabBucketEntry>,
    budgets: Seq<int>,
    e: SlabBucketEntry,
)
    ensures
        ({
            let (ids, left) = pick(m, buckets, entries, budgets);
            let (all, rest) = pick(m, buckets, entries.push(e), budgets);
            let slab = m[e.slab_id.0 as int];
            &&& left[home_of(buckets, slab)] >= slab.whole().len() ==> all == ids.push(e.slab_id)
            &&& left[home_of(buckets, slab)] < slab.whole().len() ==> all == ids && rest == left
        }),
{
    assert(entries.push(e).drop_last() =~= entries);
}

/// No more slabs are chosen than are wanted, and none if there are enough. To empty a disk, all
/// of its slabs are.
pub proof fn law_chosen(
    a: BlockAllocator,
    sa: SlabAllocator,
    target_available: u64,
    removing_disk: Option<DiskId>,
    ids: Seq<SlabId>,
)
    requires
        a.chosen(sa, target_available, removing_disk, ids),
    ensures
        removing_disk is None && sa.reserved_slabs + target_available <= sa.allocatable@.len()
            + sa.freeing@.len() ==> ids.len() == 0,
        removing_disk is None && sa.reserved_slabs + target_available > sa.allocatable@.len()
            + sa.freeing@.len() ==> ids.len() + sa.allocatable@.len() + sa.freeing@.len()
            <= sa.reserved_slabs + target_available,
        removing_disk matches Some(disk) ==> forall|id: SlabId| #[trigger]
            ids.contains(id) <==> a.noalloc_state@.contains_key(disk.0 as int)
                && a.noalloc_state@[disk.0 as int]@.contains(id),
{
}

/// The free space of a bucket is that of each of its slabs.
pub proof fn law_bucket_free(
    m: Map<int, Slab>,
    entries: Seq<SlabBucketEntry>,
    e: SlabBucketEntry,
)
    ensures
        bucket_free(m, entries.push(e)) == bucket_free(m, entries)
            + m[e.slab_id.0 as int].free_bytes().len(),
        bucket_free(m, Seq::empty()) == 0,
{
    assert(entries.push(e).drop_last() =~= entries);
}

/// Of an extent that was moved more than once the table has the last move, and it has all that
/// it had of the others.
pub proof fn law_told(
    t: Map<Extent, Option<DiskLocation>>,
    moves: Seq<(Extent, Option<Extent>)>,
    i: int,
    other: Extent,
)
    requires
        0 <= i < moves.len(),
        forall|j: int| i < j < moves.len() ==> (#[trigger] moves[j]).0 != moves[i].0,
        forall|j: int| 0 <= j < moves.len() ==> (#[trigger] moves[j]).0 != other,
    ensures
        told(t, moves).contains_key(moves[i].0),
        moves[i].1 is Some ==> told(t, moves)[moves[i].0] == Some(moves[i].1->0.location),
        moves[i].1 is None ==> told(t, moves)[moves[i].0] is None,
        told(t, moves).contains_key(other) <==> t.contains_key(other),
        t.contains_key(other) ==> told(t, moves)[other] == t[other],
    decreases moves.len(),
{
    lemma_told_others(t, moves, other);
    if i < moves.len() - 1 {
        let p = moves.drop_last();
        assert(p[i] == moves[i]);
        assert forall|j: int| i < j < p.len() implies (#[trigger] p[j]).0 != p[i].0 by {
            assert(p[j] == moves[j]);
        }
        assert forall|j: int| 0 <= j < p.len() implies (#[trigger] p[j]).0 != other by {
            assert(p[j] == moves[j]);
        }
        law_told(t, p, i, other);
        assert(moves[moves.len() - 1].0 != moves[i].0);
    }
}

proof fn lemma_told_others(
    t: Map<Extent, Option<DiskLocation>>,
    moves: Seq<(Extent, Option<Extent>)>,
    other: Extent,
)
    requires
        forall|j: int| 0 <= j < moves.len() ==> (#[trigger] moves[j]).0 != other,
    ensures
        told(t, moves).contains_key(other) <==> t.contains_key(other),
        t.contains_key(other) ==> told(t, moves)[other] == t[other],
    decreases moves.len(),
{
    if moves.len() > 0 {
        let p = moves.drop_last();
        assert forall|j: int| 0 <= j < p.len() implies (#[trigger] p[j]).0 != other by {
            assert(p[j] == moves[j]);
        }
        lemma_told_others(t, p, other);
        assert(moves[moves.len() - 1].0 != other);
    }
}

/// A slab can be emptied if it is not being emptied yet and allocations can be from its disk.
pub proof fn law_eligible(a: BlockAllocator, id: SlabId)
    requires
        a.slabs@.contains_key(id.0 as int),
    ensures
        a.slabs@[id.0 as int].inner is Evacuating ==> !a.eligible(id),
        a.noalloc_state@.contains_key(a.slabs@[id.0 as int].disk()) ==> !a.eligible(id),
        !(a.slabs@[id.0 as int].inner is Evacuating) && !a.noalloc_state@.contains_key(
            a.slabs@[id.0 as int].disk(),
        ) ==> a.eligible(id),
{
}

/// A disk is emptied if it is to be removed, and there is something on it.
pub proof fn law_is_to_remap(a: BlockAllocator, sa: SlabAllocator, disk: int)
    ensures
        !sa.noalloc_state@.contains_key(disk) ==> !a.is_to_remap(sa, disk),
        !a.noalloc_state@.contains_key(disk) ==> !a.is_to_remap(sa, disk),
        sa.noalloc_state@.contains_key(disk) && a.noalloc_state@.contains_key(disk)
            ==> a.is_to_remap(sa, disk),
{
}

/// The slabs that can be emptied are all considered, those of which the least is in use first.
pub proof fn law_candidates(
    a: BlockAllocator,
    entries: Seq<SlabBucketEntry>,
    id: SlabId,
    i: int,
    j: int,
)
    requires
        a.candidates(entries),
        a.eligible(id),
        a.slabs@[id.0 as int].id == id,
        0 <= i < j < entries.len(),
    ensures
        has_slab(entries, id),
        entries[i].allocated_space <= entries[j].allocated_space,
        a.eligible(entries[i].slab_id),
        entries[i].allocated_space == a.slabs@[entries[i].slab_id.0 as int].allocated_bytes().len()
            as u64,
{
    let e = entry_of(a.slabs@[id.0 as int]);
    assert(e.slab_id == id);
    assert(entries.contains(e));
    let k = choose|k: int| 0 <= k < entries.len() && entries[k] == e;
    assert(entries[k].slab_id == id);
    assert(entries.contains(entries[i]));
    assert(before(entries[i], entries[j]));
}

/// What can be emptied of a bucket is as much as its slabs have free space for.
pub proof fn law_budgets(m: Map<int, Slab>, buckets: SlabAllocationBuckets, i: int)
    requires
        0 <= i < buckets.len(),
    ensures
        budgets_of(m, buckets).len() == buckets.len(),
        budgets_of(m, buckets)[i] == bucket_free(m, buckets.bucket(i).by_freeness@),
{
}

/// Moves that are told later count more.
pub proof fn law_told_all(
    maps: Seq<Seq<(Extent, Option<Extent>)>>,
    moves: Seq<(Extent, Option<Extent>)>,
    i: int,
    other: Extent,
)
    requires
        0 <= i < moves.len(),
        forall|j: int| i < j < moves.len() ==> (#[trigger] moves[j]).0 != moves[i].0,
        forall|j: int| 0 <= j < moves.len() ==> (#[trigger] moves[j]).0 != other,
    ensures
        told_all(maps.push(moves)).contains_key(moves[i].0),
        moves[i].1 is Some ==> told_all(maps.push(moves))[moves[i].0] == Some(
            moves[i].1->0.location,
        ),
        moves[i].1 is None ==> told_all(maps.push(moves))[moves[i].0] is None,
        told_all(maps.push(moves)).contains_key(other) <==> told_all(maps).contains_key(other),
        told_all(maps).contains_key(other) ==> told_all(maps.push(moves))[other] == told_all(
            maps,
        )[other],
{
    assert(maps.push(moves).drop_last() =~= maps);
    law_told(told_all(maps), moves, i, other);
}

} // verus!
