//! Moving the contents of slabs elsewhere, so that the slabs become free.
use crate::base_types::{law_adjacent_extents_merge, DiskLocation, Extent};
use crate::block_allocator::bitmap_slab::{run_extent, BitmapSlab};
use crate::block_allocator::buckets::{has_slab, SlabAllocationBuckets, SlabBucketEntry};
use crate::block_allocator::invariants::{
    blocked, buckets_ok, distinct, free_on, home, lemma_dirty_change, lemma_logs_append,
    lemma_stats_at_least, lemma_stats_change, noalloc_exact, noalloc_ok, same_state, same_states,
    stats_ok, DiskStats,
};
use crate::block_allocator::removal::lemma_serves_home;
use crate::block_allocator::slab::{Slab, SlabEnum};
use crate::block_allocator::slabs::{
    entry_placed, mentions, record_after, record_of, slab_ok, slabs_ok, touches,
};
use crate::block_allocator::{
    allocated_in, allocation, first_room, freed_block, kept_by_allocation, lemma_sum_none,
    lemma_tried, logged, new_slab_allocated, tried, BlockAllocator, SlabPhysType,
};
use crate::slab_allocator::{SlabAccess, SlabAllocator, SlabId};
use crate::range_tree::runs_of;
use crate::space_map::{extent_bytes, SpaceMapEntry};
use vstd::prelude::*;

verus! {

/// The slots of some runs, one by one.
pub open spec fn slots_of_runs(slab: BitmapSlab, runs: Seq<(u64, u64)>) -> Seq<Extent>
    decreases runs.len(),
{
    if runs.len() == 0 {
        Seq::empty()
    } else {
        slots_of_runs(slab, runs.drop_last()) + Seq::new(
            runs.last().1 as nat,
            |i: int| slab.slot_extent(runs.last().0 + i),
        )
    }
}

/// What is moved as a unit: in a slab of slots, each slot; otherwise each maximal extent.
pub open spec fn blocks_of(slab: Slab) -> Seq<Extent> {
    match slab.inner {
        SlabEnum::BitmapBased(s) => slots_of_runs(s, runs_of(s.allocated_slots())),
        _ => slab.spec_allocated_extents(),
    }
}

/// Both are moved, or both cannot be, and they can be moved as one.
pub open spec fn join(
    b: (Extent, Option<Extent>),
    a: (Extent, Option<Extent>),
) -> Option<(Extent, Option<Extent>)> {
    match (a.1, b.1, b.0.spec_merge(a.0)) {
        (None, None, Some(old)) => Some((old, None)),
        (Some(an), Some(bn), Some(old)) => match an.spec_merge(bn) {
            Some(new) => Some((old, Some(new))),
            None => None,
        },
        _ => None,
    }
}

/// The moves, with neighbours joined where that is possible.
pub open spec fn joined(moves: Seq<(Extent, Option<Extent>)>) -> Seq<(Extent, Option<Extent>)>
    decreases moves.len(),
{
    if moves.len() == 0 {
        Seq::empty()
    } else {
        let r = joined(moves.drop_last());
        let a = moves.last();
        if r.len() == 0 {
            r.push(a)
        } else {
            match join(r.last(), a) {
                Some(j) => r.drop_last().push(j),
                None => r.push(a),
            }
        }
    }
}

pub open spec fn moves_ok(moves: Seq<(Extent, Option<Extent>)>) -> bool {
    forall|i: int|
        0 <= i < moves.len() ==> {
            &&& (#[trigger] moves[i]).0.wf()
            &&& moves[i].0.size > 0
            &&& moves[i].1 matches Some(new) ==> new.wf() && new.size >= moves[i].0.size
        }
}

/// Whether a byte is in one of the moves.
pub open spec fn moved_byte(moves: Seq<(Extent, Option<Extent>)>, d: int, o: int) -> bool {
    exists|i: int| 0 <= i < moves.len() && (#[trigger] moves[i]).0.has_byte(d, o)
}

/// What is moved goes to as much space as it takes.
pub open spec fn same_sizes(moves: Seq<(Extent, Option<Extent>)>) -> bool {
    forall|i: int|
        0 <= i < moves.len() ==> ((#[trigger] moves[i]).1 matches Some(new) ==> new.size
            == moves[i].0.size)
}

/// Joining neighbours changes neither what is moved nor by how much: what was moved to as much
/// space as it takes still is.
pub proof fn law_joined(moves: Seq<(Extent, Option<Extent>)>)
    requires
        moves_ok(moves),
    ensures
        moves_ok(joined(moves)),
        joined(moves).len() <= moves.len(),
        forall|d: int, o: int| moved_byte(joined(moves), d, o) <==> moved_byte(moves, d, o),
        same_sizes(moves) ==> same_sizes(joined(moves)),
    decreases moves.len(),
{
    if moves.len() > 0 {
        let t = moves.drop_last();
        let a = moves.last();
        assert(moves[moves.len() - 1] == a);
        assert forall|i: int| 0 <= i < t.len() implies ({
            &&& (#[trigger] t[i]).0.wf()
            &&& t[i].0.size > 0
            &&& t[i].1 matches Some(new) ==> new.wf() && new.size >= t[i].0.size
        }) by {
            assert(t[i] == moves[i]);
        }
        law_joined(t);
        let r = joined(t);
        let q = joined(moves);
        if r.len() > 0 {
            assert(r[r.len() - 1] == r.last());
        }
        assert forall|i: int| 0 <= i < q.len() implies ({
            &&& (#[trigger] q[i]).0.wf()
            &&& q[i].0.size > 0
            &&& q[i].1 matches Some(new) ==> new.wf() && new.size >= q[i].0.size
        }) by {
            if i < r.len() - 1 {
                assert(q[i] == r[i]);
            } else if r.len() > 0 && join(r.last(), a) is None && i < r.len() {
                assert(q[i] == r[i]);
            }
        }
        assert forall|d: int, o: int| moved_byte(q, d, o) <==> moved_byte(moves, d, o) by {
            assert(moved_byte(r, d, o) <==> moved_byte(t, d, o));
            assert(moved_byte(moves, d, o) <==> moved_byte(t, d, o) || a.0.has_byte(d, o)) by {
                lemma_moved_push(t, a, d, o);
                assert(t.push(a) =~= moves);
            }
            if r.len() > 0 && join(r.last(), a) is Some {
                let j = join(r.last(), a)->0;
                let h = r.drop_last();
                lemma_moved_push(h, r.last(), d, o);
                assert(h.push(r.last()) =~= r);
                lemma_moved_push(h, j, d, o);
                crate::base_types::law_merge_bytes(r.last().0, a.0);
            } else {
                lemma_moved_push(r, a, d, o);
            }
        }
    }
}

proof fn lemma_moved_push(
    moves: Seq<(Extent, Option<Extent>)>,
    a: (Extent, Option<Extent>),
    d: int,
    o: int,
)
    ensures
        moved_byte(moves.push(a), d, o) <==> moved_byte(moves, d, o) || a.0.has_byte(d, o),
{
    let p = moves.push(a);
    if moved_byte(moves, d, o) {
        let i = choose|i: int| 0 <= i < moves.len() && (#[trigger] moves[i]).0.has_byte(d, o);
        assert(p[i] == moves[i]);
    }
    if a.0.has_byte(d, o) {
        assert(p[moves.len() as int] == a);
    }
    if moved_byte(p, d, o) {
        let i = choose|i: int| 0 <= i < p.len() && (#[trigger] p[i]).0.has_byte(d, o);
        if i < moves.len() {
            assert(p[i] == moves[i]);
        }
    }
}

/// Joins neighbours, to move them with less effort.
pub fn join_moves(moves: Vec<(Extent, Option<Extent>)>) -> (r: Vec<(Extent, Option<Extent>)>)
    requires
        moves_ok(moves@),
    ensures
        r@ == joined(moves@),
{
    let mut r: Vec<(Extent, Option<Extent>)> = Vec::new();
    let mut i: usize = 0;
    assert(moves@.take(0) =~= Seq::<(Extent, Option<Extent>)>::empty());
    while i < moves.len()
        invariant
            i <= moves@.len(),
            moves_ok(moves@),
            r@ == joined(moves@.take(i as int)),
        decreases moves@.len() - i,
    {
        let a = moves[i];
        let n = r.len();
        proof {
            let t = moves@.take(i as int);
            assert(moves@.take(i + 1).drop_last() =~= t);
            assert(moves@.take(i + 1).last() == a);
            assert forall|k: int| 0 <= k < t.len() implies ({
                &&& (#[trigger] t[k]).0.wf()
                &&& t[k].0.size > 0
                &&& t[k].1 matches Some(new) ==> new.wf() && new.size >= t[k].0.size
            }) by {
                assert(t[k] == moves@[k]);
            }
            law_joined(t);
            assert(moves@[i as int] == a);
        }
        if n > 0 {
            let b = r[n - 1];
            assert(r@[n - 1] == r@.last());
            match join_two(b, a) {
                Some(j) => {
                    r.set(n - 1, j);
                    assert(r@ =~= joined(moves@.take(i as int)).drop_last().push(j));
                },
                None => {
                    r.push(a);
                },
            }
        } else {
            r.push(a);
        }
        i += 1;
    }
    assert(moves@.take(moves@.len() as int) =~= moves@);
    r
}

fn join_two(b: (Extent, Option<Extent>), a: (Extent, Option<Extent>)) -> (r: Option<
    (Extent, Option<Extent>),
>)
    requires
        a.0.wf(),
        b.0.wf(),
        a.1 matches Some(new) ==> new.wf(),
        b.1 matches Some(new) ==> new.wf(),
    ensures
        r == join(b, a),
{
    match (a.1, b.1, b.0.merge(a.0)) {
        (None, None, Some(old)) => Some((old, None)),
        (Some(an), Some(bn), Some(old)) => match an.merge(bn) {
            Some(new) => Some((old, Some(new))),
            None => None,
        },
        _ => None,
    }
}

impl BitmapSlab {
    /// The allocated slots, one by one.
    fn slot_blocks(&self, extents: &Vec<Extent>) -> (r: Vec<Extent>)
        requires
            self.wf(),
            extents@ == runs_of(self.allocated_slots()).map_values(
                |run: (u64, u64)|
                    run_extent(
                        self.location.disk_no(),
                        self.base(),
                        self.slot_size as int,
                        run,
                    ),
            ),
        ensures
            r@ == slots_of_runs(*self, runs_of(self.allocated_slots())),
            forall|i: int|
                0 <= i < r@.len() ==> self.fits(#[trigger] r@[i]) && r@[i].size == self.slot_size,
    {
        let ghost runs = runs_of(self.allocated_slots());
        let ghost z = self.slot_size as int;
        let mut r: Vec<Extent> = Vec::new();
        let mut i: usize = 0;
        proof {
            self.lemma_allocated_runs();
            assert(runs.take(0) =~= Seq::<(u64, u64)>::empty());
        }
        while i < extents.len()
            invariant
                i <= extents@.len(),
                self.wf(),
                z == self.slot_size,
                runs == runs_of(self.allocated_slots()),
                extents@ == runs.map_values(
                    |run: (u64, u64)|
                        run_extent(
                            self.location.disk_no(),
                            self.base(),
                            self.slot_size as int,
                            run,
                        ),
                ),
                forall|k: int|
                    0 <= k < runs.len() ==> (#[trigger] runs[k]).1 > 0 && runs[k].0 + runs[k].1
                        <= self.total_slots,
                r@ == slots_of_runs(*self, runs.take(i as int)),
                forall|k: int|
                    0 <= k < r@.len() ==> self.fits(#[trigger] r@[k]) && r@[k].size
                        == self.slot_size,
            decreases extents@.len() - i,
        {
            let old = extents[i];
            let ghost run = runs[i as int];
            proof {
                assert(extents@[i as int] == run_extent(
                    self.location.disk_no(),
                    self.base(),
                    z,
                    run,
                ));
                self.lemma_run_fits(run);
                assert(old.size == run.1 * z && old.start() == self.base() + run.0 * z) by {
                    let f = run.0 as int;
                    let c = run.1 as int;
                    let t = self.total_slots as int;
                    assert(f * z >= 0 && c * z > 0 && f * z + c * z <= t * z) by (nonlinear_arith)
                        requires
                            f >= 0,
                            c > 0,
                            f + c <= t,
                            z > 0,
                    ;
                    crate::slab_allocator::lemma_multiple_of_sector(f, z);
                    crate::base_types::law_location_round_trip(
                        self.location.disk_no(),
                        self.base() + f * z,
                    );
                }
                let c = run.1 as int;
                let sz = old.size as int;
                assert(sz / z == c) by (nonlinear_arith)
                    requires
                        sz == c * z,
                        z > 0,
                ;
            }
            let count: u64 = old.size / self.slot_size as u64;
            let ghost r0 = r@;
            let mut k: u64 = 0;
            while k < count
                invariant
                    k <= count,
                    self.wf(),
                    z == self.slot_size,
                    count == run.1,
                    run.1 > 0,
                    run.0 + run.1 <= self.total_slots,
                    old.wf(),
                    old.start() == self.base() + run.0 * z,
                    old.disk_no() == self.location.disk_no(),
                    old.size == run.1 * z,
                    r@ == r0 + Seq::new(k as nat, |x: int| self.slot_extent(run.0 + x)),
                    forall|x: int|
                        0 <= x < r@.len() ==> self.fits(#[trigger] r@[x]) && r@[x].size
                            == self.slot_size,
                decreases count - k,
            {
                let ghost r1 = r@;
                proof {
                    let f = run.0 as int;
                    let kk = k as int;
                    let c = run.1 as int;
                    assert(0 <= kk * z && kk * z + z <= c * z && (f + kk) * z == f * z + kk * z)
                        by (nonlinear_arith)
                        requires
                            0 <= kk < c,
                            z > 0,
                    ;
                    crate::slab_allocator::lemma_multiple_of_sector(kk, z);
                    self.lemma_run_fits(((f + kk) as u64, 1));
                    assert(1 * z == z);
                }
                let block = Extent {
                    location: old.location + k * self.slot_size as u64,
                    size: self.slot_size as u64,
                };
                r.push(block);
                proof {
                    assert(block == self.slot_extent(run.0 + k));
                    assert(r@ =~= r0 + Seq::new(
                        (k + 1) as nat,
                        |x: int| self.slot_extent(run.0 + x),
                    ));
                    assert forall|x: int| 0 <= x < r@.len() implies self.fits(#[trigger] r@[x])
                        && r@[x].size == self.slot_size by {
                        if x < r1.len() {
                            assert(r@[x] == r1[x]);
                        }
                    }
                }
                k += 1;
            }
            proof {
                assert(runs.take(i + 1).drop_last() =~= runs.take(i as int));
                assert(runs.take(i + 1).last() == run);
                assert(r@ =~= slots_of_runs(*self, runs.take(i + 1)));
            }
            i += 1;
        }
        assert(runs.take(runs.len() as int) =~= runs);
        r
    }
}

impl Slab {
    /// What is moved as a unit when the slab is evacuated. The boundaries of the blocks of a slab
    /// of slots are known, and moving them one by one fills holes elsewhere that would be too
    /// small for several.
    pub fn blocks(&self) -> (r: Vec<Extent>)
        requires
            self.wf(),
            self.live(),
        ensures
            r@ == blocks_of(*self),
            forall|i: int| 0 <= i < r@.len() ==> self.is_block(#[trigger] r@[i]),
    {
        let extents = self.allocated_extents();
        match &self.inner {
            SlabEnum::BitmapBased(s) => s.slot_blocks(&extents),
            SlabEnum::ExtentBased(s) => {
                proof {
                    s.lemma_allocated_fit();
                }
                extents
            },
            SlabEnum::Evacuating(_) => extents,
        }
    }
}

/// More may be allocated, but nothing else has changed.
pub open spec fn grown(a: Map<int, Slab>, b: Map<int, Slab>) -> bool {
    forall|x: int| #[trigger] a.contains_key(x) ==> b.contains_key(x) && slab_grown(a[x], b[x])
}

pub open spec fn slab_grown(a: Slab, b: Slab) -> bool {
    &&& b.same_slab(&a)
    &&& b.free_bytes().subset_of(a.free_bytes())
    &&& a.allocating_bytes().subset_of(b.allocating_bytes())
    &&& b.freeing_bytes() == a.freeing_bytes()
}

/// The extent has been allocated in the meantime.
pub open spec fn newly_in(a: Map<int, Slab>, b: Map<int, Slab>, id: SlabId, e: Extent) -> bool {
    let x = id.0 as int;
    &&& b.contains_key(x)
    &&& b[x].is_block(e)
    &&& extent_bytes(e).subset_of(b[x].allocating_bytes())
    &&& extent_bytes(e).disjoint(b[x].free_bytes())
    &&& extent_bytes(e).disjoint(b[x].freeing_bytes())
    &&& a.contains_key(x) ==> extent_bytes(e).subset_of(a[x].free_bytes())
}

pub open spec fn newly_allocated(a: Map<int, Slab>, b: Map<int, Slab>, e: Extent) -> bool {
    exists|id: SlabId| #[trigger] newly_in(a, b, id, e)
}

proof fn lemma_newly_grown(a: Map<int, Slab>, b: Map<int, Slab>, c: Map<int, Slab>, e: Extent)
    requires
        newly_allocated(a, b, e),
        grown(b, c),
    ensures
        newly_allocated(a, c, e),
{
    let id = choose|id: SlabId| #[trigger] newly_in(a, b, id, e);
    let x = id.0 as int;
    assert(b.contains_key(x));
    assert(newly_in(a, c, id, e));
}

proof fn lemma_grown_trans(a: Map<int, Slab>, b: Map<int, Slab>, c: Map<int, Slab>)
    requires
        grown(a, b),
        grown(b, c),
    ensures
        grown(a, c),
{
    assert forall|x: int| #[trigger] a.contains_key(x) implies c.contains_key(x) && slab_grown(
        a[x],
        c[x],
    ) by {
        assert(b.contains_key(x));
        assert(slab_grown(a[x], b[x]));
        assert(slab_grown(b[x], c[x]));
    }
}

/// The slabs that are not to be allocated from are as before.
pub open spec fn untouched(a: BlockAllocator, b: BlockAllocator) -> bool {
    forall|x: int| #[trigger]
        a.slabs@.contains_key(x) && !a.inside().contains(x) ==> b.slabs@.contains_key(x)
            && same_state(a.slabs@[x], b.slabs@[x])
}

/// A block that is allocated was free, and is not any more; it does not overlap one that is in
/// use, which stays in use.
pub proof fn law_allocated_apart(
    a: BlockAllocator,
    b: BlockAllocator,
    sa: SlabAllocator,
    sb: SlabAllocator,
    index: int,
    size: u32,
    r: Extent,
    id: SlabId,
    e: Extent,
)
    requires
        a.wf(sa),
        b.wf(sb),
        sb.access == sa.access,
        0 <= index < a.slab_buckets.len(),
        allocation(a, b, sa, sb, index, size, Some(r)),
        a.is_allocated_block(id, e),
    ensures
        !r.overlaps(e),
        b.is_allocated_block(id, e),
        newly_allocated(a.slabs@, b.slabs@, r),
{
    lemma_allocation_effect(a, b, sa, sb, index, size, Some(r));
    reveal(BlockAllocator::owned_ok);
    let n = choose|n: SlabId| #[trigger] newly_in(a.slabs@, b.slabs@, n, r);
    let x = n.0 as int;
    let y = id.0 as int;
    assert(a.slabs@.contains_key(y));
    assert(slab_grown(a.slabs@[y], b.slabs@[y]));
    assert(b.slabs@.contains_key(y));
    assert(slab_ok(sb.access, b.slabs@[x], x));
    assert(slab_ok(sb.access, b.slabs@[y], y));
    assert(SlabId(x as u64) == n);
    assert(SlabId(y as u64) == id);
    let access = sb.access;
    access.lemma_slab_extent(access.holder(n), n);
    access.lemma_slab_extent(access.holder(id), id);
    b.slabs@[x].lemma_fits(access.slab_extent(n), r);
    b.slabs@[x].lemma_block_disk(r);
    assert(slab_ok(sa.access, a.slabs@[y], y));
    a.slabs@[y].lemma_fits(access.slab_extent(id), e);
    a.slabs@[y].lemma_block_disk(e);
    if n == id {
        if r.overlaps(e) {
            let o = if r.start() < e.start() {
                e.start()
            } else {
                r.start()
            };
            assert(extent_bytes(r).contains(o));
            assert(extent_bytes(e).contains(o));
            assert(a.slabs@[y].free_bytes().contains(o));
        }
    } else {
        access.law_slabs_disjoint(n, id);
    }
}

/// The extent is a block of the slab that has been freed since the last flush.
pub open spec fn waits_for_flush(x: BlockAllocator, id: SlabId, extent: Extent) -> bool {
    let i = id.0 as int;
    &&& x.slabs@.contains_key(i)
    &&& x.slabs@[i].is_block(extent)
    &&& extent_bytes(extent).subset_of(x.slabs@[i].freeing_bytes())
}

/// A block that has been freed since the last flush is not allocated again: no block that is
/// allocated overlaps it, and it stays freed.
pub proof fn law_freed_waits(
    a: BlockAllocator,
    b: BlockAllocator,
    sa: SlabAllocator,
    sb: SlabAllocator,
    index: int,
    size: u32,
    r: Extent,
    id: SlabId,
    e: Extent,
)
    requires
        a.wf(sa),
        b.wf(sb),
        sb.access == sa.access,
        0 <= index < a.slab_buckets.len(),
        allocation(a, b, sa, sb, index, size, Some(r)),
        waits_for_flush(a, id, e),
    ensures
        !r.overlaps(e),
        waits_for_flush(b, id, e),
{
    lemma_allocation_effect(a, b, sa, sb, index, size, Some(r));
    reveal(BlockAllocator::owned_ok);
    let n = choose|n: SlabId| #[trigger] newly_in(a.slabs@, b.slabs@, n, r);
    let x = n.0 as int;
    let y = id.0 as int;
    assert(a.slabs@.contains_key(y));
    assert(slab_grown(a.slabs@[y], b.slabs@[y]));
    assert(b.slabs@.contains_key(y));
    assert(slab_ok(sb.access, b.slabs@[x], x));
    assert(slab_ok(sb.access, b.slabs@[y], y));
    assert(SlabId(x as u64) == n);
    assert(SlabId(y as u64) == id);
    let access = sb.access;
    access.lemma_slab_extent(access.holder(n), n);
    access.lemma_slab_extent(access.holder(id), id);
    b.slabs@[x].lemma_fits(access.slab_extent(n), r);
    b.slabs@[x].lemma_block_disk(r);
    assert(slab_ok(sa.access, a.slabs@[y], y));
    a.slabs@[y].lemma_fits(access.slab_extent(id), e);
    a.slabs@[y].lemma_block_disk(e);
    a.slabs@[y].lemma_bytes();
    if n == id {
        if r.overlaps(e) {
            let o = if r.start() < e.start() {
                e.start()
            } else {
                r.start()
            };
            assert(extent_bytes(r).contains(o));
            assert(extent_bytes(e).contains(o));
            assert(a.slabs@[y].free_bytes().contains(o));
            assert(a.slabs@[y].freeing_bytes().contains(o));
        }
    } else {
        access.law_slabs_disjoint(n, id);
    }
}

/// A block that is freed waits for the next flush.
pub proof fn law_free_waits(a: BlockAllocator, b: BlockAllocator, e: Extent)
    requires
        freed_block(a, b, e),
    ensures
        exists|id: SlabId| #[trigger] waits_for_flush(b, id, e),
{
    let id = choose|id: SlabId|
        {
            let i = id.0 as int;
            &&& #[trigger] a.is_allocated_block(id, e)
            &&& b.slabs@ == a.slabs@.insert(i, b.slabs@[i])
            &&& b.slabs@[i].same_slab(&a.slabs@[i])
            &&& b.slabs@[i].freeing_bytes() == a.slabs@[i].freeing_bytes().union(
                extent_bytes(e),
            )
        };
    assert(waits_for_flush(b, id, e));
}

/// What an allocation does to the slabs. One that is not to be allocated from stays as it is.
pub proof fn lemma_allocation_effect(
    a: BlockAllocator,
    b: BlockAllocator,
    sa: SlabAllocator,
    sb: SlabAllocator,
    index: int,
    size: u32,
    r: Option<Extent>,
)
    requires
        a.wf(sa),
        0 <= index < a.slab_buckets.len(),
        allocation(a, b, sa, sb, index, size, r),
    ensures
        grown(a.slabs@, b.slabs@),
        untouched(a, b),
        r matches Some(e) ==> newly_allocated(a.slabs@, b.slabs@, e),
{
    let m = a.slabs@;
    let m2 = b.slabs@;
    let bucket = a.slab_buckets.bucket(index);
    let list = tried(bucket);
    lemma_tried(bucket, a.slab_buckets, m, a.inside(), index);
    let k = choose|k: int| #[trigger]
        first_room(m, list, size as int, k) && if k < list.len() {
            &&& r is Some
            &&& allocated_in(m, m2, list[k].slab_id, size as int, r->0)
            &&& sb == sa
            &&& b.slab_buckets.bucket(index).last_allocated == Some(list[k])
        } else {
            &&& r is Some <==> sa.allocatable@.len() > sa.reserved_slabs
            &&& r is Some ==> new_slab_allocated(a, b, sa, sb, size, r->0)
            &&& r is None ==> {
                &&& same_states(m, m2)
                &&& sb == sa
                &&& b.slab_buckets.bucket(index).last_allocated is None
                &&& b == (BlockAllocator { slabs: b.slabs, slab_buckets: b.slab_buckets, ..a })
            }
        };
    if k < list.len() {
        let id = list[k].slab_id;
        let i = id.0 as int;
        assert(a.inside().contains(i));
        assert forall|x: int| #[trigger] m.contains_key(x) implies m2.contains_key(x)
            && slab_grown(m[x], m2[x]) && (x != i ==> same_state(m[x], m2[x])) by {
            if x != i {
                assert(m.remove(i).contains_key(x));
                assert(m2.remove(i).contains_key(x));
                assert(same_state(m.remove(i)[x], m2.remove(i)[x]));
            }
        }
        assert(newly_in(m, m2, id, r->0)) by {
            reveal(BlockAllocator::owned_ok);
            assert(slab_ok(sa.access, m[i], i));
            m[i].lemma_bytes();
        }
    } else if r is Some {
        let id = sa.allocatable@.last();
        let i = id.0 as int;
        assert forall|x: int| #[trigger] m.contains_key(x) implies m2.contains_key(x)
            && slab_grown(m[x], m2[x]) && same_state(m[x], m2[x]) by {
            assert(m2.remove(i).contains_key(x));
            assert(same_state(m[x], m2.remove(i)[x]));
        }
        assert(newly_in(m, m2, id, r->0));
    } else {
        assert forall|x: int| #[trigger] m.contains_key(x) implies m2.contains_key(x)
            && slab_grown(m[x], m2[x]) by {
            assert(same_state(m[x], m2[x]));
        }
    }
}

/// Whatever bucket serves the size, its slabs are of the same kind as this one.
pub open spec fn keeps_kind(buckets: SlabAllocationBuckets, slab: Slab, size: int) -> bool {
    forall|j: int| #[trigger]
        buckets.serves(j, size) ==> buckets.bucket(j).is_extent_based == (slab.inner
            is ExtentBased)
}

/// The extent has been allocated in the meantime, in a slab of the same kind as this one.
pub open spec fn newly_like(a: Map<int, Slab>, b: Map<int, Slab>, slab: Slab, e: Extent) -> bool {
    exists|id: SlabId| #[trigger]
        newly_in(a, b, id, e) && (b[id.0 as int].inner is ExtentBased) == (slab.inner
            is ExtentBased)
}

/// An allocation in the bucket of a slab is at least as large as the request, and exactly as
/// large where its slab is of the same kind.
proof fn lemma_allocation_size(
    a: BlockAllocator,
    b: BlockAllocator,
    sa: SlabAllocator,
    sb: SlabAllocator,
    index: int,
    size: u32,
    e: Extent,
    slab: Slab,
)
    requires
        a.wf(sa),
        allocation(a, b, sa, sb, index, size, Some(e)),
        home(a.slab_buckets, slab, index),
        slab.live(),
        slab.inner is BitmapBased ==> size == slab.spec_max_size(),
    ensures
        e.wf(),
        e.size >= size,
        keeps_kind(a.slab_buckets, slab, size as int) ==> e.size == size && newly_like(
            a.slabs@,
            b.slabs@,
            slab,
            e,
        ),
{
    let m = a.slabs@;
    let bucket = a.slab_buckets.bucket(index);
    let list = tried(bucket);
    lemma_tried(bucket, a.slab_buckets, m, a.inside(), index);
    let k = choose|k: int| #[trigger]
        first_room(m, list, size as int, k) && if k < list.len() {
            &&& allocated_in(m, b.slabs@, list[k].slab_id, size as int, e)
            &&& sb == sa
            &&& b.slab_buckets.bucket(index).last_allocated == Some(list[k])
        } else {
            &&& sa.allocatable@.len() > sa.reserved_slabs
            &&& new_slab_allocated(a, b, sa, sb, size, e)
        };
    if k < list.len() {
        let i = list[k].slab_id.0 as int;
        m[i].lemma_block_disk(e);
        assert(home(a.slab_buckets, m[i], index));
        assert(newly_in(m, b.slabs@, list[k].slab_id, e)) by {
            reveal(BlockAllocator::owned_ok);
            assert(slab_ok(sa.access, m[i], i));
            m[i].lemma_bytes();
        }
        assert(b.slabs@[i].same_slab(&m[i]));
    } else {
        let id = sa.allocatable@.last();
        let i = id.0 as int;
        b.slabs@[i].lemma_block_disk(e);
        assert(newly_in(m, b.slabs@, id, e));
        if keeps_kind(a.slab_buckets, slab, size as int) {
            let j = choose|j: int| #[trigger]
                a.slab_buckets.serves(j, size as int) && b.slabs@[i].slab_type()
                    == if a.slab_buckets.bucket(j).is_extent_based {
                    SlabPhysType::ExtentBased { max_size: a.slab_buckets.size(j) }
                } else {
                    SlabPhysType::BitmapBased { block_size: a.slab_buckets.size(j) }
                } && e.size == if a.slab_buckets.bucket(j).is_extent_based {
                    size
                } else {
                    a.slab_buckets.size(j)
                } && b.slab_buckets.bucket(j).last_allocated == Some(
                    SlabBucketEntry { allocated_space: 0, slab_id: id },
                );
            if slab.inner is BitmapBased {
                assert(a.slab_buckets.wf()) by {
                    reveal(buckets_ok);
                }
                lemma_serves_home(a.slab_buckets, slab, index, j);
            }
        }
    }
}

/// No byte is in two of the new extents.
pub open spec fn news_apart(moves: Seq<(Extent, Option<Extent>)>) -> bool {
    forall|i: int, j: int|
        0 <= i < j < moves.len() && (#[trigger] moves[i]).1 is Some && (#[trigger] moves[j]).1
            is Some ==> no_common_byte(moves[i].1->0, moves[j].1->0)
}

pub open spec fn no_common_byte(a: Extent, b: Extent) -> bool {
    a.disk_no() != b.disk_no() || a.end() <= b.start() || b.end() <= a.start()
}

/// What was allocated later has no byte in common with what was allocated before.
proof fn lemma_new_apart(
    access: SlabAccess,
    a: Map<int, Slab>,
    b: Map<int, Slab>,
    c: Map<int, Slab>,
    e: Extent,
    f: Extent,
)
    requires
        access.wf(),
        slabs_ok(access, b),
        slabs_ok(access, c),
        newly_allocated(a, b, e),
        newly_allocated(b, c, f),
    ensures
        no_common_byte(e, f),
{
    let p = choose|id: SlabId| #[trigger] newly_in(a, b, id, e);
    let q = choose|id: SlabId| #[trigger] newly_in(b, c, id, f);
    let x = p.0 as int;
    let y = q.0 as int;
    assert(slab_ok(access, b[x], x));
    assert(slab_ok(access, c[y], y));
    access.lemma_slab_extent(access.holder(p), p);
    access.lemma_slab_extent(access.holder(q), q);
    b[x].lemma_fits(access.slab_extent(p), e);
    c[y].lemma_fits(access.slab_extent(q), f);
    b[x].lemma_block_disk(e);
    c[y].lemma_block_disk(f);
    if p != q {
        access.law_slabs_disjoint(p, q);
    } else {
        assert(extent_bytes(f).subset_of(b[x].free_bytes()));
        if !no_common_byte(e, f) {
            let o = if e.start() < f.start() {
                f.start()
            } else {
                e.start()
            };
            assert(extent_bytes(e).contains(o));
            assert(extent_bytes(f).contains(o));
            assert(b[x].free_bytes().contains(o));
        }
    }
}

/// The blocks were allocated for in turn, in the same bucket.
#[verifier::opaque]
pub open spec fn allocated_each(
    states: Seq<BlockAllocator>,
    sas: Seq<SlabAllocator>,
    index: int,
    blocks: Seq<Extent>,
    moves: Seq<(Extent, Option<Extent>)>,
) -> bool {
    &&& states.len() == blocks.len() + 1
    &&& sas.len() == states.len()
    &&& moves.len() == blocks.len()
    &&& forall|i: int|
        0 <= i < moves.len() ==> (#[trigger] moves[i]).0 == blocks[i] && allocation(
            states[i],
            states[i + 1],
            sas[i],
            sas[i + 1],
            index,
            blocks[i].size as u32,
            moves[i].1,
        )
}

/// The moves of the blocks of a slab. Each block is allocated for in turn, in the bucket of the
/// slab, and goes to what that allocation gave, or nowhere if it failed. The new extent is large
/// enough; it is as large as the block, and in a slab of the same kind, where the size of the
/// block is served by slabs of that kind.
pub open spec fn moves_of(
    a: BlockAllocator,
    b: BlockAllocator,
    sa: SlabAllocator,
    sb: SlabAllocator,
    slab: Slab,
    blocks: Seq<Extent>,
    moves: Seq<(Extent, Option<Extent>)>,
) -> bool {
    &&& moves.len() == blocks.len()
    &&& exists|states: Seq<BlockAllocator>, sas: Seq<SlabAllocator>, index: int|
        {
            &&& #[trigger] allocated_each(states, sas, index, blocks, moves)
            &&& home(a.slab_buckets, slab, index)
            &&& states[0] == a
            &&& sas[0] == sa
            &&& states.last() == b
            &&& sas.last() == sb
        }
    &&& forall|i: int|
        0 <= i < moves.len() ==> (#[trigger] moves[i]).0 == blocks[i] && slab.is_block(blocks[i])
            && (moves[i].1 matches Some(new) ==> placed(a, b, slab, blocks[i], new))
    &&& news_apart(moves)
}

/// The new place of a block of a slab.
pub open spec fn placed(
    a: BlockAllocator,
    b: BlockAllocator,
    slab: Slab,
    block: Extent,
    new: Extent,
) -> bool {
    &&& new.wf()
    &&& new.size >= block.size
    &&& newly_allocated(a.slabs@, b.slabs@, new)
    &&& keeps_kind(a.slab_buckets, slab, block.size as int) ==> new.size == block.size
        && newly_like(a.slabs@, b.slabs@, slab, new)
}

impl BlockAllocator {
    /// Allocates space for the blocks of a slab.
    fn allocate_for(&mut self, sa: &mut SlabAllocator, id: SlabId, blocks: &Vec<Extent>) -> (moves:
        Vec<(Extent, Option<Extent>)>)
        requires
            old(self).wf(*old(sa)),
            old(self).ready(*old(sa)),
            old(self).slabs@.contains_key(id.0 as int),
            old(self).slabs@[id.0 as int].live(),
            !old(self).inside().contains(id.0 as int),
            forall|i: int|
                0 <= i < blocks@.len() ==> old(self).slabs@[id.0 as int].is_block(
                    #[trigger] blocks@[i],
                ),
            exists|i: int|
                0 <= i < old(self).slab_buckets.len() && #[trigger] old(self).slab_buckets.size(i)
                    >= old(self).slab_size,
        ensures
            final(self).wf(*final(sa)),
            final(self).ready(*final(sa)),
            final(sa).access == old(sa).access,
            old(sa).separate() ==> final(sa).separate(),
            kept_by_allocation(*old(self), *final(self)),
            forall|x: int| #[trigger] final(self).is_blocked(x) == old(self).is_blocked(x),
            grown(old(self).slabs@, final(self).slabs@),
            final(self).slabs@.contains_key(id.0 as int),
            same_state(old(self).slabs@[id.0 as int], final(self).slabs@[id.0 as int]),
            untouched(*old(self), *final(self)),
            moves_of(
                *old(self),
                *final(self),
                *old(sa),
                *final(sa),
                old(self).slabs@[id.0 as int],
                blocks@,
                moves@,
            ),
    {
        let ghost a = *self;
        let ghost mut states = seq![*self];
        let ghost mut sas = seq![*sa];
        let ghost x = id.0 as int;
        let ghost access = sa.access;
        proof {
            reveal(BlockAllocator::owned_ok);
            assert(slab_ok(access, a.slabs@[x], x));
            access.lemma_id_below_next(id);
            assert(exists|i: int| home(a.slab_buckets, a.slabs@[x], i)) by {
                reveal(buckets_ok);
                assert(a.slabs@.contains_key(x));
            }
            let i = choose|i: int| home(a.slab_buckets, a.slabs@[x], i);
            assert(a.slab_buckets.size(i) >= a.slabs@[x].spec_max_size());
        }
        let index = self.slab_buckets.find(self.slabs.get(id).max_size());
        proof {
            let i = choose|i: int| home(a.slab_buckets, a.slabs@[x], i);
            assert(a.slab_buckets.wf()) by {
                reveal(buckets_ok);
            }
            lemma_serves_home(a.slab_buckets, a.slabs@[x], i, index as int);
        }
        let mut moves: Vec<(Extent, Option<Extent>)> = Vec::new();
        let mut k: usize = 0;
        assert(grown(a.slabs@, self.slabs@));
        assert(allocated_each(states, sas, index as int, blocks@.take(0), moves@)) by {
            reveal(allocated_each);
        }
        while k < blocks.len()
            invariant
                k <= blocks@.len(),
                x == id.0,
                a == *old(self),
                access == sa.access,
                access == old(sa).access,
                access.wf(),
                a.wf(*old(sa)),
                slab_ok(access, a.slabs@[x], x),
                a.slabs@.contains_key(x),
                a.slabs@[x].live(),
                self.wf(*sa),
                self.ready(*sa),
                old(sa).separate() ==> sa.separate(),
                !self.inside().contains(x),
                self.slabs@.contains_key(x),
                same_state(a.slabs@[x], self.slabs@[x]),
                kept_by_allocation(a, *self),
                forall|y: int| #[trigger] self.is_blocked(y) == a.is_blocked(y),
                grown(a.slabs@, self.slabs@),
                untouched(a, *self),
                forall|i: int| 0 <= i < blocks@.len() ==> a.slabs@[x].is_block(
                    #[trigger] blocks@[i],
                ),
                index < a.slab_buckets.len(),
                home(a.slab_buckets, a.slabs@[x], index as int),
                exists|i: int|
                    0 <= i < a.slab_buckets.len() && #[trigger] a.slab_buckets.size(i)
                        >= a.slab_size,
                moves@.len() == k,
                allocated_each(states, sas, index as int, blocks@.take(k as int), moves@),
                states.len() > 0,
                sas.len() > 0,
                states[0] == a,
                sas[0] == *old(sa),
                states.last() == *self,
                sas.last() == *sa,
                forall|i: int|
                    0 <= i < k ==> (#[trigger] moves@[i]).0 == blocks@[i] && (
                    moves@[i].1 matches Some(new) ==> placed(
                        a,
                        *self,
                        a.slabs@[x],
                        blocks@[i],
                        new,
                    )),
                news_apart(moves@),
            decreases blocks@.len() - k,
        {
            let old_extent = blocks[k];
            let ghost b = *self;
            let ghost sb = *sa;
            proof {
                reveal(BlockAllocator::owned_ok);
                assert(a.slabs@[x].is_block(blocks@[k as int]));
                access.lemma_slab_extent(access.holder(id), id);
                a.slabs@[x].lemma_fits(access.slab_extent(id), old_extent);
                a.slabs@[x].lemma_block_aligned(old_extent);
                assert(b.slab_buckets.size(index as int) == a.slab_buckets.size(index as int));
                let w = choose|i: int|
                    0 <= i < a.slab_buckets.len() && #[trigger] a.slab_buckets.size(i)
                        >= a.slab_size;
                assert(b.slab_buckets.size(w) == a.slab_buckets.size(w));
            }
            let r = self.allocate_impl(sa, index, old_extent.size as u32);
            proof {
                lemma_allocation_effect(
                    b,
                    *self,
                    sb,
                    *sa,
                    index as int,
                    old_extent.size as u32,
                    r,
                );
                assert(b.slabs@.contains_key(x));
                lemma_grown_trans(a.slabs@, b.slabs@, self.slabs@);
                assert(slabs_ok(access, b.slabs@) && slabs_ok(access, self.slabs@)) by {
                    reveal(BlockAllocator::owned_ok);
                }
                if r is Some {
                    lemma_new_place(
                        a,
                        b,
                        *self,
                        sb,
                        *sa,
                        index as int,
                        old_extent,
                        r->0,
                        a.slabs@[x],
                    );
                }
                assert forall|i: int| 0 <= i < k implies ((#[trigger] moves@[i]).1 matches Some(
                    new,
                ) ==> placed(a, *self, a.slabs@[x], blocks@[i], new) && (r is Some
                    ==> no_common_byte(new, r->0))) by {
                    if moves@[i].1 is Some {
                        let new = moves@[i].1->0;
                        assert(placed(a, b, a.slabs@[x], blocks@[i], new));
                        lemma_placed_grown(a, b, *self, a.slabs@[x], blocks@[i], new);
                        if r is Some {
                            lemma_new_apart(
                                access,
                                a.slabs@,
                                b.slabs@,
                                self.slabs@,
                                new,
                                r->0,
                            );
                        }
                    }
                }
                assert forall|y: int| #[trigger] self.is_blocked(y) == a.is_blocked(y) by {
                    assert(b.is_blocked(y) == a.is_blocked(y));
                }
                lemma_kept_trans(a, b, *self);
                assert(untouched(a, *self)) by {
                    assert forall|y: int| #[trigger]
                        a.slabs@.contains_key(y) && !a.inside().contains(y) implies self.slabs@.contains_key(
                        y,
                    ) && same_state(a.slabs@[y], self.slabs@[y]) by {
                        assert(b.slabs@.contains_key(y));
                        assert(b.is_blocked(a.slabs@[y].disk()) == a.is_blocked(
                            a.slabs@[y].disk(),
                        ));
                        assert(!b.inside().contains(y));
                    }
                }
                assert(!self.inside().contains(x)) by {
                    assert(self.is_blocked(a.slabs@[x].disk()) == b.is_blocked(
                        a.slabs@[x].disk(),
                    ));
                }
            }
            let ghost moves0 = moves@;
            moves.push((old_extent, r));
            proof {
                lemma_allocated_each_push(
                    states,
                    sas,
                    index as int,
                    blocks@.take(k as int),
                    moves0,
                    *self,
                    *sa,
                    old_extent,
                    r,
                );
                states = states.push(*self);
                sas = sas.push(*sa);
                assert(blocks@.take(k as int).push(old_extent) =~= blocks@.take(k + 1));
                assert forall|i: int, j: int|
                    0 <= i < j < moves@.len() && (#[trigger] moves@[i]).1 is Some && (
                    #[trigger] moves@[j]).1 is Some implies no_common_byte(
                    moves@[i].1->0,
                    moves@[j].1->0,
                ) by {
                    assert(moves@[i] == moves0[i]);
                    if j < moves0.len() {
                        assert(moves@[j] == moves0[j]);
                    }
                }
            }
            k += 1;
        }
        assert(blocks@.take(k as int) =~= blocks@);
        moves
    }
}

/// What was allocated for a block is a place for it.
proof fn lemma_new_place(
    a: BlockAllocator,
    b: BlockAllocator,
    c: BlockAllocator,
    sb: SlabAllocator,
    sc: SlabAllocator,
    index: int,
    block: Extent,
    new: Extent,
    slab: Slab,
)
    requires
        b.wf(sb),
        kept_by_allocation(a, b),
        grown(a.slabs@, b.slabs@),
        newly_allocated(b.slabs@, c.slabs@, new),
        block.size <= u32::MAX,
        allocation(b, c, sb, sc, index, block.size as u32, Some(new)),
        home(a.slab_buckets, slab, index),
        slab.live(),
        slab.is_block(block),
    ensures
        placed(a, c, slab, block, new),
{
    assert(b.slab_buckets.size(index) == a.slab_buckets.size(index));
    lemma_allocation_size(b, c, sb, sc, index, block.size as u32, new, slab);
    let q = choose|q: SlabId| #[trigger] newly_in(b.slabs@, c.slabs@, q, new);
    assert(newly_in(a.slabs@, c.slabs@, q, new)) by {
        if a.slabs@.contains_key(q.0 as int) {
            assert(slab_grown(a.slabs@[q.0 as int], b.slabs@[q.0 as int]));
        }
    }
    let size = block.size as int;
    if keeps_kind(a.slab_buckets, slab, size) {
        assert forall|j: int| #[trigger] b.slab_buckets.serves(j, size) implies b.slab_buckets.bucket(
            j,
        ).is_extent_based == (slab.inner is ExtentBased) by {
            assert(b.slab_buckets.size(j) == a.slab_buckets.size(j));
            assert forall|i: int| 0 <= i < j implies #[trigger] a.slab_buckets.size(i) < size by {
                assert(b.slab_buckets.size(i) == a.slab_buckets.size(i));
            }
            assert(a.slab_buckets.serves(j, size));
        }
        let id = choose|id: SlabId| #[trigger]
            newly_in(b.slabs@, c.slabs@, id, new) && (c.slabs@[id.0 as int].inner
                is ExtentBased) == (slab.inner is ExtentBased);
        assert(newly_in(a.slabs@, c.slabs@, id, new)) by {
            if a.slabs@.contains_key(id.0 as int) {
                assert(slab_grown(a.slabs@[id.0 as int], b.slabs@[id.0 as int]));
            }
        }
    }
}

proof fn lemma_allocated_each_push(
    states: Seq<BlockAllocator>,
    sas: Seq<SlabAllocator>,
    index: int,
    blocks: Seq<Extent>,
    moves: Seq<(Extent, Option<Extent>)>,
    b: BlockAllocator,
    sb: SlabAllocator,
    block: Extent,
    r: Option<Extent>,
)
    requires
        allocated_each(states, sas, index, blocks, moves),
        allocation(states.last(), b, sas.last(), sb, index, block.size as u32, r),
    ensures
        allocated_each(
            states.push(b),
            sas.push(sb),
            index,
            blocks.push(block),
            moves.push((block, r)),
        ),
{
    reveal(allocated_each);
    let moves2 = moves.push((block, r));
    let blocks2 = blocks.push(block);
    let states2 = states.push(b);
    let sas2 = sas.push(sb);
    assert forall|i: int| 0 <= i < moves2.len() implies (#[trigger] moves2[i]).0 == blocks2[i]
        && allocation(
        states2[i],
        states2[i + 1],
        sas2[i],
        sas2[i + 1],
        index,
        blocks2[i].size as u32,
        moves2[i].1,
    ) by {
        if i < moves.len() {
            assert(moves2[i] == moves[i]);
            assert(states2[i] == states[i] && states2[i + 1] == states[i + 1]);
            assert(sas2[i] == sas[i] && sas2[i + 1] == sas[i + 1]);
        }
    }
}

/// A place stays one.
proof fn lemma_placed_grown(
    a: BlockAllocator,
    b: BlockAllocator,
    c: BlockAllocator,
    slab: Slab,
    block: Extent,
    new: Extent,
)
    requires
        placed(a, b, slab, block, new),
        grown(b.slabs@, c.slabs@),
    ensures
        placed(a, c, slab, block, new),
{
    lemma_newly_grown(a.slabs@, b.slabs@, c.slabs@, new);
    if keeps_kind(a.slab_buckets, slab, block.size as int) {
        let id = choose|id: SlabId| #[trigger]
            newly_in(a.slabs@, b.slabs@, id, new) && (b.slabs@[id.0 as int].inner
                is ExtentBased) == (slab.inner is ExtentBased);
        assert(b.slabs@.contains_key(id.0 as int));
        assert(newly_in(a.slabs@, c.slabs@, id, new));
    }
}

proof fn lemma_kept_trans(a: BlockAllocator, b: BlockAllocator, c: BlockAllocator)
    requires
        kept_by_allocation(a, b),
        kept_by_allocation(b, c),
    ensures
        kept_by_allocation(a, c),
{
    assert forall|i: int| 0 <= i < a.slab_buckets.len() implies #[trigger] c.slab_buckets.size(i)
        == a.slab_buckets.size(i) && c.slab_buckets.bucket(i).is_extent_based
        == a.slab_buckets.bucket(i).is_extent_based by {
        assert(b.slab_buckets.size(i) == a.slab_buckets.size(i));
        assert(c.slab_buckets.size(i) == b.slab_buckets.size(i));
    }
}

/// All is well after a slab has been given up for evacuation.
#[verifier::spinoff_prover]
proof fn lemma_evacuated(
    a: BlockAllocator,
    b: BlockAllocator,
    sa: SlabAllocator,
    id: SlabId,
    d: int,
)
    requires
        a.wf(sa),
        a.exact(),
        a.slabs@.contains_key(id.0 as int),
        a.slabs@[id.0 as int].live(),
        !a.inside().contains(id.0 as int),
        d == a.slabs@[id.0 as int].disk(),
        a.noalloc_state@.contains_key(d) ==> a.is_blocked(d),
        b.slabs@.contains_key(id.0 as int),
        b.slabs@.remove(id.0 as int) =~= a.slabs@.remove(id.0 as int),
        b.slabs@[id.0 as int].id == id,
        b.slabs@[id.0 as int].wf(),
        b.slabs@[id.0 as int].slab_type() == SlabPhysType::Evacuating,
        b.slabs@[id.0 as int].of(sa.access.slab_extent(id)),
        !b.slabs@[id.0 as int].is_dirty,
        b == (BlockAllocator {
            spacemap: b.spacemap,
            spacemap_next: b.spacemap_next,
            slabs: b.slabs,
            evacuating_slabs: b.evacuating_slabs,
            per_disk_stats: b.per_disk_stats,
            aside: b.aside,
            ..a
        }),
        b.evacuating_slabs@ == a.evacuating_slabs@.push(id),
        b.aside@ == a.aside@.remove(id.0 as int),
        logged(a, b, id, seq![SpaceMapEntry::SlabInfo(id, SlabPhysType::Evacuating)]),
        a.per_disk_stats@.contains_key(d),
        b.per_disk_stats@ =~= a.per_disk_stats@.insert(d, b.per_disk_stats@[d]),
        b.per_disk_stats@[d].alloc_bytes == a.per_disk_stats@[d].alloc_bytes
            - a.slabs@[id.0 as int].allocated_bytes().len(),
        b.per_disk_stats@[d].free_bytes == a.per_disk_stats@[d].free_bytes
            - a.slabs@[id.0 as int].free_bytes().len(),
        b.per_disk_stats@[d].noalloc_bytes == if a.noalloc_state@.contains_key(d) {
            a.per_disk_stats@[d].noalloc_bytes - a.slabs@[id.0 as int].free_bytes().len()
        } else {
            a.per_disk_stats@[d].noalloc_bytes as int
        },
    ensures
        b.wf(sa),
        b.exact(),
        a.ready(sa) ==> b.ready(sa),
        forall|x: int| #[trigger] b.is_blocked(x) ==> a.is_blocked(x),
        forall|x: int| x != d ==> #[trigger] b.is_blocked(x) == a.is_blocked(x),
{
    let i = id.0 as int;
    let m = a.slabs@;
    let m2 = b.slabs@;
    let n = a.noalloc_state@;
    let access = sa.access;
    reveal(BlockAllocator::owned_ok);
    assert(slab_ok(access, m[i], i));
    assert forall|x: int| x != i implies (#[trigger] m2.contains_key(x) == m.contains_key(x)) && (
    m.contains_key(x) ==> m2[x] == m[x]) by {
        assert(m2.remove(i).contains_key(x) == m2.contains_key(x));
        assert(m.remove(i).contains_key(x) == m.contains_key(x));
        if m.contains_key(x) {
            assert(m.remove(i)[x] == m2.remove(i)[x]);
        }
    }
    m2[i].lemma_within(access.slab_extent(id));
    m[i].lemma_within(access.slab_extent(id));
    access.lemma_id_below_next(id);
    assert(slabs_ok(access, m2)) by {
        assert forall|x: int| #[trigger] m2.contains_key(x) implies slab_ok(access, m2[x], x) by {
            if x != i {
                assert(m.contains_key(x));
            }
        }
    }
    lemma_evacuated_noalloc(a, b, sa, id, d);
    // statistics
    assert(m2[i].free_bytes() =~= Set::<int>::empty());
    assert(m2[i].allocated_bytes() =~= Set::<int>::empty());
    assert(a.per_disk_stats@[d].noalloc_bytes == if a.is_blocked(d) {
        a.per_disk_stats@[d].free_bytes
    } else {
        0
    }) by {
        reveal(noalloc_exact);
    }
    lemma_stats_change(
        a.per_disk_stats@,
        b.per_disk_stats@,
        m,
        m2,
        i,
        access.next_slab_id.0 as int,
        d,
    );
    lemma_dirty_change(a.dirty_slabs@, b.dirty_slabs@, m, m2, i);
    // logs
    let entry = SpaceMapEntry::SlabInfo(id, SlabPhysType::Evacuating);
    let entries = seq![entry];
    assert(entries.drop_last() =~= Seq::<SpaceMapEntry>::empty());
    assert(entries.last() == entry);
    assert(record_after(access, record_of(m, i), entries.drop_last(), id) == record_of(m, i));
    assert(m2[i].recorded_free() =~= Set::<int>::empty());
    assert(record_after(access, record_of(m, i), entries, id) == record_of(m2, i));
    assert(entry_placed(access, entry));
    assert forall|o: SlabId| o != id implies !mentions(access, entries, o) by {
        if mentions(access, entries, o) {
            let x = choose|x: int|
                0 <= x < entries.len() && touches(access, #[trigger] entries[x], o);
            assert(entries[x] == entry);
        }
    }
    lemma_logs_append(
        access,
        m,
        m2,
        a.spacemap.all(),
        a.spacemap_next.all(),
        a.next_slab_to_condense.0,
        id,
        entries,
    );
    assert(b.owned_ok(sa)) by {
        assert forall|x: int| #[trigger] m2.contains_key(x) implies sa.allocated(
            SlabId(x as u64),
        ) by {
            assert(m.contains_key(x));
        }
        let l = a.spacemap.log.phys.slabs@;
        let l2 = a.spacemap_next.log.phys.slabs@;
        assert forall|k: int| 0 <= k < l.len() implies !m2.contains_key(
            (#[trigger] l[k]).0 as int,
        ) by {
            assert(!m.contains_key(l[k].0 as int));
        }
        assert forall|k: int| 0 <= k < l2.len() implies !m2.contains_key(
            (#[trigger] l2[k]).0 as int,
        ) by {
            assert(!m.contains_key(l2[k].0 as int));
        }
    }
    assert(b.exact()) by {
        reveal(noalloc_exact);
        assert forall|x: int| #[trigger] b.per_disk_stats@.contains_key(
            x,
        ) implies b.per_disk_stats@[x].noalloc_bytes == if blocked(n, m2, x) {
            b.per_disk_stats@[x].free_bytes
        } else {
            0
        } by {
            assert(a.per_disk_stats@.contains_key(x));
            if x != d {
                assert(b.is_blocked(x) == a.is_blocked(x));
            } else if a.is_blocked(d) && !b.is_blocked(d) {
                lemma_all_evacuated(a, b, sa, d);
            }
        }
    }
    assert forall|x: int| b.aside@.contains(x) implies #[trigger] m2.contains_key(x) by {
        assert(m.contains_key(x));
    }
}

/// The part about disks that are being removed, and about buckets.
#[verifier::spinoff_prover]
proof fn lemma_evacuated_noalloc(
    a: BlockAllocator,
    b: BlockAllocator,
    sa: SlabAllocator,
    id: SlabId,
    d: int,
)
    requires
        slabs_ok(sa.access, a.slabs@),
        slabs_ok(sa.access, b.slabs@),
        noalloc_ok(a.noalloc_state@, a.evacuating_slabs@, a.slabs@),
        buckets_ok(a.slab_buckets, a.slabs@, a.inside()),
        a.slabs@.contains_key(id.0 as int),
        a.slabs@[id.0 as int].live(),
        a.slabs@[id.0 as int].id == id,
        !a.inside().contains(id.0 as int),
        d == a.slabs@[id.0 as int].disk(),
        d == b.slabs@[id.0 as int].disk(),
        a.noalloc_state@.contains_key(d) ==> a.is_blocked(d),
        b.slabs@.contains_key(id.0 as int),
        forall|x: int|
            x != id.0 ==> (#[trigger] b.slabs@.contains_key(x) == a.slabs@.contains_key(x)) && (
            a.slabs@.contains_key(x) ==> b.slabs@[x] == a.slabs@[x]),
        !b.slabs@[id.0 as int].live(),
        b.slabs@[id.0 as int].id == id,
        b.noalloc_state == a.noalloc_state,
        b.slab_buckets == a.slab_buckets,
        b.evacuating_slabs@ == a.evacuating_slabs@.push(id),
        b.aside@ == a.aside@.remove(id.0 as int),
    ensures
        noalloc_ok(b.noalloc_state@, b.evacuating_slabs@, b.slabs@),
        buckets_ok(b.slab_buckets, b.slabs@, b.inside()),
        forall|x: int| #[trigger] b.is_blocked(x) ==> a.is_blocked(x),
        forall|x: int| x != d ==> #[trigger] b.is_blocked(x) == a.is_blocked(x),
{
    let i = id.0 as int;
    let m = a.slabs@;
    let m2 = b.slabs@;
    let n = a.noalloc_state@;
    reveal(noalloc_ok);
    assert forall|x: int, k: int| n.contains_key(x) && 0 <= k < n[x]@.len() implies ({
        let y = (#[trigger] n[x]@[k]).0 as int;
        &&& m.contains_key(y)
        &&& m2.contains_key(y)
        &&& m[y].disk() == x
        &&& m2[y].disk() == x
        &&& y != i ==> m2[y] == m[y]
    }) by {
        let y = n[x]@[k].0 as int;
        assert(m.contains_key(y));
        if y != i {
            assert(b.slabs@.contains_key(y) == a.slabs@.contains_key(y));
        }
    }
    assert forall|x: int| #[trigger] b.is_blocked(x) implies a.is_blocked(x) by {
        let k = choose|k: int| 0 <= k < n[x]@.len() && m2[(#[trigger] n[x]@[k]).0 as int].live();
        assert(n[x]@[k].0 as int != i);
        assert(m[n[x]@[k].0 as int].live());
    }
    assert forall|x: int| x != d implies #[trigger] b.is_blocked(x) == a.is_blocked(x) by {
        if a.is_blocked(x) {
            let k = choose|k: int|
                0 <= k < n[x]@.len() && m[(#[trigger] n[x]@[k]).0 as int].live();
            assert(n[x]@[k].0 as int != i);
            assert(m2[n[x]@[k].0 as int].live());
        }
    }
    let e = a.evacuating_slabs@;
    assert forall|x: SlabId| #[trigger] b.evacuating_slabs@.contains(x) <==> m2.contains_key(
        x.0 as int,
    ) && !m2[x.0 as int].live() by {
        crate::block_based_log::lemma_contains_push(e, id, x);
        if x != id {
            assert(x.0 as int != i);
            assert(m2.contains_key(x.0 as int) == m.contains_key(x.0 as int));
        }
        assert(e.contains(x) <==> m.contains_key(x.0 as int) && !m[x.0 as int].live());
    }
    assert(distinct(b.evacuating_slabs@)) by {
        assert forall|x: int, y: int| 0 <= x < y < b.evacuating_slabs@.len() implies
            b.evacuating_slabs@[x] != b.evacuating_slabs@[y] by {
            if y == e.len() {
                assert(e.contains(e[x]));
            }
        }
    }
    assert forall|x: int|
        #[trigger] m2.contains_key(x) && n.contains_key(m2[x].disk()) && (!m2[x].live() || blocked(
            n,
            m2,
            m2[x].disk(),
        )) implies n[m2[x].disk()]@.contains(m2[x].id) by {
        if x == i {
            assert(a.is_blocked(d));
            assert(m.contains_key(i));
            assert(n[d]@.contains(m[i].id));
        } else {
            assert(m.contains_key(x));
            if blocked(n, m2, m2[x].disk()) {
                assert(b.is_blocked(m2[x].disk()));
            }
        }
    }
    // buckets
    reveal(buckets_ok);
    let ids = b.inside();
    let ids0 = a.inside();
    assert forall|x: int| #[trigger] m2.contains_key(x) && m2[x].live() implies (ids.contains(x)
        <==> ids0.contains(x)) by {
        assert(x != i);
        assert(m.contains_key(x));
        let dx = m[x].disk();
        if dx != d {
            assert(b.is_blocked(dx) == a.is_blocked(dx));
        } else if a.is_blocked(d) {
            assert(n[d]@.contains(m[x].id));
            let k = choose|k: int| 0 <= k < n[d]@.len() && n[d]@[k] == m[x].id;
            assert(slab_ok(sa.access, m[x], x));
            assert(n[d]@[k].0 as int == x);
            assert(m2[n[d]@[k].0 as int].live());
            assert(b.is_blocked(d));
        }
    }
    assert forall|j: int, k: int|
        0 <= j < b.slab_buckets.len() && 0 <= k < b.slab_buckets.bucket(
            j,
        ).by_freeness@.len() implies ({
        let x = (#[trigger] b.slab_buckets.bucket(j).by_freeness@[k]).slab_id.0 as int;
        &&& m2.contains_key(x)
        &&& m2[x].live()
        &&& home(b.slab_buckets, m2[x], j)
        &&& ids.contains(x)
    }) by {
        let x = a.slab_buckets.bucket(j).by_freeness@[k].slab_id.0 as int;
        assert(m.contains_key(x));
        assert(ids0.contains(x));
        assert(x != i);
        assert(m2.contains_key(x));
    }
    assert forall|x: int| #[trigger] m2.contains_key(x) && m2[x].live() implies exists|j: int|
        #[trigger] home(b.slab_buckets, m2[x], j) && (has_slab(
            b.slab_buckets.bucket(j).by_freeness@,
            m2[x].id,
        ) <==> ids.contains(x)) by {
        assert(x != i);
        assert(m.contains_key(x));
        let j = choose|j: int| #[trigger]
            home(a.slab_buckets, m[x], j) && (has_slab(
                a.slab_buckets.bucket(j).by_freeness@,
                m[x].id,
            ) <==> ids0.contains(x));
        assert(home(b.slab_buckets, m2[x], j));
    }
}

/// A disk that was blocked and no longer is has no free space in its slabs.
proof fn lemma_all_evacuated(a: BlockAllocator, b: BlockAllocator, sa: SlabAllocator, d: int)
    requires
        slabs_ok(sa.access, b.slabs@),
        noalloc_ok(b.noalloc_state@, b.evacuating_slabs@, b.slabs@),
        stats_ok(b.per_disk_stats@, b.slabs@, sa.access.next_slab_id.0 as int),
        b.per_disk_stats@.contains_key(d),
        a.is_blocked(d),
        !b.is_blocked(d),
        noalloc_ok(a.noalloc_state@, a.evacuating_slabs@, a.slabs@),
        slabs_ok(sa.access, a.slabs@),
        b.noalloc_state == a.noalloc_state,
        forall|x: int|
            #[trigger] b.slabs@.contains_key(x) && b.slabs@[x].disk() == d ==> a.slabs@.contains_key(
                x,
            ) && a.slabs@[x].disk() == d,
    ensures
        b.per_disk_stats@[d].free_bytes == 0,
{
    reveal(noalloc_ok);
    reveal(stats_ok);
    let m = b.slabs@;
    let n = b.noalloc_state@;
    assert forall|x: int| #[trigger] m.contains_key(x) implies free_on(d)(m[x]) == 0 by {
        if m[x].disk() == d {
            assert(a.slabs@.contains_key(x));
            assert(slab_ok(sa.access, a.slabs@[x], x));
            assert(slab_ok(sa.access, m[x], x));
            assert(n[d]@.contains(a.slabs@[x].id));
            let k = choose|k: int| 0 <= k < n[d]@.len() && n[d]@[k] == a.slabs@[x].id;
            if m[x].live() {
                assert(m[n[d]@[k].0 as int].live());
            }
            assert(m[x].free_bytes() =~= Set::<int>::empty());
        }
    }
    lemma_sum_none(m, sa.access.next_slab_id.0 as int, free_on(d));
}

impl BlockAllocator {
    /// Takes the space of a slab that is about to be evacuated out of the statistics.
    fn stats_track_slab_evacuation(&mut self, slab_id: SlabId)
        requires
            slab_id.0 <= usize::MAX,
            old(self).slabs@.contains_key(slab_id.0 as int),
            old(self).slabs@[slab_id.0 as int].wf(),
            old(self).slabs@[slab_id.0 as int].spec_location().wf(),
            ({
                let slab = old(self).slabs@[slab_id.0 as int];
                let d = slab.disk();
                &&& old(self).per_disk_stats@.contains_key(d)
                &&& slab.free_bytes().len() <= old(self).per_disk_stats@[d].free_bytes
                &&& slab.allocated_bytes().len() <= old(self).per_disk_stats@[d].alloc_bytes
                &&& old(self).noalloc_state@.contains_key(d) ==> slab.free_bytes().len() <= old(
                    self).per_disk_stats@[d].noalloc_bytes
            }),
        ensures
            *final(self) == (BlockAllocator {
                per_disk_stats: final(self).per_disk_stats,
                ..*old(self)
            }),
            ({
                let slab = old(self).slabs@[slab_id.0 as int];
                let d = slab.disk();
                let s = old(self).per_disk_stats@[d];
                let free = slab.free_bytes().len() as int;
                final(self).per_disk_stats@ == old(self).per_disk_stats@.insert(
                    d,
                    DiskStats {
                        alloc_bytes: (s.alloc_bytes - slab.allocated_bytes().len()) as u64,
                        free_bytes: (s.free_bytes - free) as u64,
                        noalloc_bytes: if old(self).noalloc_state@.contains_key(d) {
                            (s.noalloc_bytes - free) as u64
                        } else {
                            s.noalloc_bytes
                        },
                    },
                )
            }),
    {
        let slab = self.slabs.get(slab_id);
        let disk = slab.location().disk().index();
        let free = slab.free_space();
        let allocated = slab.allocated_space();
        let mut stats = self.per_disk_stats.remove(disk).unwrap();
        stats.free_bytes = stats.free_bytes - free;
        stats.alloc_bytes = stats.alloc_bytes - allocated;
        if self.noalloc_state.contains_key(disk) {
            stats.noalloc_bytes = stats.noalloc_bytes - free;
        }
        let _ = self.per_disk_stats.insert(disk, stats);
        assert(self.per_disk_stats@ =~= old(self).per_disk_stats@.insert(disk as int, stats));
    }

    /// Finds new places for the contents of a slab, and gives the slab up for evacuation.
    /// Returns the moves, and how many of them were joined with their neighbour.
    pub(crate) fn rebalance_slab(&mut self, sa: &mut SlabAllocator, id: SlabId) -> (r: (
        Vec<(Extent, Option<Extent>)>,
        usize,
    ))
        requires
            old(self).wf(*old(sa)),
            old(self).ready(*old(sa)),
            old(self).slabs@.contains_key(id.0 as int),
            old(self).slabs@[id.0 as int].live(),
            old(self).slabs@[id.0 as int].freeing_bytes() == Set::<int>::empty(),
            !old(self).inside().contains(id.0 as int),
            old(self).noalloc_state@.contains_key(old(self).slabs@[id.0 as int].disk()) ==> old(
                self).is_blocked(old(self).slabs@[id.0 as int].disk()),
            exists|i: int|
                0 <= i < old(self).slab_buckets.len() && #[trigger] old(self).slab_buckets.size(i)
                    >= old(self).slab_size,
        ensures
            final(self).wf(*final(sa)),
            final(self).ready(*final(sa)),
            final(sa).access == old(sa).access,
            old(sa).separate() ==> final(sa).separate(),
            slab_moved(
                *old(self),
                *final(self),
                id,
                *old(sa),
                *final(sa),
                r.0@,
                r.1 as int,
            ),
            forall|x: int| #[trigger]
                old(self).slabs@.contains_key(x) && !old(self).inside().contains(x) && x != id.0
                    ==> final(self).slabs@.contains_key(x) && same_state(
                    old(self).slabs@[x],
                    final(self).slabs@[x],
                ),
            final(self).slab_size == old(self).slab_size,
            final(self).next_slab_to_condense == old(self).next_slab_to_condense,
            final(self).noalloc_state == old(self).noalloc_state,
            final(self).segments_at_last_merge == old(self).segments_at_last_merge,
            final(self).aside@ == old(self).aside@.remove(id.0 as int),
            final(self).evacuating_slabs@ == old(self).evacuating_slabs@.push(id),
            forall|x: int| #[trigger] final(self).is_blocked(x) ==> old(self).is_blocked(x),
            forall|x: int|
                x != old(self).slabs@[id.0 as int].disk() ==> #[trigger] final(self).is_blocked(x)
                    == old(self).is_blocked(x),
            same_sizes_and_kinds(old(self).slab_buckets, final(self).slab_buckets),
    {
        let ghost a = *self;
        let ghost x = id.0 as int;
        let ghost sa0 = *sa;
        let ghost access = sa.access;
        proof {
            reveal(BlockAllocator::owned_ok);
            assert(slab_ok(access, a.slabs@[x], x));
            access.lemma_id_below_next(id);
            access.lemma_slab_extent(access.holder(id), id);
            a.slabs@[x].lemma_within(access.slab_extent(id));
        }
        let blocks = self.slabs.get(id).blocks();
        let moves = self.allocate_for(sa, id, &blocks);
        let ghost b = *self;
        let before = moves.len();
        proof {
            assert(moves_ok(moves@)) by {
                assert forall|i: int| 0 <= i < moves@.len() implies ({
                    &&& (#[trigger] moves@[i]).0.wf()
                    &&& moves@[i].0.size > 0
                    &&& moves@[i].1 matches Some(new) ==> new.wf() && new.size >= moves@[i].0.size
                }) by {
                    a.slabs@[x].lemma_block_disk(blocks@[i]);
                }
            }
            law_joined(moves@);
        }
        let ghost unjoined = moves@;
        let map = join_moves(moves);
        let merged: usize = before - map.len();
        proof {
            assert(slabs_ok(access, b.slabs@)) by {
                reveal(BlockAllocator::owned_ok);
            }
            lemma_stats_at_least(access, b.per_disk_stats@, b.slabs@, x);
            assert(b.is_blocked(a.slabs@[x].disk()) == a.is_blocked(a.slabs@[x].disk()));
            reveal(noalloc_exact);
        }
        self.stats_track_slab_evacuation(id);
        self.evacuating_slabs.push(id);
        let extent = sa.slab_id_to_extent(id);
        let _ = self.slabs.insert(id, Slab::new_evacuating(id, extent));
        self.mark_slab_info(id);
        self.aside = Ghost(self.aside@.remove(x));
        proof {
            let c = *self;
            assert(c.slabs@.remove(x) =~= b.slabs@.remove(x));
            assert(!b.inside().contains(x));
            lemma_evacuated(b, c, *sa, id, a.slabs@[x].disk());
            assert(moves_of(a, b, sa0, *sa, a.slabs@[x], blocks_of(a.slabs@[x]), unjoined));
            assert forall|y: int| #[trigger] self.is_blocked(y) implies a.is_blocked(y) by {
                assert(b.is_blocked(y) == a.is_blocked(y));
            }
            assert forall|y: int| y != a.slabs@[x].disk() implies #[trigger] self.is_blocked(y)
                == a.is_blocked(y) by {
                assert(b.is_blocked(y) == a.is_blocked(y));
            }
            assert forall|y: int| #[trigger]
                a.slabs@.contains_key(y) && !a.inside().contains(y) && y
                    != id.0 implies c.slabs@.contains_key(y) && same_state(
                a.slabs@[y],
                c.slabs@[y],
            ) by {
                assert(b.slabs@.contains_key(y));
                assert(b.slabs@.remove(x).contains_key(y));
                assert(c.slabs@.remove(x)[y] == b.slabs@.remove(x)[y]);
            }
            assert(moved_with(a, c, id, sa0, *sa, map@, merged as int, b, unjoined));
        }
        (map, merged)
    }
}

/// The buckets serve the same sizes, with slabs of the same kinds.
pub open spec fn same_sizes_and_kinds(
    a: SlabAllocationBuckets,
    b: SlabAllocationBuckets,
) -> bool {
    &&& b.len() == a.len()
    &&& forall|i: int|
        0 <= i < a.len() ==> #[trigger] b.size(i) == a.size(i) && b.bucket(i).is_extent_based
            == a.bucket(i).is_extent_based
}

/// The moves of the contents of a slab, with the state that they were found in.
pub open spec fn moved_with(
    a: BlockAllocator,
    c: BlockAllocator,
    id: SlabId,
    sa: SlabAllocator,
    sc: SlabAllocator,
    map: Seq<(Extent, Option<Extent>)>,
    merged: int,
    b: BlockAllocator,
    unjoined: Seq<(Extent, Option<Extent>)>,
) -> bool {
    let x = id.0 as int;
    &&& grown(a.slabs@, b.slabs@)
    &&& untouched(a, b)
    &&& moves_of(a, b, sa, sc, a.slabs@[x], blocks_of(a.slabs@[x]), unjoined)
    &&& map == joined(unjoined)
    &&& merged == unjoined.len() - map.len()
    &&& c.slabs@.contains_key(x)
    &&& c.slabs@[x].slab_type() == SlabPhysType::Evacuating
    &&& c.slabs@.remove(x) == b.slabs@.remove(x)
    &&& c.evacuating_slabs@ == b.evacuating_slabs@.push(id)
    &&& logged(b, c, id, seq![SpaceMapEntry::SlabInfo(id, SlabPhysType::Evacuating)])
    &&& c == (BlockAllocator {
        spacemap: c.spacemap,
        spacemap_next: c.spacemap_next,
        slabs: c.slabs,
        evacuating_slabs: c.evacuating_slabs,
        aside: c.aside,
        per_disk_stats: c.per_disk_stats,
        ..b
    })
}

/// The slab has been given up, and places were allocated for its blocks: the moves are those of
/// its blocks, joined.
pub open spec fn slab_moved(
    a: BlockAllocator,
    c: BlockAllocator,
    id: SlabId,
    sa: SlabAllocator,
    sc: SlabAllocator,
    map: Seq<(Extent, Option<Extent>)>,
    merged: int,
) -> bool {
    exists|b: BlockAllocator, unjoined: Seq<(Extent, Option<Extent>)>| #[trigger]
        moved_with(a, c, id, sa, sc, map, merged, b, unjoined)
}

/// Where extents go, by extent.
pub struct RemapTable {
    pub entries: Vec<(Extent, Option<DiskLocation>)>,
}

/// Extents are ordered by location, and then by size.
pub open spec fn extent_before(a: Extent, b: Extent) -> bool {
    a.location.raw < b.location.raw || a.location.raw == b.location.raw && a.size < b.size
}

impl View for RemapTable {
    type V = Map<Extent, Option<DiskLocation>>;

    open spec fn view(&self) -> Map<Extent, Option<DiskLocation>> {
        Map::new(|e: Extent| self.has(e), |e: Extent| self.entries@[self.place(e)].1)
    }
}

impl RemapTable {
    pub open spec fn has(&self, e: Extent) -> bool {
        exists|i: int| 0 <= i < self.entries@.len() && (#[trigger] self.entries@[i]).0 == e
    }

    pub open spec fn place(&self, e: Extent) -> int {
        choose|i: int| 0 <= i < self.entries@.len() && (#[trigger] self.entries@[i]).0 == e
    }

    pub open spec fn wf(&self) -> bool {
        forall|i: int, j: int|
            0 <= i < j < self.entries@.len() ==> extent_before(
                (#[trigger] self.entries@[i]).0,
                (#[trigger] self.entries@[j]).0,
            )
    }

    pub proof fn lemma_place(&self, i: int)
        requires
            self.wf(),
            0 <= i < self.entries@.len(),
        ensures
            self.has(self.entries@[i].0),
            self.place(self.entries@[i].0) == i,
            self@.contains_key(self.entries@[i].0),
            self@[self.entries@[i].0] == self.entries@[i].1,
    {
        let e = self.entries@[i].0;
        let j = self.place(e);
        assert(self.entries@[j].0 == e);
        if i < j {
            assert(extent_before(self.entries@[i].0, self.entries@[j].0));
        } else if j < i {
            assert(extent_before(self.entries@[j].0, self.entries@[i].0));
        }
    }

    pub fn new() -> (r: RemapTable)
        ensures
            r.wf(),
            r@ == Map::<Extent, Option<DiskLocation>>::empty(),
    {
        let r = RemapTable { entries: Vec::new() };
        assert(r@ =~= Map::<Extent, Option<DiskLocation>>::empty());
        r
    }

    /// Says where an extent goes, whatever was said before.
    pub fn insert(&mut self, old_extent: Extent, new: Option<DiskLocation>)
        requires
            old(self).wf(),
        ensures
            final(self).wf(),
            final(self)@ == old(self)@.insert(old_extent, new),
    {
        let ghost a = *self;
        let ghost s = self.entries@;
        let mut i: usize = 0;
        while i < self.entries.len() && (self.entries[i].0.location.raw < old_extent.location.raw
            || self.entries[i].0.location.raw == old_extent.location.raw && self.entries[i].0.size
            < old_extent.size)
            invariant
                i <= self.entries@.len(),
                *self == a,
                s == a.entries@,
                forall|k: int| 0 <= k < i ==> extent_before((#[trigger] s[k]).0, old_extent),
            decreases self.entries@.len() - i,
        {
            i += 1;
        }
        if i < self.entries.len() && self.entries[i].0.location.raw == old_extent.location.raw
            && self.entries[i].0.size == old_extent.size {
            self.entries.set(i, (old_extent, new));
            proof {
                assert(s[i as int].0 == old_extent);
                let t = self.entries@;
                assert(forall|k: int| 0 <= k < t.len() ==> (#[trigger] t[k]).0 == s[k].0);
                assert forall|x: int, y: int| 0 <= x < y < t.len() implies extent_before(
                    (#[trigger] t[x]).0,
                    (#[trigger] t[y]).0,
                ) by {
                    assert(extent_before(s[x].0, s[y].0));
                }
                lemma_inserted(a, *self, old_extent, new, i as int);
            }
        } else {
            self.entries.insert(i, (old_extent, new));
            proof {
                let t = self.entries@;
                assert(t =~= s.insert(i as int, (old_extent, new)));
                assert forall|x: int, y: int| 0 <= x < y < t.len() implies extent_before(
                    (#[trigger] t[x]).0,
                    (#[trigger] t[y]).0,
                ) by {
                    let x0 = if x > i {
                        x - 1
                    } else {
                        x
                    };
                    let y0 = if y > i {
                        y - 1
                    } else {
                        y
                    };
                    if x == i {
                        assert(t[y] == s[y0]);
                        if y0 > i {
                            assert(extent_before(s[i as int].0, s[y0].0));
                        }
                    } else if y == i {
                        assert(t[x] == s[x0]);
                    } else {
                        assert(extent_before(s[x0].0, s[y0].0));
                    }
                }
                lemma_inserted(a, *self, old_extent, new, i as int);
            }
        }
    }
}

proof fn lemma_inserted(a: RemapTable, b: RemapTable, e: Extent, new: Option<DiskLocation>, i: int)
    requires
        a.wf(),
        b.wf(),
        b.entries@ =~= a.entries@.update(i, (e, new)) && 0 <= i < a.entries@.len()
            && a.entries@[i].0 == e || b.entries@ =~= a.entries@.insert(i, (e, new)) && 0 <= i
            <= a.entries@.len(),
    ensures
        b@ == a@.insert(e, new),
{
    assert(b.entries@[i] == (e, new));
    b.lemma_place(i);
    assert forall|x: Extent| b@.contains_key(x) <==> a@.insert(e, new).contains_key(x) by {
        if a.has(x) {
            let k = a.place(x);
            assert(a.entries@[k].0 == x);
            if b.entries@ == a.entries@.update(i, (e, new)) {
                assert(b.entries@[k].0 == x);
            } else {
                let k2 = if k >= i {
                    k + 1
                } else {
                    k
                };
                assert(b.entries@[k2].0 == x);
            }
        }
        if b.has(x) && x != e {
            let k = b.place(x);
            assert(b.entries@[k].0 == x);
            if b.entries@ == a.entries@.update(i, (e, new)) {
                assert(a.entries@[k].0 == x);
            } else {
                let k2 = if k > i {
                    k - 1
                } else {
                    k
                };
                assert(a.entries@[k2].0 == x);
            }
        }
    }
    assert forall|x: Extent| b@.contains_key(x) implies b@[x] == a@.insert(e, new)[x] by {
        if x != e {
            let k = b.place(x);
            assert(b.entries@[k].0 == x);
            b.lemma_place(k);
            let k2 = if b.entries@ == a.entries@.update(i, (e, new)) {
                k
            } else if k > i {
                k - 1
            } else {
                k
            };
            assert(a.entries@[k2] == b.entries@[k]);
            a.lemma_place(k2);
        }
    }
    assert(b@ =~= a@.insert(e, new));
}

/// A move is joined to the one before exactly if the extents follow each other, and either both
/// have lost their place, or the places where they go follow each other too.
pub proof fn law_adjacent_moves_join(
    moves: Seq<(Extent, Option<Extent>)>,
    a: (Extent, Option<Extent>),
)
    requires
        moves.len() > 0,
        joined(moves).len() > 0,
        joined(moves).last().0.wf(),
        a.0.wf(),
    ensures
        ({
            let b = joined(moves).last();
            let r = joined(moves.push(a));
            let follow = a.0.disk_no() == b.0.disk_no() && (b.0.end() == a.0.start() || a.0.end()
                == b.0.start());
            &&& !follow ==> r == joined(moves).push(a)
            &&& (a.1 is Some) != (b.1 is Some) ==> r == joined(moves).push(a)
            &&& follow && a.1 is None && b.1 is None ==> r.len() == joined(moves).len()
                && r.last().1 is None && r.last().0.size == a.0.size + b.0.size
            &&& follow && a.1 is Some && b.1 is Some && a.1->0.wf() && b.1->0.wf() ==> {
                let (x, y) = (a.1->0, b.1->0);
                if x.disk_no() == y.disk_no() && (x.end() == y.start() || y.end() == x.start()) {
                    &&& r.len() == joined(moves).len()
                    &&& r.last().0.size == a.0.size + b.0.size
                    &&& r.last().1 matches Some(new) && new.size == x.size + y.size
                } else {
                    r == joined(moves).push(a)
                }
            }
        }),
{
    let b = joined(moves).last();
    assert(moves.push(a).drop_last() =~= moves);
    law_adjacent_extents_merge(b.0, a.0);
    if a.1 is Some && b.1 is Some && a.1->0.wf() && b.1->0.wf() {
        law_adjacent_extents_merge(a.1->0, b.1->0);
    }
}

} // verus!
