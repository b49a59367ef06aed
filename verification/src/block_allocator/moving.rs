//! Where the blocks of slabs that are given up go.
use crate::base_types::{law_location_round_trip, DiskLocation, Extent};
use crate::block_allocator::bitmap_slab::{run_extent, BitmapSlab};
use crate::block_allocator::buckets::SlabAllocationBuckets;
use crate::block_allocator::evacuation::{started, step_moved, told, told_all, withheld};
use crate::block_allocator::invariants::{buckets_ok, distinct, home, noalloc_ok, same_state};
use crate::block_allocator::rebalance::{
    blocks_of, join, joined, keeps_kind, law_joined, moved_byte, moved_with, moves_ok, newly_in,
    newly_like, same_sizes_and_kinds, slab_grown, slots_of_runs, untouched, RemapTable,
};
use crate::block_allocator::removal::lemma_serves_home;
use crate::block_allocator::slab::{Slab, SlabEnum};
use crate::block_allocator::slabs::slab_ok;
use crate::block_allocator::BlockAllocator;
use crate::merge::{law_remap_inside, remap_of};
use crate::range_tree::{runs_of, segs_have, segs_set, segs_wf};
use crate::slab_allocator::{SlabAllocator, SlabId};
use crate::space_map::extent_bytes;
use vstd::prelude::*;

verus! {

/// What is moved comes in ascending order, and nothing overlaps.
pub open spec fn olds_ascend(moves: Seq<(Extent, Option<Extent>)>, d: int) -> bool {
    &&& forall|i: int| 0 <= i < moves.len() ==> (#[trigger] moves[i]).0.disk_no() == d
    &&& forall|i: int, j: int|
        0 <= i < j < moves.len() ==> (#[trigger] moves[i]).0.end() <= (
        #[trigger] moves[j]).0.start()
}

proof fn lemma_drop_last(moves: Seq<(Extent, Option<Extent>)>, d: int)
    requires
        moves.len() > 0,
        moves_ok(moves),
        olds_ascend(moves, d),
    ensures
        moves_ok(moves.drop_last()),
        olds_ascend(moves.drop_last(), d),
{
    let t = moves.drop_last();
    assert forall|i: int| 0 <= i < t.len() implies t[i] == moves[i] by {}
    assert forall|i: int, j: int| 0 <= i < j < t.len() implies (#[trigger] t[i]).0.end() <= (
    #[trigger] t[j]).0.start() by {
        assert(moves[i].0.end() <= moves[j].0.start());
    }
}

/// Joining neighbours keeps the order.
proof fn lemma_joined_ascend(moves: Seq<(Extent, Option<Extent>)>, d: int)
    requires
        moves_ok(moves),
        olds_ascend(moves, d),
    ensures
        olds_ascend(joined(moves), d),
        moves.len() > 0 ==> joined(moves).len() > 0 && joined(moves).last().0.end()
            == moves.last().0.end(),
        forall|i: int|
            0 <= i < moves.len() ==> exists|p: int|
                0 <= p < joined(moves).len() && (#[trigger] joined(moves)[p]).0.spec_contains(
                    (#[trigger] moves[i]).0,
                ),
    decreases moves.len(),
{
    if moves.len() > 0 {
        lemma_drop_last(moves, d);
        let t = moves.drop_last();
        let a = moves.last();
        let last = moves.len() - 1;
        assert(moves[last] == a);
        lemma_joined_ascend(t, d);
        law_joined(t);
        let r = joined(t);
        let q = joined(moves);
        assert forall|p: int| 0 <= p < r.len() implies (#[trigger] r[p]).0.end()
            <= a.0.start() by {
            assert(t.len() > 0);
            assert(moves[last - 1].0.end() <= moves[last].0.start());
            assert(t.last() == moves[last - 1]);
            assert(r.last() == r[r.len() - 1]);
            if p < r.len() - 1 {
                assert(r[p].0.end() <= r[r.len() - 1].0.start());
            }
        }
        let merges = r.len() > 0 && join(r.last(), a) is Some;
        if merges {
            let b = r.last();
            let j = join(b, a)->0;
            assert(b == r[r.len() - 1]);
            assert(b.0.size > 0 && a.0.size > 0);
            assert(b.0.end() <= a.0.start());
            assert(j.0 == b.0.spec_merge(a.0)->0);
            assert(j.0.start() == b.0.start() && j.0.end() == a.0.end() && j.0.disk_no() == d);
            assert(q == r.drop_last().push(j));
        } else {
            assert(q == r.push(a));
        }
        assert forall|p: int| 0 <= p < q.len() implies (#[trigger] q[p]).0.disk_no() == d by {
            if p < q.len() - 1 {
                assert(q[p] == r[p]);
            }
        }
        assert forall|x: int, y: int| 0 <= x < y < q.len() implies (#[trigger] q[x]).0.end() <= (
        #[trigger] q[y]).0.start() by {
            assert(q[x] == r[x]);
            if y < q.len() - 1 {
                assert(q[y] == r[y]);
                assert(r[x].0.end() <= r[y].0.start());
            } else if merges {
                assert(r[x].0.end() <= r[r.len() - 1].0.start());
            }
        }
        assert forall|i: int| 0 <= i < moves.len() implies exists|p: int|
            0 <= p < q.len() && (#[trigger] q[p]).0.spec_contains((#[trigger] moves[i]).0) by {
            if i < last {
                assert(moves[i] == t[i]);
                let p = choose|p: int|
                    0 <= p < r.len() && (#[trigger] r[p]).0.spec_contains(t[i].0);
                if merges && p == r.len() - 1 {
                    assert(q[p].0.spec_contains(moves[i].0));
                } else {
                    assert(q[p] == r[p]);
                    assert(q[p].0.spec_contains(moves[i].0));
                }
            } else {
                let p = q.len() - 1;
                assert(q[p].0.spec_contains(moves[i].0));
            }
        }
    }
}

/// What is not adjacent is not joined.
proof fn lemma_joined_same(moves: Seq<(Extent, Option<Extent>)>, d: int)
    requires
        moves_ok(moves),
        olds_ascend(moves, d),
        forall|i: int, j: int|
            0 <= i < j < moves.len() ==> (#[trigger] moves[i]).0.end() < (
            #[trigger] moves[j]).0.start(),
    ensures
        joined(moves) == moves,
    decreases moves.len(),
{
    if moves.len() > 0 {
        lemma_drop_last(moves, d);
        let t = moves.drop_last();
        let last = moves.len() - 1;
        assert forall|i: int| 0 <= i < t.len() implies t[i] == moves[i] by {}
        assert forall|i: int, j: int| 0 <= i < j < t.len() implies (#[trigger] t[i]).0.end() < (
        #[trigger] t[j]).0.start() by {
            assert(moves[i].0.end() < moves[j].0.start());
        }
        lemma_joined_same(t, d);
        if t.len() > 0 {
            assert(t.last() == moves[last - 1]);
            assert(moves[last - 1].0.end() < moves[last].0.start());
            assert(moves[last].0.size > 0 && moves[last - 1].0.size > 0);
            assert(join(t.last(), moves.last()) is None);
        }
        assert(t.push(moves.last()) =~= moves);
    }
}

/// A new extent of the moves starts there, and has that size.
pub open spec fn is_new(
    moves: Seq<(Extent, Option<Extent>)>,
    d: int,
    o: int,
    z: int,
) -> bool {
    exists|i: int|
        {
            &&& 0 <= i < moves.len()
            &&& (#[trigger] moves[i]).1 is Some
            &&& moves[i].1->0.disk_no() == d
            &&& moves[i].1->0.start() == o
            &&& moves[i].1->0.size == z
        }
}

/// What is moved consists of slots, and where it goes consists of new extents of that size.
pub open spec fn tiled(
    moves: Seq<(Extent, Option<Extent>)>,
    entry: (Extent, Option<Extent>),
    base: int,
    z: int,
) -> bool {
    &&& entry.0.size as int % z == 0
    &&& (entry.0.start() - base) % z == 0
    &&& entry.1 matches Some(new) ==> new.size == entry.0.size && forall|o: int|
        0 <= o < new.size && #[trigger] (o % z) == 0 ==> is_new(
            moves,
            new.disk_no(),
            new.start() + o,
            z,
        )
}

proof fn lemma_multiples(a: int, b: int, z: int)
    requires
        z > 0,
        a % z == 0,
        b % z == 0,
    ensures
        (a - b) % z == 0,
        (a + b) % z == 0,
{
    vstd::arithmetic::div_mod::lemma_fundamental_div_mod(a, z);
    vstd::arithmetic::div_mod::lemma_fundamental_div_mod(b, z);
    let p = a / z;
    let q = b / z;
    assert(a - b == (p - q) * z && a + b == (p + q) * z) by (nonlinear_arith)
        requires
            a == z * p,
            b == z * q,
    ;
    vstd::arithmetic::div_mod::lemma_mod_multiples_basic(p - q, z);
    vstd::arithmetic::div_mod::lemma_mod_multiples_basic(p + q, z);
}

proof fn lemma_tiled_more(
    t: Seq<(Extent, Option<Extent>)>,
    moves: Seq<(Extent, Option<Extent>)>,
    entry: (Extent, Option<Extent>),
    base: int,
    z: int,
)
    requires
        moves.len() > 0,
        t == moves.drop_last(),
        tiled(t, entry, base, z),
    ensures
        tiled(moves, entry, base, z),
{
    if entry.1 is Some {
        let new = entry.1->0;
        assert forall|o: int| 0 <= o < new.size && #[trigger] (o % z) == 0 implies is_new(
            moves,
            new.disk_no(),
            new.start() + o,
            z,
        ) by {
            assert(is_new(t, new.disk_no(), new.start() + o, z));
            let i = choose|i: int|
                {
                    &&& 0 <= i < t.len()
                    &&& (#[trigger] t[i]).1 is Some
                    &&& t[i].1->0.disk_no() == new.disk_no()
                    &&& t[i].1->0.start() == new.start() + o
                    &&& t[i].1->0.size == z
                };
            assert(moves[i] == t[i]);
        }
    }
}

/// Slots that were joined still go to slots.
proof fn lemma_joined_tiled(
    moves: Seq<(Extent, Option<Extent>)>,
    d: int,
    base: int,
    z: int,
)
    requires
        moves_ok(moves),
        olds_ascend(moves, d),
        z > 0,
        forall|i: int|
            0 <= i < moves.len() ==> {
                &&& (#[trigger] moves[i]).0.size == z
                &&& (moves[i].0.start() - base) % z == 0
                &&& moves[i].1 matches Some(new) ==> new.size == z
            },
    ensures
        forall|p: int|
            0 <= p < joined(moves).len() ==> tiled(moves, #[trigger] joined(moves)[p], base, z),
    decreases moves.len(),
{
    if moves.len() > 0 {
        lemma_drop_last(moves, d);
        let t = moves.drop_last();
        let a = moves.last();
        let last = moves.len() - 1;
        assert(moves[last] == a);
        assert forall|i: int| 0 <= i < t.len() implies t[i] == moves[i] by {}
        lemma_joined_tiled(t, d, base, z);
        lemma_joined_ascend(t, d);
        law_joined(t);
        let r = joined(t);
        let q = joined(moves);
        assert forall|p: int| 0 <= p < r.len() implies tiled(moves, #[trigger] r[p], base, z) by {
            lemma_tiled_more(t, moves, r[p], base, z);
        }
        assert(z % z == 0) by {
            vstd::arithmetic::div_mod::lemma_mod_self_0(z);
        }
        assert(tiled(moves, a, base, z)) by {
            if a.1 is Some {
                let new = a.1->0;
                assert forall|o: int| 0 <= o < new.size && #[trigger] (o % z) == 0 implies is_new(
                    moves,
                    new.disk_no(),
                    new.start() + o,
                    z,
                ) by {
                    if o > 0 {
                        vstd::arithmetic::div_mod::lemma_small_mod(o as nat, z as nat);
                    }
                    assert(moves[last].1->0.start() == new.start() + o);
                }
            }
        }
        if r.len() > 0 && join(r.last(), a) is Some {
            let b = r.last();
            assert(b == r[r.len() - 1]);
            let j = join(b, a)->0;
            assert(t.len() > 0);
            assert(b.0.end() <= a.0.start()) by {
                assert(t.last() == moves[last - 1]);
                assert(moves[last - 1].0.end() <= moves[last].0.start());
            }
            assert(b.0.size > 0 && a.0.size > 0);
            assert(j.0.start() == b.0.start() && j.0.size == b.0.size + a.0.size);
            lemma_multiples(b.0.size as int, z, z);
            assert(tiled(moves, j, base, z)) by {
                if j.1 is Some {
                    lemma_tiled_join(moves, b, a, j, base, z);
                }
            }
            assert(q == r.drop_last().push(j));
            assert forall|p: int| 0 <= p < q.len() implies tiled(
                moves,
                #[trigger] q[p],
                base,
                z,
            ) by {
                if p < q.len() - 1 {
                    assert(q[p] == r[p]);
                }
            }
        } else {
            assert(q == r.push(a));
            assert forall|p: int| 0 <= p < q.len() implies tiled(
                moves,
                #[trigger] q[p],
                base,
                z,
            ) by {
                if p < q.len() - 1 {
                    assert(q[p] == r[p]);
                }
            }
        }
    }
}

proof fn lemma_tiled_join(
    moves: Seq<(Extent, Option<Extent>)>,
    b: (Extent, Option<Extent>),
    a: (Extent, Option<Extent>),
    j: (Extent, Option<Extent>),
    base: int,
    z: int,
)
    requires
        z > 0,
        tiled(moves, b, base, z),
        tiled(moves, a, base, z),
        join(b, a) == Some(j),
        j.1 is Some,
        b.0.wf(),
        a.0.wf(),
        b.0.size > 0,
        a.0.size > 0,
        b.0.end() <= a.0.start(),
        b.1 matches Some(new) ==> new.wf(),
        a.1 matches Some(new) ==> new.wf(),
    ensures
        tiled(moves, j, base, z),
{
    let bn = b.1->0;
    let an = a.1->0;
    let new = j.1->0;
    assert(Some(new) == an.spec_merge(bn));
    lemma_multiples(b.0.size as int, a.0.size as int, z);
    assert(new.size == an.size + bn.size);
    assert forall|o: int| 0 <= o < new.size && #[trigger] (o % z) == 0 implies is_new(
        moves,
        new.disk_no(),
        new.start() + o,
        z,
    ) by {
        if bn.start() == an.end() {
            // the later one comes first
            assert(new.start() == an.start());
            if o < an.size {
                assert(is_new(moves, an.disk_no(), an.start() + o, z));
            } else {
                lemma_multiples(o, an.size as int, z);
                assert(is_new(moves, bn.disk_no(), bn.start() + (o - an.size), z));
            }
        } else {
            assert(new.start() == bn.start());
            if o < bn.size {
                assert(is_new(moves, bn.disk_no(), bn.start() + o, z));
            } else {
                lemma_multiples(o, bn.size as int, z);
                assert(is_new(moves, an.disk_no(), an.start() + (o - bn.size), z));
            }
        }
    }
}

/// The numbers of the slots of some runs, one by one.
pub open spec fn slots_list(runs: Seq<(u64, u64)>) -> Seq<int>
    decreases runs.len(),
{
    if runs.len() == 0 {
        Seq::empty()
    } else {
        slots_list(runs.drop_last()) + Seq::new(
            runs.last().1 as nat,
            |i: int| runs.last().0 + i,
        )
    }
}

proof fn lemma_slots_list(slab: BitmapSlab, runs: Seq<(u64, u64)>)
    requires
        segs_wf(runs),
    ensures
        slots_of_runs(slab, runs).len() == slots_list(runs).len(),
        forall|k: int|
            0 <= k < slots_list(runs).len() ==> {
                &&& #[trigger] slots_of_runs(slab, runs)[k] == slab.slot_extent(
                    slots_list(runs)[k],
                )
                &&& segs_have(runs, slots_list(runs)[k])
            },
        forall|i: int, j: int|
            0 <= i < j < slots_list(runs).len() ==> #[trigger] slots_list(runs)[i]
                < #[trigger] slots_list(runs)[j],
        forall|u: int| #[trigger] segs_have(runs, u) ==> slots_list(runs).contains(u),
    decreases runs.len(),
{
    if runs.len() > 0 {
        let t = runs.drop_last();
        let run = runs.last();
        let last = runs.len() - 1;
        assert(runs[last] == run);
        assert forall|i: int| 0 <= i < t.len() implies t[i] == runs[i] by {}
        assert(segs_wf(t)) by {
            assert forall|i: int, j: int| 0 <= i < j < t.len() implies (#[trigger] t[i]).0 + t[i].1
                < (#[trigger] t[j]).0 by {
                assert(runs[i].0 + runs[i].1 < runs[j].0);
            }
        }
        lemma_slots_list(slab, t);
        let a = slots_list(t);
        let s = slots_list(runs);
        let x = slots_of_runs(slab, runs);
        assert forall|k: int| 0 <= k < s.len() implies #[trigger] x[k] == slab.slot_extent(s[k])
            && segs_have(runs, s[k]) by {
            if k < a.len() {
                assert(slots_of_runs(slab, t)[k] == slab.slot_extent(a[k]));
                let i = choose|i: int|
                    0 <= i < t.len() && (#[trigger] t[i]).0 <= a[k] < t[i].0 + t[i].1;
                assert(runs[i].0 <= s[k] < runs[i].0 + runs[i].1);
            } else {
                assert(s[k] == run.0 + (k - a.len()));
                assert(runs[last].0 <= s[k] < runs[last].0 + runs[last].1);
            }
        }
        assert forall|i: int, j: int| 0 <= i < j < s.len() implies #[trigger] s[i]
            < #[trigger] s[j] by {
            if j < a.len() {
                assert(a[i] < a[j]);
            } else if i < a.len() {
                assert(slots_of_runs(slab, t)[i] == slab.slot_extent(a[i]));
                let y = choose|y: int|
                    0 <= y < t.len() && (#[trigger] t[y]).0 <= a[i] < t[y].0 + t[y].1;
                assert(runs[y].0 + runs[y].1 < runs[last].0);
            }
        }
        assert forall|u: int| #[trigger] segs_have(runs, u) implies s.contains(u) by {
            let i = choose|i: int|
                0 <= i < runs.len() && (#[trigger] runs[i]).0 <= u < runs[i].0 + runs[i].1;
            if i < last {
                assert(t[i].0 <= u < t[i].0 + t[i].1);
                assert(segs_have(t, u));
                let k = choose|k: int| 0 <= k < a.len() && a[k] == u;
                assert(s[k] == u);
            } else {
                let k = a.len() + (u - run.0);
                assert(s[k] == u);
            }
        }
    }
}

/// The blocks of a slab come in ascending order, and each block that is in use is inside of one.
/// The extents of a slab that is not divided into slots are not adjacent.
proof fn lemma_blocks(slab: Slab, blocks: Seq<Extent>)
    requires
        slab.wf(),
        blocks == blocks_of(slab),
        forall|i: int| 0 <= i < blocks.len() ==> slab.is_block(#[trigger] blocks[i]),
    ensures
        forall|i: int, j: int|
            0 <= i < j < blocks.len() ==> (#[trigger] blocks[i]).end() <= (
            #[trigger] blocks[j]).start() && (slab.inner is ExtentBased ==> blocks[i].end()
                < blocks[j].start()),
        forall|e: Extent|
            slab.is_block(e) && extent_bytes(e).disjoint(slab.free_bytes()) && extent_bytes(
                e,
            ).disjoint(slab.freeing_bytes()) ==> exists|i: int|
                0 <= i < blocks.len() && #[trigger] blocks[i].spec_contains(e),
{
    match slab.inner {
        SlabEnum::BitmapBased(s) => {
            s.lemma_allocated_runs();
            let runs = runs_of(s.allocated_slots());
            lemma_slots_list(s, runs);
            let list = slots_list(runs);
            let z = s.slot_size as int;
            assert forall|i: int| 0 <= i < blocks.len() implies (#[trigger] blocks[i]).start()
                == s.base() + list[i] * z && blocks[i].size == z && 0 <= list[i]
                < s.total_slots by {
                assert(slots_of_runs(s, runs)[i] == blocks[i]);
                assert(segs_set(runs).contains(list[i]));
                let u = list[i];
                let k = choose|k: int|
                    0 <= k < runs.len() && (#[trigger] runs[k]).0 <= u < runs[k].0 + runs[k].1;
                let t = s.total_slots as int;
                assert(0 <= u * z && u * z + z <= t * z) by (nonlinear_arith)
                    requires
                        0 <= u < t,
                        z > 0,
                ;
                crate::slab_allocator::lemma_multiple_of_sector(u, z);
                law_location_round_trip(s.location.disk_no(), s.base() + u * z);
            }
            assert forall|i: int, j: int| 0 <= i < j < blocks.len() implies (
            #[trigger] blocks[i]).end() <= (#[trigger] blocks[j]).start() by {
                let a = list[i];
                let b = list[j];
                assert(a < b);
                assert(a * z + z <= b * z) by (nonlinear_arith)
                    requires
                        a < b,
                        z > 0,
                ;
            }
            assert forall|e: Extent|
                slab.is_block(e) && extent_bytes(e).disjoint(slab.free_bytes()) && extent_bytes(
                    e,
                ).disjoint(slab.freeing_bytes()) implies exists|i: int|
                0 <= i < blocks.len() && #[trigger] blocks[i].spec_contains(e) by {
                let f = (e.start() - s.base()) / z;
                lemma_slot_of(s, e, f);
                assert(s.allocated_slots().contains(f));
                assert(segs_set(runs).contains(f));
                assert(segs_have(runs, f));
                let i = choose|i: int| 0 <= i < list.len() && list[i] == f;
                assert(blocks[i].start() == s.base() + list[i] * z);
                assert(blocks[i].spec_contains(e));
            }
        },
        SlabEnum::ExtentBased(s) => {
            s.lemma_allocated_fit();
            let runs = runs_of(s.allocated());
            assert forall|i: int| 0 <= i < blocks.len() implies (#[trigger] blocks[i]).start()
                == runs[i].0 && blocks[i].size == runs[i].1 && blocks[i].disk_no()
                == s.location.disk_no() by {
                assert(blocks[i] == run_extent(s.location.disk_no(), 0, 1, runs[i]));
            }
            assert forall|i: int, j: int| 0 <= i < j < blocks.len() implies (
            #[trigger] blocks[i]).end() < (#[trigger] blocks[j]).start() by {
                assert(runs[i].0 + runs[i].1 < runs[j].0);
            }
            assert forall|e: Extent|
                slab.is_block(e) && extent_bytes(e).disjoint(slab.free_bytes()) && extent_bytes(
                    e,
                ).disjoint(slab.freeing_bytes()) implies exists|i: int|
                0 <= i < blocks.len() && #[trigger] blocks[i].spec_contains(e) by {
                assert(extent_bytes(e).contains(e.start()));
                assert(s.allocated().contains(e.start()));
                assert(segs_have(runs, e.start()));
                let i = choose|i: int|
                    0 <= i < runs.len() && (#[trigger] runs[i]).0 <= e.start() < runs[i].0
                        + runs[i].1;
                let end = runs[i].0 + runs[i].1;
                if e.end() > end {
                    assert(extent_bytes(e).contains(end as int));
                    assert(s.allocated().contains(end as int));
                    assert(segs_have(runs, end as int));
                    let j = choose|j: int|
                        0 <= j < runs.len() && (#[trigger] runs[j]).0 <= end < runs[j].0
                            + runs[j].1;
                    if i < j {
                        assert(runs[i].0 + runs[i].1 < runs[j].0);
                    } else if j < i {
                        assert(runs[j].0 + runs[j].1 < runs[i].0);
                    }
                }
                assert(blocks[i].start() == runs[i].0);
                assert(blocks[i].spec_contains(e));
            }
        },
        SlabEnum::Evacuating(_) => {},
    }
}

/// The slot of a block that is in use is in use.
proof fn lemma_slot_of(s: BitmapSlab, e: Extent, f: int)
    requires
        s.wf(),
        s.fits(e),
        e.size == s.slot_size,
        f == (e.start() - s.base()) / s.slot_size as int,
        extent_bytes(e).disjoint(s.slot_bytes(s.allocatable@)),
        extent_bytes(e).disjoint(s.slot_bytes(s.freeing@)),
    ensures
        e.start() == s.base() + f * s.slot_size,
        0 <= f < s.total_slots,
        s.allocated_slots().contains(f),
{
    let z = s.slot_size as int;
    let x = e.start() - s.base();
    let t = s.total_slots as int;
    vstd::arithmetic::div_mod::lemma_fundamental_div_mod(x, z);
    assert(x == f * z) by (nonlinear_arith)
        requires
            x == z * f,
    ;
    assert(0 <= f < t) by (nonlinear_arith)
        requires
            x == f * z,
            0 <= x,
            x + z <= t * z,
            z > 0,
    ;
    let o = e.start();
    assert(extent_bytes(e).contains(o));
    assert((o - s.base()) / z == f);
}

/// The sizes of all that is moved out of a slab are served by slabs of its kind.
pub open spec fn kinds_kept(buckets: SlabAllocationBuckets, slab: Slab) -> bool {
    forall|i: int|
        0 <= i < blocks_of(slab).len() ==> keeps_kind(
            buckets,
            slab,
            (#[trigger] blocks_of(slab)[i]).size as int,
        )
}

/// That is always so for a slab of slots.
pub proof fn law_slots_keep_kind(a: BlockAllocator, sa: SlabAllocator, id: SlabId)
    requires
        a.wf(sa),
        a.slabs@.contains_key(id.0 as int),
        a.slabs@[id.0 as int].inner is BitmapBased,
    ensures
        kinds_kept(a.slab_buckets, a.slabs@[id.0 as int]),
{
    let slab = a.slabs@[id.0 as int];
    let s = slab.inner->BitmapBased_0;
    reveal(BlockAllocator::owned_ok);
    reveal(buckets_ok);
    assert(slab_ok(sa.access, slab, id.0 as int));
    let index = choose|i: int| #[trigger] home(a.slab_buckets, slab, i);
    s.lemma_allocated_runs();
    let runs = runs_of(s.allocated_slots());
    lemma_slots_list(s, runs);
    assert forall|i: int| 0 <= i < blocks_of(slab).len() implies keeps_kind(
        a.slab_buckets,
        slab,
        (#[trigger] blocks_of(slab)[i]).size as int,
    ) by {
        assert(blocks_of(slab)[i] == s.slot_extent(slots_list(runs)[i]));
        let size = blocks_of(slab)[i].size as int;
        assert forall|j: int| #[trigger]
            a.slab_buckets.serves(j, size) implies !a.slab_buckets.bucket(j).is_extent_based by {
            lemma_serves_home(a.slab_buckets, slab, index, j);
        }
    }
}

/// Where an extent goes that is inside of one that is moved.
pub open spec fn goes_to(entry: (Extent, Option<Extent>), e: Extent) -> Extent {
    Extent {
        location: DiskLocation::at(
            entry.1->0.disk_no(),
            entry.1->0.start() + (e.start() - entry.0.start()),
        ),
        size: e.size,
    }
}

/// The moves of a slab are well-formed and in order.
proof fn lemma_moves_in_order(
    a: BlockAllocator,
    c: BlockAllocator,
    id: SlabId,
    sa: SlabAllocator,
    sc: SlabAllocator,
    map: Seq<(Extent, Option<Extent>)>,
    merged: int,
    b: BlockAllocator,
    unjoined: Seq<(Extent, Option<Extent>)>,
)
    requires
        moved_with(a, c, id, sa, sc, map, merged, b, unjoined),
        a.slabs@[id.0 as int].wf(),
    ensures
        moves_ok(unjoined),
        olds_ascend(unjoined, a.slabs@[id.0 as int].disk()),
        moves_ok(map),
        olds_ascend(map, a.slabs@[id.0 as int].disk()),
        forall|e: Extent| #[trigger]
            a.is_allocated_block(id, e) ==> exists|p: int|
                0 <= p < map.len() && (#[trigger] map[p]).0.spec_contains(e),
        a.slabs@[id.0 as int].inner is ExtentBased ==> map == unjoined,
        forall|p: int, o: int|
            0 <= p < map.len() && #[trigger] within(o, map[p].0) ==> exists|i: int|
                0 <= i < unjoined.len() && within(o, (#[trigger] unjoined[i]).0),
{
    let slab = a.slabs@[id.0 as int];
    let d = slab.disk();
    let blocks = blocks_of(slab);
    assert forall|i: int| 0 <= i < blocks.len() implies slab.is_block(#[trigger] blocks[i]) by {
        assert(unjoined[i].0 == blocks[i]);
    }
    lemma_blocks(slab, blocks);
    assert forall|i: int| 0 <= i < unjoined.len() implies (#[trigger] unjoined[i]).0 == blocks[i]
        && unjoined[i].0.wf() && unjoined[i].0.size > 0 && unjoined[i].0.disk_no() == d by {
        slab.lemma_block_disk(blocks[i]);
    }
    assert(moves_ok(unjoined));
    assert forall|i: int, j: int| 0 <= i < j < unjoined.len() implies (
    #[trigger] unjoined[i]).0.end() <= (#[trigger] unjoined[j]).0.start() && (slab.inner
        is ExtentBased ==> unjoined[i].0.end() < unjoined[j].0.start()) by {
        assert(blocks[i].end() <= blocks[j].start());
    }
    law_joined(unjoined);
    lemma_joined_ascend(unjoined, d);
    if slab.inner is ExtentBased {
        lemma_joined_same(unjoined, d);
    }
    assert forall|e: Extent| #[trigger] a.is_allocated_block(id, e) implies exists|p: int|
        0 <= p < map.len() && (#[trigger] map[p]).0.spec_contains(e) by {
        let i = choose|i: int| 0 <= i < blocks.len() && #[trigger] blocks[i].spec_contains(e);
        assert(unjoined[i].0 == blocks[i]);
        let p = choose|p: int|
            0 <= p < map.len() && (#[trigger] map[p]).0.spec_contains(unjoined[i].0);
        assert(map[p].0.spec_contains(e));
    }
    assert forall|p: int, o: int|
        0 <= p < map.len() && #[trigger] within(o, map[p].0) implies exists|i: int|
        0 <= i < unjoined.len() && within(o, (#[trigger] unjoined[i]).0) by {
        assert(map[p].0.has_byte(d, o));
        assert(moved_byte(map, d, o));
        assert(moved_byte(unjoined, d, o));
        let i = choose|i: int| 0 <= i < unjoined.len() && (#[trigger] unjoined[i]).0.has_byte(d, o);
        assert(within(o, unjoined[i].0));
    }
}

pub open spec fn within(o: int, e: Extent) -> bool {
    e.start() <= o < e.end()
}

/// What is inside of a new extent is in use: all of it where extents can be divided, and
/// otherwise the whole of it.
proof fn lemma_in_new(
    a: BlockAllocator,
    b: BlockAllocator,
    c: BlockAllocator,
    id: SlabId,
    slab: Slab,
    n: Extent,
    f: Extent,
) -> (q: SlabId)
    requires
        slab.live(),
        newly_like(a.slabs@, b.slabs@, slab, n),
        untouched(a, b),
        a.slabs@.contains_key(id.0 as int),
        !a.inside().contains(id.0 as int),
        c.slabs@.remove(id.0 as int) == b.slabs@.remove(id.0 as int),
        n.wf(),
        f.wf(),
        f.size > 0,
        f.disk_no() == n.disk_no(),
        n.start() <= f.start(),
        f.end() <= n.end(),
        f.aligned(),
        slab.inner is BitmapBased ==> f.start() == n.start() && f.size == n.size,
    ensures
        c.is_allocated_block(q, f),
        a.slabs@.contains_key(q.0 as int) ==> a.inside().contains(q.0 as int),
        q != id,
{
    let q = choose|q: SlabId| #[trigger]
        newly_in(a.slabs@, b.slabs@, q, n) && (b.slabs@[q.0 as int].inner is ExtentBased) == (
        slab.inner is ExtentBased);
    let y = q.0 as int;
    assert(extent_bytes(n).contains(n.start()));
    if a.slabs@.contains_key(y) && !a.inside().contains(y) {
        assert(same_state(a.slabs@[y], b.slabs@[y]));
        assert(a.slabs@[y].free_bytes().contains(n.start()));
        assert(b.slabs@[y].free_bytes().contains(n.start()));
        assert(false);
    }
    let x = id.0 as int;
    assert(y != x);
    assert(b.slabs@.remove(x).contains_key(y));
    assert(c.slabs@.remove(x).contains_key(y));
    assert(c.slabs@.remove(x)[y] == c.slabs@[y]);
    assert(b.slabs@.remove(x)[y] == b.slabs@[y]);
    assert(extent_bytes(f).subset_of(extent_bytes(n)));
    assert(b.slabs@[y].is_block(f));
    assert forall|o: int| extent_bytes(f).contains(o) implies !b.slabs@[y].free_bytes().contains(o)
        && !b.slabs@[y].freeing_bytes().contains(o) by {
        assert(extent_bytes(n).contains(o));
    }
    q
}

/// A block of a slab that is given up goes to a block that is in use afterwards, in a slab that
/// is not given up.
#[verifier::spinoff_prover]
#[verifier::rlimit(40)]
pub proof fn law_moved_block(
    a: BlockAllocator,
    c: BlockAllocator,
    id: SlabId,
    sa: SlabAllocator,
    sc: SlabAllocator,
    map: Seq<(Extent, Option<Extent>)>,
    merged: int,
    b: BlockAllocator,
    unjoined: Seq<(Extent, Option<Extent>)>,
    e: Extent,
    p: int,
) -> (q: SlabId)
    requires
        moved_with(a, c, id, sa, sc, map, merged, b, unjoined),
        a.is_allocated_block(id, e),
        a.slabs@[id.0 as int].wf(),
        a.slabs@[id.0 as int].live(),
        !a.inside().contains(id.0 as int),
        kinds_kept(a.slab_buckets, a.slabs@[id.0 as int]),
        0 <= p < map.len(),
        map[p].0.spec_contains(e),
        map[p].1 is Some,
    ensures
        c.is_allocated_block(q, goes_to(map[p], e)),
        a.slabs@.contains_key(q.0 as int) ==> a.inside().contains(q.0 as int),
        q != id,
{
    let slab = a.slabs@[id.0 as int];
    let d = slab.disk();
    let blocks = blocks_of(slab);
    lemma_moves_in_order(a, c, id, sa, sc, map, merged, b, unjoined);
    slab.lemma_block_disk(e);
    slab.lemma_block_aligned(e);
    let old = map[p].0;
    let new = map[p].1->0;
    let f = goes_to(map[p], e);
    let o = e.start() - old.start();
    law_location_round_trip(new.disk_no(), new.start() + o);
    assert forall|i: int| 0 <= i < unjoined.len() && (#[trigger] unjoined[i]).1 is Some implies
        unjoined[i].1->0.size == unjoined[i].0.size && newly_like(
        a.slabs@,
        b.slabs@,
        slab,
        unjoined[i].1->0,
    ) && unjoined[i].1->0.wf() by {
        assert(keeps_kind(a.slab_buckets, slab, blocks[i].size as int));
    }
    match slab.inner {
        SlabEnum::BitmapBased(s) => {
            let z = s.slot_size as int;
            assert forall|i: int| 0 <= i < unjoined.len() implies ({
                &&& (#[trigger] unjoined[i]).0.size == z
                &&& (unjoined[i].0.start() - s.base()) % z == 0
                &&& unjoined[i].1 matches Some(n) ==> n.size == z
            }) by {
                assert(slab.is_block(blocks[i]));
            }
            lemma_joined_tiled(unjoined, d, s.base(), z);
            assert(tiled(unjoined, map[p], s.base(), z));
            lemma_multiples(e.start() - s.base(), old.start() - s.base(), z);
            assert(o % z == 0);
            assert(is_new(unjoined, new.disk_no(), new.start() + o, z));
            let i = choose|i: int|
                {
                    &&& 0 <= i < unjoined.len()
                    &&& (#[trigger] unjoined[i]).1 is Some
                    &&& unjoined[i].1->0.disk_no() == new.disk_no()
                    &&& unjoined[i].1->0.start() == new.start() + o
                    &&& unjoined[i].1->0.size == z
                };
            let n = unjoined[i].1->0;
            lemma_in_new(a, b, c, id, slab, n, f)
        },
        SlabEnum::ExtentBased(_) => {
            assert(map[p] == unjoined[p]);
            lemma_in_new(a, b, c, id, slab, new, f)
        },
        SlabEnum::Evacuating(_) => { id },
    }
}

/// Where an extent goes, as the table says it.
pub open spec fn place_of(to: Option<Extent>) -> Option<DiskLocation> {
    match to {
        Some(e) => Some(e.location),
        None => None,
    }
}

/// The move of an extent.
pub open spec fn tells(
    moves: Seq<(Extent, Option<Extent>)>,
    p: int,
    key: Extent,
    place: Option<DiskLocation>,
) -> bool {
    0 <= p < moves.len() && moves[p].0 == key && place_of(moves[p].1) == place
}

proof fn lemma_told(
    t: Map<Extent, Option<DiskLocation>>,
    moves: Seq<(Extent, Option<Extent>)>,
    key: Extent,
)
    ensures
        told(t, moves).contains_key(key) <==> t.contains_key(key) || exists|p: int|
            0 <= p < moves.len() && (#[trigger] moves[p]).0 == key,
        told(t, moves).contains_key(key) ==> t.contains_key(key) && told(t, moves)[key] == t[key]
            || exists|p: int| #[trigger] tells(moves, p, key, told(t, moves)[key]),
    decreases moves.len(),
{
    if moves.len() > 0 {
        let rest = moves.drop_last();
        let last = moves.len() - 1;
        lemma_told(t, rest, key);
        assert(moves[last] == moves.last());
        let v = told(t, moves)[key];
        if moves.last().0 == key {
            assert(tells(moves, last, key, v));
        } else if told(t, rest).contains_key(key) {
            assert(told(t, rest)[key] == v);
            if exists|p: int| #[trigger] tells(rest, p, key, v) {
                let p = choose|p: int| #[trigger] tells(rest, p, key, v);
                assert(moves[p] == rest[p]);
                assert(tells(moves, p, key, v));
            }
            if exists|p: int| 0 <= p < rest.len() && (#[trigger] rest[p]).0 == key {
                let p = choose|p: int| 0 <= p < rest.len() && (#[trigger] rest[p]).0 == key;
                assert(moves[p].0 == key);
            }
        }
        if exists|p: int| 0 <= p < moves.len() && (#[trigger] moves[p]).0 == key {
            let p = choose|p: int| 0 <= p < moves.len() && (#[trigger] moves[p]).0 == key;
            if p < last {
                assert(rest[p].0 == key);
            }
        }
    }
}

/// The table holds the moves of all slabs.
proof fn lemma_told_all(maps: Seq<Seq<(Extent, Option<Extent>)>>, key: Extent)
    ensures
        forall|k: int, p: int|
            0 <= k < maps.len() && 0 <= p < maps[k].len() && (#[trigger] maps[k][p]).0 == key
                ==> told_all(maps).contains_key(key),
        told_all(maps).contains_key(key) ==> exists|k: int, p: int|
            0 <= k < maps.len() && #[trigger] tells(maps[k], p, key, told_all(maps)[key]),
    decreases maps.len(),
{
    if maps.len() > 0 {
        let rest = maps.drop_last();
        let last = maps.len() - 1;
        lemma_told_all(rest, key);
        lemma_told(told_all(rest), maps.last(), key);
        assert(maps[last] == maps.last());
        assert forall|k: int, p: int|
            0 <= k < maps.len() && 0 <= p < maps[k].len() && (#[trigger] maps[k][p]).0
                == key implies told_all(maps).contains_key(key) by {
            if k < last {
                assert(rest[k][p].0 == key);
            }
        }
        if told_all(maps).contains_key(key) {
            let v = told_all(maps)[key];
            if exists|p: int| #[trigger] tells(maps.last(), p, key, v) {
                let p = choose|p: int| #[trigger] tells(maps.last(), p, key, v);
                assert(tells(maps[last], p, key, v));
            } else {
                let (k, p) = choose|k: int, p: int|
                    0 <= k < rest.len() && #[trigger] tells(rest[k], p, key, told_all(rest)[key]);
                assert(maps[k] == rest[k]);
                assert(tells(maps[k], p, key, v));
            }
        }
    }
}

/// What a slab that is given up tells is about extents inside of it, in ascending order.
proof fn lemma_step(
    a: BlockAllocator,
    c: BlockAllocator,
    sa: SlabAllocator,
    sc: SlabAllocator,
    ids: Seq<SlabId>,
    states: Seq<BlockAllocator>,
    sas: Seq<SlabAllocator>,
    maps: Seq<Seq<(Extent, Option<Extent>)>>,
    merged: Seq<int>,
    table: Map<Extent, Option<DiskLocation>>,
    k: int,
)
    requires
        a.wf(sa),
        started(a, c, sa, sc, ids, states, sas, maps, merged, table),
        0 <= k < ids.len(),
    ensures
        sa.access.valid(ids[k]),
        moves_ok(maps[k]),
        olds_ascend(maps[k], sa.access.slab_disk(ids[k])),
        forall|p: int|
            0 <= p < maps[k].len() ==> sa.access.slab_extent(ids[k]).spec_contains(
                (#[trigger] maps[k][p]).0,
            ),
{
    let x = ids[k].0 as int;
    assert(step_moved(a, states, sas, ids, maps, merged, k));
    assert(withheld(a, states[k], ids[k]));
    let s = states[k];
    let slab = s.slabs@[x];
    reveal(BlockAllocator::owned_ok);
    assert(slab_ok(sa.access, a.slabs@[x], x));
    let whole = sa.access.slab_extent(ids[k]);
    sa.access.lemma_slab_extent(sa.access.holder(ids[k]), ids[k]);
    let (b, unjoined) = choose|b: BlockAllocator, unjoined: Seq<(Extent, Option<Extent>)>|
        #[trigger]
        moved_with(s, states[k + 1], ids[k], sas[k], sas[k + 1], maps[k], merged[k], b, unjoined);
    lemma_moves_in_order(
        s,
        states[k + 1],
        ids[k],
        sas[k],
        sas[k + 1],
        maps[k],
        merged[k],
        b,
        unjoined,
    );
    assert forall|i: int| 0 <= i < unjoined.len() implies whole.spec_contains(
        (#[trigger] unjoined[i]).0,
    ) && unjoined[i].0.disk_no() == whole.disk_no() by {
        slab.lemma_fits(whole, unjoined[i].0);
    }
    assert forall|p: int| 0 <= p < maps[k].len() implies whole.spec_contains(
        (#[trigger] maps[k][p]).0,
    ) && maps[k][p].0.disk_no() == whole.disk_no() by {
        let e = maps[k][p].0;
        assert(within(e.start(), e));
        assert(within(e.end() - 1, e));
        let i = choose|i: int|
            0 <= i < unjoined.len() && within(e.start(), (#[trigger] unjoined[i]).0);
        let j = choose|j: int|
            0 <= j < unjoined.len() && within(e.end() - 1, (#[trigger] unjoined[j]).0);
        assert(whole.spec_contains(unjoined[i].0));
        assert(whole.spec_contains(unjoined[j].0));
        assert(unjoined[i].0.disk_no() == slab.disk());
    }
}

/// A block in a slab that is not given up stays in use while others are.
proof fn lemma_stays(
    a: BlockAllocator,
    c: BlockAllocator,
    sa: SlabAllocator,
    sc: SlabAllocator,
    ids: Seq<SlabId>,
    states: Seq<BlockAllocator>,
    sas: Seq<SlabAllocator>,
    maps: Seq<Seq<(Extent, Option<Extent>)>>,
    merged: Seq<int>,
    table: Map<Extent, Option<DiskLocation>>,
    m: int,
    q: SlabId,
    f: Extent,
)
    requires
        started(a, c, sa, sc, ids, states, sas, maps, merged, table),
        0 <= m <= ids.len(),
        states[m].is_allocated_block(q, f),
        forall|i: int| m <= i < ids.len() ==> #[trigger] ids[i] != q,
    ensures
        c.is_allocated_block(q, f),
    decreases ids.len() - m,
{
    if m < ids.len() {
        let y = q.0 as int;
        assert(step_moved(a, states, sas, ids, maps, merged, m));
        let s = states[m];
        let n = states[m + 1];
        let (b, unjoined) = choose|b: BlockAllocator, unjoined: Seq<(Extent, Option<Extent>)>|
            #[trigger]
            moved_with(s, n, ids[m], sas[m], sas[m + 1], maps[m], merged[m], b, unjoined);
        let x = ids[m].0 as int;
        assert(ids[m] != q);
        assert(s.slabs@.contains_key(y));
        assert(slab_grown(s.slabs@[y], b.slabs@[y]));
        assert(b.slabs@.remove(x).contains_key(y));
        assert(n.slabs@.remove(x).contains_key(y));
        assert(n.slabs@.remove(x)[y] == n.slabs@[y]);
        assert(b.slabs@.remove(x)[y] == b.slabs@[y]);
        assert(b.slabs@[y].is_block(f));
        assert(n.is_allocated_block(q, f));
        lemma_stays(a, c, sa, sc, ids, states, sas, maps, merged, table, m + 1, q, f);
    }
}

/// After a rebalance has been started, a block of a slab that was given up either has no place,
/// or the place that the table gives for it is a block that is in use.
#[verifier::spinoff_prover]
#[verifier::rlimit(40)]
pub proof fn law_remapped(
    a: BlockAllocator,
    c: BlockAllocator,
    sa: SlabAllocator,
    sc: SlabAllocator,
    ids: Seq<SlabId>,
    states: Seq<BlockAllocator>,
    sas: Seq<SlabAllocator>,
    maps: Seq<Seq<(Extent, Option<Extent>)>>,
    merged: Seq<int>,
    t: RemapTable,
    k: int,
    e: Extent,
)
    requires
        a.wf(sa),
        c.wf(sc),
        t.wf(),
        started(a, c, sa, sc, ids, states, sas, maps, merged, t@),
        0 <= k < ids.len(),
        a.is_allocated_block(ids[k], e),
        kinds_kept(a.slab_buckets, a.slabs@[ids[k].0 as int]),
    ensures
        remap_of(t, e) matches Some(location) ==> exists|q: SlabId| #[trigger]
            c.is_allocated_block(q, Extent { location, size: e.size }),
{
    let id = ids[k];
    let x = id.0 as int;
    let s = states[k];
    let n = states[k + 1];
    let map = maps[k];
    assert(step_moved(a, states, sas, ids, maps, merged, k));
    assert(withheld(a, s, id));
    reveal(BlockAllocator::owned_ok);
    assert(slab_ok(sa.access, a.slabs@[x], x));
    let (b, unjoined) = choose|b: BlockAllocator, unjoined: Seq<(Extent, Option<Extent>)>|
        #[trigger]
        moved_with(s, n, id, sas[k], sas[k + 1], map, merged[k], b, unjoined);
    lemma_moves_in_order(s, n, id, sas[k], sas[k + 1], map, merged[k], b, unjoined);
    assert(s.is_allocated_block(id, e));
    let p = choose|p: int| 0 <= p < map.len() && (#[trigger] map[p]).0.spec_contains(e);
    a.slabs@[x].lemma_block_disk(e);
    let key = map[p].0;
    lemma_table_place(a, c, sa, sc, ids, states, sas, maps, merged, t, k, p, e);
    if map[p].1 is Some {
        let f = goes_to(map[p], e);
        assert(kinds_kept(s.slab_buckets, s.slabs@[x])) by {
            lemma_kinds_same(a.slab_buckets, s.slab_buckets, a.slabs@[x], s.slabs@[x]);
        }
        let q = law_moved_block(
            s,
            n,
            id,
            sas[k],
            sas[k + 1],
            map,
            merged[k],
            b,
            unjoined,
            e,
            p,
        );
        assert forall|i: int| k + 1 <= i < ids.len() implies #[trigger] ids[i] != q by {
            assert(withheld(a, s, ids[i]));
        }
        lemma_stays(a, c, sa, sc, ids, states, sas, maps, merged, t@, k + 1, q, f);
    }
}

proof fn lemma_kinds_same(
    a: SlabAllocationBuckets,
    b: SlabAllocationBuckets,
    slab: Slab,
    other: Slab,
)
    requires
        same_sizes_and_kinds(a, b),
        same_state(slab, other),
        kinds_kept(a, slab),
    ensures
        kinds_kept(b, other),
{
    assert(blocks_of(other) == blocks_of(slab));
    assert forall|i: int| 0 <= i < blocks_of(other).len() implies keeps_kind(
        b,
        other,
        (#[trigger] blocks_of(other)[i]).size as int,
    ) by {
        let size = blocks_of(other)[i].size as int;
        assert(keeps_kind(a, slab, blocks_of(slab)[i].size as int));
        assert forall|j: int| #[trigger] b.serves(j, size) implies b.bucket(j).is_extent_based == (
        other.inner is ExtentBased) by {
            assert(b.size(j) == a.size(j));
            assert forall|y: int| 0 <= y < j implies #[trigger] a.size(y) < size by {
                assert(b.size(y) == a.size(y));
            }
            assert(a.serves(j, size));
        }
    }
}

/// An extent that is inside of one that is moved goes where the table says.
#[verifier::spinoff_prover]
#[verifier::rlimit(40)]
proof fn lemma_table_place(
    a: BlockAllocator,
    c: BlockAllocator,
    sa: SlabAllocator,
    sc: SlabAllocator,
    ids: Seq<SlabId>,
    states: Seq<BlockAllocator>,
    sas: Seq<SlabAllocator>,
    maps: Seq<Seq<(Extent, Option<Extent>)>>,
    merged: Seq<int>,
    t: RemapTable,
    k: int,
    p: int,
    e: Extent,
)
    requires
        a.wf(sa),
        c.wf(sc),
        t.wf(),
        started(a, c, sa, sc, ids, states, sas, maps, merged, t@),
        0 <= k < ids.len(),
        0 <= p < maps[k].len(),
        maps[k][p].0.spec_contains(e),
        e.wf(),
        e.size > 0,
    ensures
        remap_of(t, e) == if maps[k][p].1 is Some {
            Some(goes_to(maps[k][p], e).location)
        } else {
            None
        },
{
    let key = maps[k][p].0;
    lemma_told_all(maps, key);
    assert(maps[k][p].0 == key);
    assert(t@.contains_key(key));
    let i = t.place(key);
    assert(t.entries@[i].0 == key);
    t.lemma_place(i);
    let place = t.entries@[i].1;
    // what the table says about the extent is what its move says
    let (k2, p2) = choose|k2: int, p2: int|
        0 <= k2 < maps.len() && #[trigger] tells(maps[k2], p2, key, told_all(maps)[key]);
    lemma_one_move(a, c, sa, sc, ids, states, sas, maps, merged, t@, k, p, k2, p2);
    assert(place == place_of(maps[k][p].1));
    assert forall|j: int| 0 <= j < t.entries@.len() implies (#[trigger] t.entries@[j]).0.wf() && (
    t.entries@[j].1 matches Some(new) ==> new.wf() && new.off() + t.entries@[j].0.size
        <= u64::MAX) && (j != i ==> !t.entries@[j].0.overlaps(key)) by {
        let other = t.entries@[j].0;
        t.lemma_place(j);
        lemma_told_all(maps, other);
        let (k3, p3) = choose|k3: int, p3: int|
            0 <= k3 < maps.len() && #[trigger] tells(maps[k3], p3, other, told_all(maps)[other]);
        lemma_step(a, c, sa, sc, ids, states, sas, maps, merged, t@, k3);
        assert(maps[k3][p3].0 == other);
        if j != i && other.overlaps(key) {
            lemma_one_move(a, c, sa, sc, ids, states, sas, maps, merged, t@, k, p, k3, p3);
            assert(other == key);
            t.lemma_place(j);
            assert(false);
        }
    }
    law_remap_inside(t, e, i);
}

/// Moves that overlap are the same move.
proof fn lemma_one_move(
    a: BlockAllocator,
    c: BlockAllocator,
    sa: SlabAllocator,
    sc: SlabAllocator,
    ids: Seq<SlabId>,
    states: Seq<BlockAllocator>,
    sas: Seq<SlabAllocator>,
    maps: Seq<Seq<(Extent, Option<Extent>)>>,
    merged: Seq<int>,
    table: Map<Extent, Option<DiskLocation>>,
    k: int,
    p: int,
    k2: int,
    p2: int,
)
    requires
        a.wf(sa),
        c.wf(sc),
        started(a, c, sa, sc, ids, states, sas, maps, merged, table),
        0 <= k < ids.len(),
        0 <= p < maps[k].len(),
        0 <= k2 < ids.len(),
        0 <= p2 < maps[k2].len(),
        maps[k2][p2].0.overlaps(maps[k][p].0),
    ensures
        k == k2,
        p == p2,
{
    lemma_step(a, c, sa, sc, ids, states, sas, maps, merged, table, k);
    lemma_step(a, c, sa, sc, ids, states, sas, maps, merged, table, k2);
    let x = maps[k][p].0;
    let y = maps[k2][p2].0;
    assert(x.size > 0 && y.size > 0);
    assert(sa.access.slab_extent(ids[k]).spec_contains(x));
    assert(sa.access.slab_extent(ids[k2]).spec_contains(y));
    assert(distinct(ids)) by {
        reveal(noalloc_ok);
    }
    assert(sa.access.wf()) by {
        reveal(BlockAllocator::owned_ok);
    }
    if k != k2 {
        assert(ids[k] != ids[k2]) by {
            if k < k2 {
                assert(ids[k] != ids[k2]);
            } else {
                assert(ids[k2] != ids[k]);
            }
        }
        sa.access.law_slabs_disjoint(ids[k], ids[k2]);
        assert(false);
    }
    if p < p2 {
        assert(maps[k][p].0.end() <= maps[k][p2].0.start());
    } else if p2 < p {
        assert(maps[k][p2].0.end() <= maps[k][p].0.start());
    }
}

} // verus!
