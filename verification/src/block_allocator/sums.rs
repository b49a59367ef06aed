//! What allocating, freeing, flushing and taking disks out of use do to the sums over the slabs.
use crate::base_types::Extent;
use crate::block_allocator::flush::{all_clean, flushed_all};
use crate::block_allocator::invariants::{
    alloc_on, dirty_ok, free_on, same_state, same_states,
};
use crate::block_allocator::sizes::{allocated_len, free_len, on_disks};
use crate::block_allocator::slab::Slab;
use crate::block_allocator::slabs::{slab_ok, sum_slabs};
use crate::block_allocator::{
    allocated_in, allocation, first_room, freed_block, lemma_tried, new_slab_allocated, tried,
    BlockAllocator,
};
use crate::slab_allocator::{SlabAllocator, SlabId};
use crate::space_map::extent_bytes;
use vstd::prelude::*;

verus! {

pub open spec fn freeing_len() -> spec_fn(Slab) -> int {
    |s: Slab| s.freeing_bytes().len() as int
}

/// The bytes that can be allocated, of all disks.
pub open spec fn free_sum(a: BlockAllocator, sa: SlabAllocator) -> int {
    sum_slabs(a.slabs@, sa.access.next_slab_id.0 as int, on_disks(|d: int| true, free_len()))
}

/// The bytes that can be allocated, of the disks that are in use.
pub open spec fn allocatable_sum(a: BlockAllocator, sa: SlabAllocator) -> int {
    sum_slabs(
        a.slabs@,
        sa.access.next_slab_id.0 as int,
        on_disks(|d: int| !a.is_blocked(d), free_len()),
    )
}

/// The bytes that have been freed since the last flush.
pub open spec fn freeing_sum(a: BlockAllocator, sa: SlabAllocator) -> int {
    sum_slabs(a.slabs@, sa.access.next_slab_id.0 as int, on_disks(|d: int| true, freeing_len()))
}

/// The allocated bytes of a disk.
pub open spec fn allocated_sum(a: BlockAllocator, sa: SlabAllocator, d: int) -> int {
    sum_slabs(a.slabs@, sa.access.next_slab_id.0 as int, alloc_on(d))
}

/// The free bytes of a disk.
pub open spec fn disk_free_sum(a: BlockAllocator, sa: SlabAllocator, d: int) -> int {
    sum_slabs(a.slabs@, sa.access.next_slab_id.0 as int, free_on(d))
}

/// Sums of three numbers of which one is the sum of the others.
proof fn lemma_sum_split(
    a: Map<int, Slab>,
    b: Map<int, Slab>,
    n: int,
    f: spec_fn(Slab) -> int,
    g: spec_fn(Slab) -> int,
    h: spec_fn(Slab) -> int,
)
    requires
        forall|k: int| 0 <= k < n ==> #[trigger] a.contains_key(k) == b.contains_key(k),
        forall|k: int| 0 <= k < n && #[trigger] a.contains_key(k) ==> h(b[k]) == f(a[k]) + g(a[k]),
    ensures
        sum_slabs(b, n, h) == sum_slabs(a, n, f) + sum_slabs(a, n, g),
    decreases n,
{
    if n > 0 {
        lemma_sum_split(a, b, n - 1, f, g, h);
        assert(a.contains_key(n - 1) == b.contains_key(n - 1));
    }
}

/// A sum changes by what changes at one slab.
proof fn lemma_sum_except(
    a: Map<int, Slab>,
    b: Map<int, Slab>,
    i: int,
    n: int,
    f: spec_fn(Slab) -> int,
    change: int,
)
    requires
        0 <= i,
        forall|k: int|
            0 <= k < n && k != i ==> #[trigger] a.contains_key(k) == b.contains_key(k),
        forall|k: int|
            0 <= k < n && k != i && #[trigger] a.contains_key(k) ==> f(b[k]) == f(a[k]),
        b.contains_key(i),
        f(b[i]) == change + if a.contains_key(i) {
            f(a[i])
        } else {
            0
        },
    ensures
        sum_slabs(b, n, f) == sum_slabs(a, n, f) + if i < n {
            change
        } else {
            0
        },
    decreases n,
{
    if n > 0 {
        lemma_sum_except(a, b, i, n - 1, f, change);
        if i != n - 1 {
            assert(a.contains_key(n - 1) == b.contains_key(n - 1));
        }
    }
}

/// A flush makes what was freed since the last one free, and nothing else: the free bytes grow by
/// exactly those, and the allocated bytes of every disk stay the same.
pub proof fn law_flush_sums(a: BlockAllocator, b: BlockAllocator, sa: SlabAllocator)
    requires
        a.wf(sa),
        flushed_all(a.slabs@, b.slabs@),
    ensures
        free_sum(b, sa) == free_sum(a, sa) + freeing_sum(a, sa),
        freeing_sum(b, sa) == 0,
        forall|d: int| #[trigger] allocated_sum(b, sa, d) == allocated_sum(a, sa, d),
{
    let n = sa.access.next_slab_id.0 as int;
    let m = a.slabs@;
    let m2 = b.slabs@;
    assert forall|k: int| #[trigger] m.contains_key(k) implies m2[k].free_bytes().len()
        == m[k].free_bytes().len() + m[k].freeing_bytes().len() && m2[k].freeing_bytes().len() == 0
        && m2[k].allocated_bytes().len() == m[k].allocated_bytes().len() && m2[k].disk()
        == m[k].disk() by {
        reveal(BlockAllocator::owned_ok);
        reveal(dirty_ok);
        assert(slab_ok(sa.access, m[k], k));
        if m[k].is_dirty {
            Slab::lemma_flushed_sizes(&m[k], &m2[k]);
        }
        m2[k].lemma_sizes();
    }
    let all = |d: int| true;
    lemma_sum_split(
        m,
        m2,
        n,
        on_disks(all, free_len()),
        on_disks(all, freeing_len()),
        on_disks(all, free_len()),
    );
    let none = |s: Slab| 0int;
    lemma_sum_split(m, m2, n, none, none, on_disks(all, freeing_len()));
    crate::block_allocator::lemma_sum_none(m, n, none);
    assert forall|d: int| #[trigger] allocated_sum(b, sa, d) == allocated_sum(a, sa, d) by {
        lemma_sum_split(m, m2, n, alloc_on(d), none, alloc_on(d));
    }
}

/// Right after a flush, another one changes nothing.
pub proof fn law_flush_again(b: BlockAllocator, c: BlockAllocator)
    requires
        all_clean(b.slabs@),
        flushed_all(b.slabs@, c.slabs@),
    ensures
        c.slabs@ == b.slabs@,
{
    assert(c.slabs@ =~= b.slabs@);
}

/// Freeing a block lowers the allocated bytes of its disk by its size. The bytes are not free
/// before the next flush, which makes them so.
pub proof fn law_free_sums(
    a: BlockAllocator,
    b: BlockAllocator,
    sa: SlabAllocator,
    extent: Extent,
)
    requires
        a.wf(sa),
        b.wf(sa),
        freed_block(a, b, extent),
    ensures
        free_sum(b, sa) == free_sum(a, sa),
        freeing_sum(b, sa) == freeing_sum(a, sa) + extent.size,
        forall|d: int| #[trigger]
            allocated_sum(b, sa, d) == allocated_sum(a, sa, d) - if d == extent.disk_no() {
                extent.size as int
            } else {
                0
            },
{
    let n = sa.access.next_slab_id.0 as int;
    let m = a.slabs@;
    let m2 = b.slabs@;
    let id = choose|id: SlabId|
        {
            let i = id.0 as int;
            let x = a.slabs@[i];
            let y = b.slabs@[i];
            &&& #[trigger] a.is_allocated_block(id, extent)
            &&& b.slabs@ == a.slabs@.insert(i, y)
            &&& y.same_slab(&x)
            &&& y.is_dirty
            &&& y.free_bytes() == x.free_bytes()
            &&& y.allocating_bytes() == x.allocating_bytes()
            &&& y.freeing_bytes() == x.freeing_bytes().union(extent_bytes(extent))
        };
    let i = id.0 as int;
    reveal(BlockAllocator::owned_ok);
    assert(slab_ok(sa.access, m[i], i));
    assert(slab_ok(sa.access, m2[i], i));
    sa.access.lemma_id_below_next(id);
    Slab::lemma_freed_sizes(&m[i], &m2[i], extent);
    m[i].lemma_sizes();
    m2[i].lemma_sizes();
    m[i].lemma_block_disk(extent);
    let all = |d: int| true;
    lemma_sum_except(m, m2, i, n, on_disks(all, free_len()), 0);
    lemma_sum_except(m, m2, i, n, on_disks(all, freeing_len()), extent.size as int);
    assert forall|d: int| #[trigger] allocated_sum(b, sa, d) == allocated_sum(a, sa, d) - if d
        == extent.disk_no() {
        extent.size as int
    } else {
        0
    } by {
        lemma_sum_except(
            m,
            m2,
            i,
            n,
            alloc_on(d),
            if d == extent.disk_no() {
                -(extent.size as int)
            } else {
                0
            },
        );
    }
}

/// The bytes of extents.
pub open spec fn total_bytes(extents: Seq<Extent>) -> int
    decreases extents.len(),
{
    if extents.len() == 0 {
        0
    } else {
        total_bytes(extents.drop_last()) + extents.last().size
    }
}

/// The bytes of those extents that are on a disk.
pub open spec fn bytes_on(extents: Seq<Extent>, d: int) -> int
    decreases extents.len(),
{
    if extents.len() == 0 {
        0
    } else {
        bytes_on(extents.drop_last(), d) + if extents.last().disk_no() == d {
            extents.last().size as int
        } else {
            0
        }
    }
}

/// One block after another has been freed: the states before, between and after that.
pub open spec fn freed_in_turn(
    states: Seq<BlockAllocator>,
    sa: SlabAllocator,
    extents: Seq<Extent>,
) -> bool {
    &&& states.len() == extents.len() + 1
    &&& forall|i: int| 0 <= i < states.len() ==> (#[trigger] states[i]).wf(sa)
    &&& forall|i: int|
        0 <= i < extents.len() ==> freed_block(
            states[i],
            states[i + 1],
            #[trigger] extents[i],
        )
}

proof fn lemma_frees_sums(states: Seq<BlockAllocator>, sa: SlabAllocator, extents: Seq<Extent>)
    requires
        freed_in_turn(states, sa, extents),
    ensures
        free_sum(states.last(), sa) == free_sum(states[0], sa),
        freeing_sum(states.last(), sa) == freeing_sum(states[0], sa) + total_bytes(extents),
        forall|d: int| #[trigger]
            allocated_sum(states.last(), sa, d) == allocated_sum(states[0], sa, d) - bytes_on(
                extents,
                d,
            ),
    decreases extents.len(),
{
    if extents.len() > 0 {
        let n = extents.len() - 1;
        let s = states.drop_last();
        let e = extents.drop_last();
        assert forall|i: int| 0 <= i < e.len() implies freed_block(
            s[i],
            s[i + 1],
            #[trigger] e[i],
        ) by {
            assert(freed_block(states[i], states[i + 1], extents[i]));
        }
        lemma_frees_sums(s, sa, e);
        assert(s.last() == states[n]);
        assert(freed_block(states[n], states[n + 1], extents[n]));
        law_free_sums(states[n], states[n + 1], sa, extents[n]);
        assert forall|d: int| #[trigger]
            allocated_sum(states.last(), sa, d) == allocated_sum(states[0], sa, d) - bytes_on(
                extents,
                d,
            ) by {
            assert(allocated_sum(s.last(), sa, d) == allocated_sum(s[0], sa, d) - bytes_on(e, d));
            assert(allocated_sum(states[n + 1], sa, d) == allocated_sum(states[n], sa, d) - if d
                == extents[n].disk_no() {
                extents[n].size as int
            } else {
                0
            });
        }
    }
}

/// However many blocks are freed, the next flush makes all of them free, and with them what had
/// been freed before: the free bytes grow by their bytes, nothing waits any more, and the
/// allocated bytes of each disk are less by the bytes of the blocks that were freed on it.
pub proof fn law_frees_then_flush(
    states: Seq<BlockAllocator>,
    c: BlockAllocator,
    sa: SlabAllocator,
    extents: Seq<Extent>,
)
    requires
        freed_in_turn(states, sa, extents),
        flushed_all(states.last().slabs@, c.slabs@),
    ensures
        free_sum(c, sa) == free_sum(states[0], sa) + freeing_sum(states[0], sa) + total_bytes(
            extents,
        ),
        freeing_sum(c, sa) == 0,
        forall|d: int| #[trigger]
            allocated_sum(c, sa, d) == allocated_sum(states[0], sa, d) - bytes_on(extents, d),
{
    lemma_frees_sums(states, sa, extents);
    let b = states[states.len() - 1];
    law_flush_sums(b, c, sa);
    assert forall|d: int| #[trigger] allocated_sum(c, sa, d) == allocated_sum(states[0], sa, d)
        - bytes_on(extents, d) by {
        assert(allocated_sum(b, sa, d) == allocated_sum(states[0], sa, d) - bytes_on(extents, d));
    }
}

/// An allocation gives an extent that is large enough and lies in one slab, and raises the
/// allocated bytes of its disk by the size of the extent. One that fails changes no sum.
#[verifier::spinoff_prover]
#[verifier::rlimit(40)]
pub proof fn law_allocate_sums(
    a: BlockAllocator,
    b: BlockAllocator,
    sa: SlabAllocator,
    sb: SlabAllocator,
    index: int,
    size: u32,
    r: Option<Extent>,
)
    requires
        a.wf(sa),
        b.wf(sb),
        sb.access == sa.access,
        a.slab_buckets.serves(index, size as int),
        allocation(a, b, sa, sb, index, size, r),
    ensures
        match r {
            Some(e) => {
                &&& e.size >= size
                &&& exists|id: SlabId|
                    sa.access.valid(id) && #[trigger] sa.access.slab_extent(id).spec_contains(e)
                &&& forall|d: int| #[trigger]
                    allocated_sum(b, sb, d) == allocated_sum(a, sa, d) + if d == e.disk_no() {
                        e.size as int
                    } else {
                        0
                    }
            },
            None => {
                &&& free_sum(b, sb) == free_sum(a, sa)
                &&& freeing_sum(b, sb) == freeing_sum(a, sa)
                &&& forall|d: int| #[trigger] allocated_sum(b, sb, d) == allocated_sum(a, sa, d)
            },
        },
{
    let n = sa.access.next_slab_id.0 as int;
    let m = a.slabs@;
    let m2 = b.slabs@;
    let bucket = a.slab_buckets.bucket(index);
    let list = tried(bucket);
    lemma_tried(bucket, a.slab_buckets, m, a.inside(), index);
    let k = choose|k: int| #[trigger]
        first_room(m, list, size as int, k) && if k < list.len() {
            &&& r is Some
            &&& allocated_in(m, m2, list[k].slab_id, size as int, r->0)
            &&& sb == sa
            &&& b.slab_buckets.bucket(index).last_allocated == Some(list[k])
        } else {
            &&& r is Some <==> sa.allocatable@.len() > sa.reserved_slabs
            &&& r is Some ==> new_slab_allocated(a, b, sa, sb, size, r->0)
            &&& r is None ==> {
                &&& same_states(m, m2)
                &&& sb == sa
                &&& b.slab_buckets.bucket(index).last_allocated is None
                &&& b == (BlockAllocator { slabs: b.slabs, slab_buckets: b.slab_buckets, ..a })
            }
        };
    if r is None {
        assert forall|x: int| #[trigger] m.contains_key(x) implies same_state(m[x], m2[x]) by {}
        let all = |d: int| true;
        let none = |s: Slab| 0int;
        crate::block_allocator::lemma_sum_none(m, n, none);
        lemma_sum_split(m, m2, n, on_disks(all, free_len()), none, on_disks(all, free_len()));
        lemma_sum_split(m, m2, n, on_disks(all, freeing_len()), none, on_disks(all, freeing_len()));
        assert forall|d: int| #[trigger] allocated_sum(b, sb, d) == allocated_sum(a, sa, d) by {
            lemma_sum_split(m, m2, n, alloc_on(d), none, alloc_on(d));
        }
    } else {
        let e = r->0;
        let id = if k < list.len() {
            list[k].slab_id
        } else {
            sa.allocatable@.last()
        };
        let i = id.0 as int;
        reveal(BlockAllocator::owned_ok);
        assert(slab_ok(sa.access, m2[i], i));
        sa.access.lemma_id_below_next(id);
        sa.access.lemma_slab_extent(sa.access.holder(id), id);
        m2[i].lemma_fits(sa.access.slab_extent(id), e);
        m2[i].lemma_block_disk(e);
        m2[i].lemma_sizes();
        assert(sa.access.slab_extent(id).spec_contains(e));
        let d0 = e.disk_no();
        if k < list.len() {
            assert(slab_ok(sa.access, m[i], i));
            Slab::lemma_allocated_sizes(&m[i], &m2[i], e);
            assert forall|x: int| x != i implies #[trigger] m.contains_key(x) == m2.contains_key(x)
                && (m.contains_key(x) ==> same_state(m[x], m2[x])) by {
                assert(m.remove(i).contains_key(x) == m2.remove(i).contains_key(x));
                if m.contains_key(x) {
                    assert(same_state(m.remove(i)[x], m2.remove(i)[x]));
                }
            }
        } else {
            crate::bitmap_range_iterator::lemma_span_len(e.start(), e.size as int);
            assert(m2[i].allocated_bytes() =~= extent_bytes(e));
            assert forall|x: int| x != i implies #[trigger] m.contains_key(x) == m2.contains_key(x)
                && (m.contains_key(x) ==> same_state(m[x], m2[x])) by {
                assert(m2.remove(i).contains_key(x) == m2.contains_key(x));
                if m.contains_key(x) {
                    assert(same_state(m[x], m2.remove(i)[x]));
                }
            }
        }
        assert forall|d: int| #[trigger] allocated_sum(b, sb, d) == allocated_sum(a, sa, d) + if d
            == d0 {
            e.size as int
        } else {
            0
        } by {
            lemma_sum_except(
                m,
                m2,
                i,
                n,
                alloc_on(d),
                if d == d0 {
                    e.size as int
                } else {
                    0
                },
            );
        }
    }
}

/// A disk whose slabs are all listed has nothing to allocate from, or is blocked.
proof fn lemma_listed_blocked(a: BlockAllocator, sa: SlabAllocator, d: int)
    requires
        a.wf(sa),
        a.noalloc_state@.contains_key(d) <==> exists|id: SlabId| #[trigger] a.on_disk(id, d),
        a.noalloc_state@.contains_key(d) ==> forall|id: SlabId|
            #[trigger] a.noalloc_state@[d]@.contains(id) <==> a.on_disk(id, d),
    ensures
        a.is_blocked(d) || disk_free_sum(a, sa, d) == 0,
{
    let m = a.slabs@;
    if !a.is_blocked(d) {
        reveal(BlockAllocator::owned_ok);
        assert forall|k: int| #[trigger] m.contains_key(k) implies free_on(d)(m[k]) == 0 by {
            if m[k].disk() == d {
                assert(slab_ok(sa.access, m[k], k));
                let id = m[k].id;
                assert(a.on_disk(id, d));
                assert(a.noalloc_state@[d]@.contains(id));
                let x = choose|x: int|
                    0 <= x < a.noalloc_state@[d]@.len() && a.noalloc_state@[d]@[x] == id;
                assert(!m[a.noalloc_state@[d]@[x].0 as int].live());
                assert(m[k].free_bytes() =~= Set::<int>::empty());
            }
        }
        crate::block_allocator::lemma_sum_none(m, sa.access.next_slab_id.0 as int, free_on(d));
    }
}

/// Taking a disk out of use, or back into use, moves its free bytes out of what can be allocated,
/// or back, and leaves the sum of all free bytes as it is.
proof fn lemma_blocked_sums(a: BlockAllocator, b: BlockAllocator, sa: SlabAllocator, d: int)
    requires
        b.slabs == a.slabs,
        forall|x: int| x != d ==> #[trigger] b.is_blocked(x) == a.is_blocked(x),
        !a.is_blocked(d),
        b.is_blocked(d) || disk_free_sum(a, sa, d) == 0,
    ensures
        allocatable_sum(a, sa) == allocatable_sum(b, sa) + disk_free_sum(a, sa, d),
{
    let n = sa.access.next_slab_id.0 as int;
    let m = a.slabs@;
    let open_a = on_disks(|x: int| !a.is_blocked(x), free_len());
    let open_b = on_disks(|x: int| !b.is_blocked(x), free_len());
    if b.is_blocked(d) {
        assert forall|k: int| 0 <= k < n && #[trigger] m.contains_key(k) implies open_a(m[k])
            == open_b(m[k]) + free_on(d)(m[k]) by {
            if m[k].disk() != d {
                assert(b.is_blocked(m[k].disk()) == a.is_blocked(m[k].disk()));
            }
        }
        lemma_sum_split(m, m, n, open_b, free_on(d), open_a);
    } else {
        let none = |s: Slab| 0int;
        crate::block_allocator::lemma_sum_none(m, n, none);
        assert forall|k: int| 0 <= k < n && #[trigger] m.contains_key(k) implies open_a(m[k])
            == open_b(m[k]) + none(m[k]) by {
            if m[k].disk() != d {
                assert(b.is_blocked(m[k].disk()) == a.is_blocked(m[k].disk()));
            }
        }
        lemma_sum_split(m, m, n, open_b, none, open_a);
    }
}

/// Marking a disk lowers what can be allocated by the free bytes of the disk. What is free stays
/// the same, and so does what is allocated.
pub proof fn law_mark_sums(a: BlockAllocator, b: BlockAllocator, sa: SlabAllocator, d: int)
    requires
        a.wf(sa),
        b.wf(sa),
        b.slabs == a.slabs,
        !a.is_blocked(d),
        forall|x: int| x != d ==> #[trigger] b.is_blocked(x) == a.is_blocked(x),
        b.noalloc_state@.contains_key(d) <==> exists|id: SlabId| #[trigger] a.on_disk(id, d),
        b.noalloc_state@.contains_key(d) ==> forall|id: SlabId|
            #[trigger] b.noalloc_state@[d]@.contains(id) <==> a.on_disk(id, d),
    ensures
        allocatable_sum(b, sa) == allocatable_sum(a, sa) - disk_free_sum(a, sa, d),
        free_sum(b, sa) == free_sum(a, sa),
        forall|x: int| #[trigger] allocated_sum(b, sa, x) == allocated_sum(a, sa, x),
{
    assert forall|id: SlabId| #[trigger] b.on_disk(id, d) == a.on_disk(id, d) by {}
    if b.noalloc_state@.contains_key(d) {
        let id = choose|id: SlabId| #[trigger] a.on_disk(id, d);
        assert(b.on_disk(id, d));
    } else {
        assert forall|id: SlabId| !#[trigger] b.on_disk(id, d) by {
            assert(!a.on_disk(id, d));
        }
    }
    lemma_listed_blocked(b, sa, d);
    lemma_blocked_sums(a, b, sa, d);
}

/// Unmarking a disk makes its free bytes count again: after a disk was marked and unmarked, as
/// much can be allocated as before.
pub proof fn law_unmark_sums(
    a: BlockAllocator,
    b: BlockAllocator,
    c: BlockAllocator,
    sa: SlabAllocator,
    d: int,
)
    requires
        b.slabs == a.slabs,
        c.slabs == a.slabs,
        !a.is_blocked(d),
        forall|x: int| x != d ==> #[trigger] b.is_blocked(x) == a.is_blocked(x),
        !c.is_blocked(d),
        forall|x: int| x != d ==> #[trigger] c.is_blocked(x) == b.is_blocked(x),
    ensures
        allocatable_sum(c, sa) == allocatable_sum(a, sa),
        free_sum(c, sa) == free_sum(a, sa),
{
    let n = sa.access.next_slab_id.0 as int;
    let m = a.slabs@;
    let none = |s: Slab| 0int;
    crate::block_allocator::lemma_sum_none(m, n, none);
    let open_a = on_disks(|x: int| !a.is_blocked(x), free_len());
    let open_c = on_disks(|x: int| !c.is_blocked(x), free_len());
    assert forall|k: int| 0 <= k < n && #[trigger] m.contains_key(k) implies open_c(m[k])
        == open_a(m[k]) + none(m[k]) by {
        let x = m[k].disk();
        if x != d {
            assert(b.is_blocked(x) == a.is_blocked(x));
            assert(c.is_blocked(x) == b.is_blocked(x));
        }
    }
    lemma_sum_split(m, m, n, open_a, none, open_c);
}

/// What a slab has free, what is to be free and what is in use is what it can hold, and it counts
/// for its disk only.
pub proof fn law_space_of_slab(s: Slab, d: int, on: spec_fn(int) -> bool)
    requires
        s.wf(),
    ensures
        d == s.disk() ==> alloc_on(d)(s) + free_on(d)(s) + freeing_len()(s) == s.whole().len(),
        d != s.disk() ==> alloc_on(d)(s) == 0 && free_on(d)(s) == 0,
        d == s.disk() && on(d) ==> on_disks(on, free_len())(s) == free_on(d)(s) && on_disks(
            on,
            allocated_len(),
        )(s) == alloc_on(d)(s),
        d == s.disk() && !on(d) ==> on_disks(on, free_len())(s) == 0 && on_disks(
            on,
            allocated_len(),
        )(s) == 0,
        d == s.disk() ==> free_on(d)(s) == s.free_bytes().len() && freeing_len()(s)
            == s.freeing_bytes().len(),
{
    s.lemma_sizes();
}

/// A sum over slabs is that of each that there is.
pub proof fn law_sum_of_slabs(m: Map<int, Slab>, n: int, f: spec_fn(Slab) -> int)
    requires
        n >= 0,
    ensures
        sum_slabs(m, 0, f) == 0,
        m.contains_key(n) ==> sum_slabs(m, n + 1, f) == sum_slabs(m, n, f) + f(m[n]),
        !m.contains_key(n) ==> sum_slabs(m, n + 1, f) == sum_slabs(m, n, f),
{
}

/// The bytes of extents are those of each, and those on a disk are those of the extents that are
/// on it.
pub proof fn law_bytes_of_extents(extents: Seq<Extent>, e: Extent, d: int)
    ensures
        total_bytes(extents.push(e)) == total_bytes(extents) + e.size,
        e.disk_no() == d ==> bytes_on(extents.push(e), d) == bytes_on(extents, d) + e.size,
        e.disk_no() != d ==> bytes_on(extents.push(e), d) == bytes_on(extents, d),
        total_bytes(Seq::empty()) == 0 && bytes_on(Seq::empty(), d) == 0,
{
    assert(extents.push(e).drop_last() =~= extents);
}

} // verus!
