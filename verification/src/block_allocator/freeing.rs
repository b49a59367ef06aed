//! Freeing many blocks, such as those that a merge has evicted.
use crate::base_types::Extent;
use crate::block_allocator::slab::Slab;
use crate::block_allocator::slabs::slab_ok;
use crate::block_allocator::{dirtied, freed_block, BlockAllocator};
use crate::slab_allocator::{SlabAllocator, SlabId};
use crate::space_map::extent_bytes;
use vstd::prelude::*;

verus! {

/// The extent is a block that is allocated and has not been freed.
pub open spec fn is_block_in_use(x: BlockAllocator, extent: Extent) -> bool {
    exists|id: SlabId| #[trigger] x.is_allocated_block(id, extent)
}

/// No two of the extents overlap.
pub open spec fn none_overlap(extents: Seq<Extent>) -> bool {
    forall|i: int, j: int|
        0 <= i < j < extents.len() ==> !(#[trigger] extents[i]).overlaps(#[trigger] extents[j])
}

/// The bytes of those extents that are blocks of a slab.
pub open spec fn block_bytes(slab: Slab, extents: Seq<Extent>) -> Set<int> {
    Set::new(
        |o: int|
            exists|i: int|
                0 <= i < extents.len() && slab.is_block(#[trigger] extents[i]) && extent_bytes(
                    extents[i],
                ).contains(o),
    )
}

/// Some of the extents are blocks of a slab.
pub open spec fn has_block(slab: Slab, extents: Seq<Extent>) -> bool {
    exists|i: int| 0 <= i < extents.len() && slab.is_block(#[trigger] extents[i])
}

/// The slab that a block is in.
pub open spec fn slab_of_block(x: BlockAllocator, extent: Extent) -> SlabId {
    choose|id: SlabId| #[trigger] x.is_allocated_block(id, extent)
}

/// The list of dirty slabs after blocks have been freed in turn.
pub open spec fn dirtied_by(x: BlockAllocator, extents: Seq<Extent>) -> Seq<SlabId>
    decreases extents.len(),
{
    if extents.len() == 0 {
        x.dirty_slabs@
    } else {
        let before = extents.drop_last();
        let id = slab_of_block(x, extents.last());
        let slab = x.slabs@[id.0 as int];
        dirtied(dirtied_by(x, before), slab.is_dirty || has_block(slab, before), id)
    }
}

/// The blocks have been freed: they cannot be allocated yet, but they will be free after a
/// flush. Nothing else has changed.
pub open spec fn freed_blocks(x: BlockAllocator, y: BlockAllocator, extents: Seq<Extent>) -> bool {
    &&& y == (BlockAllocator {
        slabs: y.slabs,
        dirty_slabs: y.dirty_slabs,
        per_disk_stats: y.per_disk_stats,
        ..x
    })
    &&& forall|k: int|
        #![trigger x.slabs@.contains_key(k)]
        #![trigger y.slabs@.contains_key(k)]
        x.slabs@.contains_key(k) <==> y.slabs@.contains_key(k)
    &&& y.dirty_slabs@ == dirtied_by(x, extents)
    &&& forall|k: int| #[trigger]
        x.slabs@.contains_key(k) ==> {
            let a = x.slabs@[k];
            let b = y.slabs@[k];
            &&& b.same_slab(&a)
            &&& b.is_dirty == (a.is_dirty || has_block(a, extents))
            &&& b.free_bytes() == a.free_bytes()
            &&& b.allocating_bytes() == a.allocating_bytes()
            &&& b.freeing_bytes() == a.freeing_bytes().union(block_bytes(a, extents))
        }
}

/// A block is a block of one slab only.
proof fn lemma_one_slab(x: BlockAllocator, sa: SlabAllocator, e: Extent, i: int, j: int)
    requires
        x.wf(sa),
        x.slabs@.contains_key(i),
        x.slabs@.contains_key(j),
        x.slabs@[i].is_block(e),
        x.slabs@[j].is_block(e),
    ensures
        i == j,
{
    reveal(BlockAllocator::owned_ok);
    assert(slab_ok(sa.access, x.slabs@[i], i));
    assert(slab_ok(sa.access, x.slabs@[j], j));
    let a = SlabId(i as u64);
    let b = SlabId(j as u64);
    sa.access.lemma_slab_extent(sa.access.holder(a), a);
    sa.access.lemma_slab_extent(sa.access.holder(b), b);
    x.slabs@[i].lemma_fits(sa.access.slab_extent(a), e);
    x.slabs@[j].lemma_fits(sa.access.slab_extent(b), e);
    x.slabs@[i].lemma_block_disk(e);
    sa.access.law_slab_of_extent_unique(a, b, e);
}

/// A block that does not overlap those that have been freed is still in use.
proof fn lemma_still_in_use(
    x: BlockAllocator,
    y: BlockAllocator,
    extents: Seq<Extent>,
    e: Extent,
)
    requires
        freed_blocks(x, y, extents),
        is_block_in_use(x, e),
        forall|i: int| 0 <= i < extents.len() ==> !(#[trigger] extents[i]).overlaps(e),
    ensures
        is_block_in_use(y, e),
{
    let id = choose|id: SlabId| #[trigger] x.is_allocated_block(id, e);
    let k = id.0 as int;
    let a = x.slabs@[k];
    let b = y.slabs@[k];
    assert(x.slabs@.contains_key(k));
    a.lemma_block_disk(e);
    assert forall|o: int| extent_bytes(e).contains(o) implies !b.freeing_bytes().contains(o) by {
        if block_bytes(a, extents).contains(o) {
            let i = choose|i: int|
                0 <= i < extents.len() && a.is_block(#[trigger] extents[i]) && extent_bytes(
                    extents[i],
                ).contains(o);
            a.lemma_block_disk(extents[i]);
            assert(extents[i].overlaps(e));
        }
    }
    assert(extent_bytes(e).disjoint(b.freeing_bytes()));
    assert(b.is_block(e));
    assert(y.is_allocated_block(id, e));
}

/// One more block has been freed.
proof fn lemma_freed_more(
    x: BlockAllocator,
    y: BlockAllocator,
    z: BlockAllocator,
    sa: SlabAllocator,
    extents: Seq<Extent>,
    e: Extent,
)
    requires
        y.wf(sa),
        freed_blocks(x, y, extents),
        freed_block(y, z, e),
        is_block_in_use(x, e),
    ensures
        freed_blocks(x, z, extents.push(e)),
{
    let more = extents.push(e);
    let id = choose|id: SlabId|
        {
            let i = id.0 as int;
            &&& #[trigger] y.is_allocated_block(id, e)
            &&& z.slabs@ == y.slabs@.insert(i, z.slabs@[i])
            &&& z.slabs@[i].same_slab(&y.slabs@[i])
            &&& z.slabs@[i].is_dirty
            &&& z.dirty_slabs@ == dirtied(y.dirty_slabs@, y.slabs@[i].is_dirty, id)
            &&& z.slabs@[i].free_bytes() == y.slabs@[i].free_bytes()
            &&& z.slabs@[i].allocating_bytes() == y.slabs@[i].allocating_bytes()
            &&& z.slabs@[i].freeing_bytes() == y.slabs@[i].freeing_bytes().union(extent_bytes(e))
        };
    let at = id.0 as int;
    assert(y.slabs@.contains_key(at));
    assert(more.drop_last() =~= extents);
    let home = slab_of_block(x, e);
    assert(x.is_allocated_block(home, e));
    assert(x.slabs@.contains_key(home.0 as int));
    assert(y.slabs@.contains_key(home.0 as int));
    assert(y.slabs@[home.0 as int].is_block(e));
    lemma_one_slab(y, sa, e, home.0 as int, at);
    assert(x.slabs@.contains_key(at));
    assert(z.dirty_slabs@ == dirtied_by(x, more));
    assert forall|k: int| #[trigger] x.slabs@.contains_key(k) implies {
        let a = x.slabs@[k];
        let b = z.slabs@[k];
        &&& b.same_slab(&a)
        &&& b.is_dirty == (a.is_dirty || has_block(a, more))
        &&& b.free_bytes() == a.free_bytes()
        &&& b.allocating_bytes() == a.allocating_bytes()
        &&& b.freeing_bytes() == a.freeing_bytes().union(block_bytes(a, more))
    } by {
        let a = x.slabs@[k];
        let m = y.slabs@[k];
        let b = z.slabs@[k];
        assert(y.slabs@.contains_key(k));
        assert(m.same_slab(&a));
        assert(a.is_block(e) == m.is_block(e));
        if k != at && m.is_block(e) {
            lemma_one_slab(y, sa, e, k, at);
        }
        if has_block(a, extents) {
            let i = choose|i: int| 0 <= i < extents.len() && a.is_block(#[trigger] extents[i]);
            assert(a.is_block(more[i]));
        }
        if has_block(a, more) {
            let i = choose|i: int| 0 <= i < more.len() && a.is_block(#[trigger] more[i]);
            if i < extents.len() {
                assert(a.is_block(extents[i]));
            }
        }
        if k == at {
            assert(a.is_block(more[extents.len() as int]));
        }
        let p = block_bytes(a, extents);
        let q = block_bytes(a, more);
        assert forall|o: int| #[trigger] q.contains(o) <==> p.contains(o) || (k == at
            && extent_bytes(e).contains(o)) by {
            if block_bytes(a, more).contains(o) {
                let i = choose|i: int|
                    0 <= i < more.len() && a.is_block(#[trigger] more[i]) && extent_bytes(
                        more[i],
                    ).contains(o);
                if i < extents.len() {
                    assert(extents[i] == more[i]);
                }
            }
            if block_bytes(a, extents).contains(o) {
                let i = choose|i: int|
                    0 <= i < extents.len() && a.is_block(#[trigger] extents[i]) && extent_bytes(
                        extents[i],
                    ).contains(o);
                assert(more[i] == extents[i]);
            }
            if k == at && extent_bytes(e).contains(o) {
                assert(more[extents.len() as int] == e);
            }
        }
        if k == at {
            assert(q =~= p.union(extent_bytes(e)));
            assert(b.freeing_bytes() == m.freeing_bytes().union(extent_bytes(e)));
        } else {
            assert(q =~= p);
            assert(b == m);
        }
        assert(m.freeing_bytes() == a.freeing_bytes().union(p));
        assert(b.freeing_bytes() =~= a.freeing_bytes().union(q));
    }
    assert forall|k: int| x.slabs@.contains_key(k) <==> #[trigger] z.slabs@.contains_key(k) by {
        assert(x.slabs@.contains_key(k) <==> y.slabs@.contains_key(k));
    }
}

impl BlockAllocator {
    /// Frees blocks. They can be allocated again after the next flush.
    pub fn free_blocks(&mut self, sa: &SlabAllocator, extents: &Vec<Extent>)
        requires
            old(self).wf(*sa),
            none_overlap(extents@),
            forall|i: int|
                0 <= i < extents@.len() ==> is_block_in_use(*old(self), #[trigger] extents@[i]),
        ensures
            final(self).wf(*sa),
            old(self).exact() ==> final(self).exact(),
            old(self).ready(*sa) ==> final(self).ready(*sa),
            forall|x: int| #[trigger] final(self).is_blocked(x) == old(self).is_blocked(x),
            freed_blocks(*old(self), *final(self), extents@),
    {
        let ghost a = *self;
        let mut i: usize = 0;
        proof {
            assert forall|k: int| #[trigger] a.slabs@.contains_key(k) implies a.slabs@[
                k
            ].freeing_bytes() == a.slabs@[k].freeing_bytes().union(
                block_bytes(a.slabs@[k], extents@.take(0)),
            ) by {
                assert(block_bytes(a.slabs@[k], extents@.take(0)) =~= Set::<int>::empty());
                assert(a.slabs@[k].freeing_bytes() =~= a.slabs@[k].freeing_bytes().union(
                    block_bytes(a.slabs@[k], extents@.take(0)),
                ));
            }
        }
        while i < extents.len()
            invariant
                i <= extents@.len(),
                a.wf(*sa),
                self.wf(*sa),
                none_overlap(extents@),
                forall|k: int|
                    0 <= k < extents@.len() ==> is_block_in_use(a, #[trigger] extents@[k]),
                a.exact() ==> self.exact(),
                a.ready(*sa) ==> self.ready(*sa),
                forall|x: int| #[trigger] self.is_blocked(x) == a.is_blocked(x),
                freed_blocks(a, *self, extents@.take(i as int)),
            decreases extents@.len() - i,
        {
            let ghost before = *self;
            let ghost done = extents@.take(i as int);
            let extent = extents[i];
            proof {
                assert forall|k: int| 0 <= k < done.len() implies !(
                #[trigger] done[k]).overlaps(extent) by {
                    assert(!extents@[k].overlaps(extents@[i as int]));
                }
                assert(is_block_in_use(a, extents@[i as int]));
                lemma_still_in_use(a, before, done, extent);
            }
            self.free(sa, extent);
            proof {
                lemma_freed_more(a, before, *self, *sa, done, extent);
                assert(extents@.take(i + 1) =~= done.push(extent));
            }
            i += 1;
        }
        assert(extents@.take(i as int) =~= extents@);
    }
}

/// Each block of a list that is freed waits for the next flush, and nothing else does that did
/// not before. What is free, and what was allocated since, stays.
pub proof fn law_freed_blocks_wait(
    x: BlockAllocator,
    y: BlockAllocator,
    extents: Seq<Extent>,
    id: SlabId,
    i: int,
    o: int,
)
    requires
        freed_blocks(x, y, extents),
        x.slabs@.contains_key(id.0 as int),
    ensures
        y.slabs@.contains_key(id.0 as int),
        0 <= i < extents.len() && x.is_allocated_block(id, extents[i]) && extents[i].start() <= o
            && o < extents[i].end() ==> y.slabs@[id.0 as int].freeing_bytes().contains(o)
            && y.slabs@[id.0 as int].is_dirty,
        y.slabs@[id.0 as int].freeing_bytes().contains(o) ==> x.slabs@[id.0 as int].freeing_bytes()
            .contains(o) || exists|k: int|
            0 <= k < extents.len() && (#[trigger] extents[k]).start() <= o && o < extents[k].end(),
        y.slabs@[id.0 as int].free_bytes() == x.slabs@[id.0 as int].free_bytes(),
        y.slabs@[id.0 as int].allocating_bytes() == x.slabs@[id.0 as int].allocating_bytes(),
{
    let a = x.slabs@[id.0 as int];
    let b = y.slabs@[id.0 as int];
    if 0 <= i < extents.len() && x.is_allocated_block(id, extents[i]) && extents[i].start() <= o
        && o < extents[i].end() {
        assert(a.is_block(extents[i]) && extent_bytes(extents[i]).contains(o));
        assert(block_bytes(a, extents).contains(o));
    }
    if b.freeing_bytes().contains(o) && !a.freeing_bytes().contains(o) {
        assert(block_bytes(a, extents).contains(o));
        let k = choose|k: int|
            0 <= k < extents.len() && a.is_block(#[trigger] extents[k]) && extent_bytes(
                extents[k],
            ).contains(o);
        assert(extents[k].start() <= o && o < extents[k].end());
    }
}

} // verus!
