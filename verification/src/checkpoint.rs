//! Checkpoints: the persistent state of the cache at one moment.
use crate::base_types::{Atime, Extent};
use crate::block_access::rounded_up;
use crate::block_allocator::buckets::default_buckets;
use crate::block_allocator::builder::aligned_buckets;
use crate::block_allocator::flush::BlockAllocatorPhys;
use crate::block_based_log::{distinct_slabs, BlockBasedLogPhys};
use crate::index::run::IndexRunPhys;
use crate::merge::{OperationLogEntry, RebalanceLogEntry};
use crate::pool_id::PoolGuidMappingPhys;
use crate::size_histogram::SizeHistogramPhys;
use crate::slab_allocator::{
    SlabAccess, SlabAllocator, SlabAllocatorBuilder, SlabAllocatorPhys, SlabId,
};
use vstd::prelude::*;

verus! {

#[derive(Debug, Clone, Copy, PartialEq, Eq, Structural, PartialOrd, Ord)]
pub struct CheckpointId(pub u64);

impl CheckpointId {
    pub fn next(&self) -> (r: CheckpointId)
        requires
            self.0 < u64::MAX,
        ensures
            r.0 == self.0 + 1,
    {
        CheckpointId(self.0 + 1)
    }
}

impl Default for CheckpointId {
    fn default() -> (r: CheckpointId)
        ensures
            r.0 == 0,
    {
        CheckpointId(0)
    }
}

/// How far a merge has got.
pub struct MergeProgressPhys {
    /// Where blocks have been moved to, if some are.
    pub rebalance_log: Option<BlockBasedLogPhys<RebalanceLogEntry>>,
    /// The changes that are merged.
    pub operation_log: BlockBasedLogPhys<OperationLogEntry>,
    pub new_index: IndexRunPhys,
}

/// The persistent state of the cache.
pub struct CheckpointPhys {
    pub id: CheckpointId,
    pub pool_guids: PoolGuidMappingPhys,
    pub block_allocator: BlockAllocatorPhys,
    pub slab_allocator: SlabAllocatorPhys,
    pub last_atime: Atime,
    pub old_index: IndexRunPhys,
    pub operation_log: BlockBasedLogPhys<OperationLogEntry>,
    pub size_histogram: SizeHistogramPhys,
    pub merge_progress: Option<MergeProgressPhys>,
}

/// What is needed to claim the slabs of one part of a list and then those of the rest.
proof fn lemma_split(a: Seq<SlabId>, b: Seq<SlabId>)
    requires
        distinct_slabs(a + b),
    ensures
        distinct_slabs(a),
        distinct_slabs(b),
        forall|i: int| 0 <= i < a.len() ==> !b.contains(#[trigger] a[i]),
        forall|i: int| 0 <= i < b.len() ==> !a.contains(#[trigger] b[i]),
        forall|s: SlabId| #[trigger] (a + b).contains(s) <==> a.contains(s) || b.contains(s),
{
    let c = a + b;
    assert forall|i: int, j: int| 0 <= i < j < a.len() implies a[i] != a[j] by {
        assert(c[i] == a[i] && c[j] == a[j]);
    }
    assert forall|i: int, j: int| 0 <= i < j < b.len() implies b[i] != b[j] by {
        assert(c[a.len() + i] == b[i] && c[a.len() + j] == b[j]);
    }
    assert forall|s: SlabId| #[trigger] c.contains(s) <==> a.contains(s) || b.contains(s) by {
        if a.contains(s) {
            let i = choose|i: int| 0 <= i < a.len() && a[i] == s;
            assert(c[i] == s);
        }
        if b.contains(s) {
            let i = choose|i: int| 0 <= i < b.len() && b[i] == s;
            assert(c[a.len() + i] == s);
        }
        if c.contains(s) {
            let i = choose|i: int| 0 <= i < c.len() && c[i] == s;
            if i < a.len() {
                assert(a[i] == s);
            } else {
                assert(b[i - a.len()] == s);
            }
        }
    }
    assert forall|s: SlabId| !(a.contains(s) && b.contains(s)) by {
        if a.contains(s) && b.contains(s) {
            let i = choose|i: int| 0 <= i < a.len() && a[i] == s;
            let j = choose|j: int| 0 <= j < b.len() && b[j] == s;
            assert(c[i] == c[a.len() + j]);
        }
    }
}

/// All slabs of a list can be claimed.
pub open spec fn claimable(builder: SlabAllocatorBuilder, slabs: Seq<SlabId>) -> bool {
    &&& builder.wf()
    &&& distinct_slabs(slabs)
    &&& forall|i: int| 0 <= i < slabs.len() ==> builder.unclaimed(#[trigger] slabs[i])
}

/// What was claimed are the slabs of a list.
pub open spec fn claimed(
    a: SlabAllocatorBuilder,
    b: SlabAllocatorBuilder,
    slabs: Seq<SlabId>,
) -> bool {
    &&& b.wf()
    &&& b.access == a.access
    &&& forall|s: SlabId| #[trigger] b.unclaimed(s) <==> a.unclaimed(s) && !slabs.contains(s)
}

proof fn lemma_claim_first(builder: SlabAllocatorBuilder, a: Seq<SlabId>, b: Seq<SlabId>)
    requires
        claimable(builder, a + b),
    ensures
        claimable(builder, a),
{
    lemma_split(a, b);
    assert forall|i: int| 0 <= i < a.len() implies builder.unclaimed(#[trigger] a[i]) by {
        assert((a + b)[i] == a[i]);
    }
}

proof fn lemma_claim_rest(
    x: SlabAllocatorBuilder,
    y: SlabAllocatorBuilder,
    a: Seq<SlabId>,
    b: Seq<SlabId>,
)
    requires
        claimable(x, a + b),
        claimed(x, y, a),
    ensures
        claimable(y, b),
{
    lemma_split(a, b);
    assert forall|i: int| 0 <= i < b.len() implies y.unclaimed(#[trigger] b[i]) by {
        assert((a + b)[a.len() + i] == b[i]);
        assert(!a.contains(b[i]));
    }
}

proof fn lemma_claimed_both(
    x: SlabAllocatorBuilder,
    y: SlabAllocatorBuilder,
    z: SlabAllocatorBuilder,
    a: Seq<SlabId>,
    b: Seq<SlabId>,
)
    requires
        claimable(x, a + b),
        claimed(x, y, a),
        claimed(y, z, b),
    ensures
        claimed(x, z, a + b),
{
    lemma_split(a, b);
    assert forall|s: SlabId| #[trigger] z.unclaimed(s) <==> x.unclaimed(s) && !(a + b).contains(
        s,
    ) by {
        assert(y.unclaimed(s) <==> x.unclaimed(s) && !a.contains(s));
    }
}

impl MergeProgressPhys {
    /// The slabs of a merge.
    pub open spec fn all_slabs(&self) -> Seq<SlabId> {
        self.operation_log.slabs@ + (self.new_index.log.all_slabs() + match self.rebalance_log {
            Some(log) => log.slabs@,
            None => Seq::empty(),
        })
    }

    /// Marks the slabs of the merge as used.
    pub fn claim(&self, builder: &mut SlabAllocatorBuilder)
        requires
            claimable(*old(builder), self.all_slabs()),
        ensures
            claimed(*old(builder), *final(builder), self.all_slabs()),
    {
        let ghost x = *builder;
        let ghost a = self.operation_log.slabs@;
        let ghost b = self.new_index.log.all_slabs();
        let ghost c = match &self.rebalance_log {
            Some(log) => log.slabs@,
            None => Seq::empty(),
        };
        proof {
            lemma_claim_first(x, a, b + c);
        }
        self.operation_log.claim(builder);
        let ghost y = *builder;
        proof {
            lemma_claim_rest(x, y, a, b + c);
            lemma_claim_first(y, b, c);
        }
        self.new_index.claim(builder);
        let ghost z = *builder;
        proof {
            lemma_claim_rest(y, z, b, c);
        }
        if let Some(log) = &self.rebalance_log {
            log.claim(builder);
        }
        proof {
            lemma_claimed_both(y, z, *builder, b, c);
            lemma_claimed_both(x, y, *builder, a, b + c);
        }
    }
}

/// The part of a chunk that goes to the `i`-th slab.
pub open spec fn piece_len(len: int, slab_size: int, i: int) -> int {
    if len - i * slab_size < slab_size {
        len - i * slab_size
    } else {
        slab_size
    }
}

/// How many slabs a chunk takes.
pub open spec fn pieces(len: int, slab_size: int) -> int {
    (len + slab_size - 1) / slab_size
}

/// The bytes that go to the `i`-th slab.
pub open spec fn piece_of(raw: Seq<u8>, slab_size: int, i: int) -> Seq<u8> {
    raw.subrange(i * slab_size, i * slab_size + piece_len(raw.len() as int, slab_size, i))
}

/// The first `n` pieces, one behind the other.
pub open spec fn joined(raw: Seq<u8>, slab_size: int, n: int) -> Seq<u8>
    decreases n,
{
    if n <= 0 {
        Seq::empty()
    } else {
        joined(raw, slab_size, n - 1) + piece_of(raw, slab_size, n - 1)
    }
}

proof fn lemma_pieces(len: int, slab_size: int, i: int)
    requires
        0 <= len,
        0 < slab_size,
        0 <= i,
    ensures
        i < pieces(len, slab_size) <==> i * slab_size < len,
{
    let n = pieces(len, slab_size);
    vstd::arithmetic::div_mod::lemma_fundamental_div_mod(len + slab_size - 1, slab_size);
    let rest = (len + slab_size - 1) % slab_size;
    assert(slab_size * n == n * slab_size) by (nonlinear_arith);
    if i < n {
        assert(i * slab_size <= (n - 1) * slab_size) by (nonlinear_arith)
            requires
                i <= n - 1,
                slab_size > 0,
        ;
        assert((n - 1) * slab_size == n * slab_size - slab_size) by (nonlinear_arith);
    } else {
        assert(i * slab_size >= n * slab_size) by (nonlinear_arith)
            requires
                i >= n,
                slab_size > 0,
        ;
    }
}

/// What is read back from the slabs of a checkpoint, one after the other, is what was written.
pub proof fn law_pieces_joined(raw: Seq<u8>, slab_size: int)
    requires
        slab_size > 0,
    ensures
        joined(raw, slab_size, pieces(raw.len() as int, slab_size)) == raw,
{
    let len = raw.len() as int;
    let n = pieces(len, slab_size);
    lemma_pieces(len, slab_size, 0);
    assert(n >= 0) by {
        vstd::arithmetic::div_mod::lemma_div_pos_is_pos(len + slab_size - 1, slab_size);
    }
    lemma_joined(raw, slab_size, n);
    if n > 0 {
        lemma_pieces(len, slab_size, n);
        assert(raw.take(len) =~= raw);
    } else {
        assert(raw =~= Seq::<u8>::empty());
    }
}

proof fn lemma_joined(raw: Seq<u8>, slab_size: int, n: int)
    requires
        slab_size > 0,
        0 <= n <= pieces(raw.len() as int, slab_size),
    ensures
        joined(raw, slab_size, n) == raw.take(
            if n * slab_size < raw.len() {
                n * slab_size
            } else {
                raw.len() as int
            },
        ),
    decreases n,
{
    let len = raw.len() as int;
    if n > 0 {
        lemma_joined(raw, slab_size, n - 1);
        lemma_pieces(len, slab_size, n - 1);
        assert((n - 1) * slab_size + slab_size == n * slab_size) by (nonlinear_arith);
        assert(0 <= (n - 1) * slab_size) by (nonlinear_arith)
            requires
                n >= 1,
                slab_size > 0,
        ;
        let end = if n * slab_size < len {
            n * slab_size
        } else {
            len
        };
        assert(joined(raw, slab_size, n) =~= raw.take(end));
    } else {
        assert(0 * slab_size == 0);
        assert(raw.take(0) =~= Seq::<u8>::empty());
    }
}

/// Where a chunk goes: the slabs are the last ones that can be allocated, and all but the last
/// of them are filled.
pub open spec fn placed_in(
    a: SlabAllocator,
    b: SlabAllocator,
    len: int,
    extents: Seq<Extent>,
) -> bool {
    let z = a.access.slab_size as int;
    let n = pieces(len, z);
    &&& extents.len() == n
    &&& b.allocatable@ == a.allocatable@.take(a.allocatable@.len() - n)
    &&& forall|i: int|
        0 <= i < n ==> {
            let slab = a.access.slab_extent(a.allocatable@[a.allocatable@.len() - 1 - i]);
            &&& (#[trigger] extents[i]).wf()
            &&& extents[i].disk_no() == slab.disk_no()
            &&& extents[i].start() == slab.start()
            &&& extents[i].size == piece_len(len, z, i)
        }
}

/// The extent lies in the slab.
pub open spec fn is_slab_of(access: SlabAccess, extent: Extent, id: SlabId) -> bool {
    access.valid(id) && access.slab_extent(id).spec_contains(extent)
}

/// One of the extents lies in the slab.
pub open spec fn has_extent_of(access: SlabAccess, extents: Seq<Extent>, id: SlabId) -> bool {
    exists|i: int| 0 <= i < extents.len() && #[trigger] is_slab_of(access, extents[i], id)
}

/// The extents lie in slabs that are held, each in one of its own.
pub open spec fn held_extents(a: SlabAllocator, extents: Seq<Extent>) -> bool {
    &&& forall|i: int|
        0 <= i < extents.len() ==> {
            &&& (#[trigger] extents[i]).wf()
            &&& extents[i].size > 0
            &&& exists|id: SlabId| #[trigger] is_slab_of(a.access, extents[i], id)
        }
    &&& forall|i: int, id: SlabId|
        0 <= i < extents.len() && #[trigger] is_slab_of(a.access, extents[i], id) ==> a.allocated(
            id,
        )
    &&& forall|i: int, j: int, id: SlabId|
        0 <= i < j < extents.len() && #[trigger] is_slab_of(a.access, extents[i], id)
            ==> !#[trigger] is_slab_of(a.access, extents[j], id)
}

/// One more slab is allocated, and an extent of it is held too.
proof fn lemma_held_more(
    a: SlabAllocator,
    b: SlabAllocator,
    held: Seq<Extent>,
    extent: Extent,
    id: SlabId,
)
    requires
        a.wf(),
        b.wf(),
        b.access == a.access,
        held_extents(a, held),
        a.places(id) == 1,
        b.allocated(id),
        forall|s: SlabId| s != id ==> #[trigger] b.places(s) == a.places(s),
        extent.wf(),
        extent.size > 0,
        b.access.slab_extent(id).spec_contains(extent),
    ensures
        held_extents(b, held.push(extent)),
{
    let more = held.push(extent);
    let n = held.len() as int;
    assert(more[n] == extent);
    assert(is_slab_of(b.access, more[n], id));
    assert forall|s: SlabId| #[trigger] is_slab_of(b.access, more[n], s) implies s == id by {
        b.access.law_slab_of_extent_unique(s, id, extent);
    }
    assert forall|i: int, s: SlabId|
        0 <= i < n && #[trigger] is_slab_of(b.access, more[i], s) implies s != id && b.allocated(
        s,
    ) by {
        assert(is_slab_of(a.access, held[i], s));
        assert(a.allocated(s));
        assert(s != id);
        assert(b.places(s) == a.places(s));
    }
    assert forall|i: int| 0 <= i < more.len() implies {
        &&& (#[trigger] more[i]).wf()
        &&& more[i].size > 0
        &&& exists|s: SlabId| #[trigger] is_slab_of(b.access, more[i], s)
    } by {
        if i < n {
            assert(more[i] == held[i]);
            let s = choose|s: SlabId| #[trigger] is_slab_of(a.access, held[i], s);
            assert(is_slab_of(b.access, more[i], s));
        }
    }
    assert forall|i: int, j: int, s: SlabId|
        0 <= i < j < more.len() && #[trigger] is_slab_of(b.access, more[i], s) implies
        !#[trigger] is_slab_of(b.access, more[j], s) by {
        if j < n {
            assert(is_slab_of(a.access, held[i], s));
            assert(!is_slab_of(a.access, held[j], s));
        }
    }
}

impl CheckpointPhys {
    /// The first checkpoint of a new cache: there are no blocks.
    pub fn new(
        slab_allocator: SlabAllocatorPhys,
        sector_size: u32,
        size_histogram: SizeHistogramPhys,
    ) -> (r: CheckpointPhys)
        requires
            sector_size > 0,
            rounded_up(33554432, sector_size as int) <= 33554432,
        ensures
            r.id.0 == 0,
            r.pool_guids.0@.len() == 0,
            r.block_allocator.spacemap.log.is_new(),
            r.block_allocator.spacemap.alloc_entries == 0,
            r.block_allocator.spacemap_next.log.is_new(),
            r.block_allocator.spacemap_next.alloc_entries == 0,
            r.block_allocator.next_slab_to_condense.0 == 0,
            r.block_allocator.segments_at_last_merge == 0,
            r.block_allocator.slab_buckets.buckets@ == aligned_buckets(
                default_buckets(),
                sector_size as int,
            ),
            r.slab_allocator == slab_allocator,
            r.last_atime.0 == 0,
            r.old_index.trim_key is None,
            r.old_index.last_key is None,
            r.old_index.log.is_new(),
            r.old_index.atime_histogram_phys.histogram@.len() == 0,
            r.old_index.atime_histogram_phys.first_ghost.0 == 0,
            r.old_index.atime_histogram_phys.first_live.0 == 0,
            r.operation_log.is_new(),
            r.size_histogram == size_histogram,
            r.merge_progress is None,
            r.all_slabs().len() == 0,
    {
        CheckpointPhys {
            id: CheckpointId(0),
            pool_guids: PoolGuidMappingPhys(Vec::new()),
            block_allocator: BlockAllocatorPhys::new(sector_size),
            slab_allocator,
            last_atime: Atime(0),
            old_index: IndexRunPhys::new(Atime(0), Atime(0)),
            operation_log: BlockBasedLogPhys::new(),
            size_histogram,
            merge_progress: None,
        }
    }

    /// Allocates the slabs for an encoded checkpoint of `len` bytes, and says where each part
    /// of it goes.
    pub fn write(len: u64, slab_allocator: &mut SlabAllocator, super_reserved: u64) -> (r: Vec<
        Extent,
    >)
        requires
            old(slab_allocator).wf(),
            old(slab_allocator).allocatable@.len() >= super_reserved + pieces(
                len as int,
                old(slab_allocator).access.slab_size as int,
            ),
        ensures
            final(slab_allocator).wf(),
            final(slab_allocator).access == old(slab_allocator).access,
            final(slab_allocator).freeing == old(slab_allocator).freeing,
            final(slab_allocator).noalloc_state == old(slab_allocator).noalloc_state,
            final(slab_allocator).noallocing == old(slab_allocator).noallocing,
            final(slab_allocator).reserved_slabs == old(slab_allocator).reserved_slabs,
            old(slab_allocator).separate() ==> final(slab_allocator).separate(),
            held_extents(*final(slab_allocator), r@),
            placed_in(*old(slab_allocator), *final(slab_allocator), len as int, r@),
    {
        let ghost a = *slab_allocator;
        let z = slab_allocator.slab_size();
        let ghost n = pieces(len as int, z as int);
        let mut r: Vec<Extent> = Vec::new();
        let mut done: u64 = 0;
        proof {
            assert(z > 0);
            lemma_pieces(len as int, z as int, 0);
            assert(0 * z == 0);
            assert(n >= 0) by {
                vstd::arithmetic::div_mod::lemma_div_pos_is_pos(len + z - 1, z as int);
            }
            assert(a.allocatable@.take(a.allocatable@.len() - 0) =~= a.allocatable@);
        }
        while done < len
            invariant
                z > 0,
                z == a.access.slab_size,
                n == pieces(len as int, z as int),
                n >= 0,
                a.wf(),
                a.allocatable@.len() >= super_reserved + n,
                slab_allocator.wf(),
                slab_allocator.access == a.access,
                slab_allocator.freeing == a.freeing,
                slab_allocator.noalloc_state == a.noalloc_state,
                slab_allocator.noallocing == a.noallocing,
                slab_allocator.reserved_slabs == a.reserved_slabs,
                a.separate() ==> slab_allocator.separate(),
                held_extents(*slab_allocator, r@),
                r@.len() <= n,
                done == if r@.len() * z < len {
                    r@.len() * z
                } else {
                    len as int
                },
                done < len <==> r@.len() < n,
                slab_allocator.allocatable@ == a.allocatable@.take(
                    a.allocatable@.len() - r@.len(),
                ),
                forall|i: int|
                    0 <= i < r@.len() ==> {
                        let slab = a.access.slab_extent(
                            a.allocatable@[a.allocatable@.len() - 1 - i],
                        );
                        &&& (#[trigger] r@[i]).wf()
                        &&& r@[i].disk_no() == slab.disk_no()
                        &&& r@[i].start() == slab.start()
                        &&& r@[i].size == piece_len(len as int, z as int, i)
                    },
            decreases len - done,
        {
            let ghost i = r@.len() as int;
            let part: u64 = if len - done < z {
                len - done
            } else {
                z
            };
            let ghost before = *slab_allocator;
            let ghost held = r@;
            let id = slab_allocator.allocate_reserved(super_reserved);
            proof {
                assert(id == a.allocatable@[a.allocatable@.len() - 1 - i]);
                assert(slab_allocator.allocatable@ =~= a.allocatable@.take(
                    a.allocatable@.len() - (i + 1),
                ));
                assert(part == piece_len(len as int, z as int, i));
                assert((i + 1) * z == i * z + z) by (nonlinear_arith);
                lemma_pieces(len as int, z as int, i + 1);
            }
            let slab = slab_allocator.slab_id_to_extent(id);
            r.push(slab.range(0, part));
            proof {
                lemma_held_more(before, *slab_allocator, held, r@[i], id);
                assert(r@ =~= held.push(r@[i]));
            }
            done = done + part;
        }
        r
    }

    /// Frees the slabs of a checkpoint that has been replaced. These and what has been freed
    /// since the replaced checkpoint can be allocated from now on.
    pub fn release(extents: &Vec<Extent>, slab_allocator: &mut SlabAllocator)
        requires
            old(slab_allocator).wf(),
            held_extents(*old(slab_allocator), extents@),
        ensures
            final(slab_allocator).wf(),
            final(slab_allocator).access == old(slab_allocator).access,
            final(slab_allocator).reserved_slabs == old(slab_allocator).reserved_slabs,
            old(slab_allocator).separate() ==> final(slab_allocator).separate(),
            final(slab_allocator).freeing@.len() == 0,
            final(slab_allocator).noallocing@.len() == 0,
            final(slab_allocator).noalloc_state@.dom() == old(slab_allocator).noalloc_state@.dom(),
            forall|s: SlabId|
                #[trigger] final(slab_allocator).places(s) == old(slab_allocator).places(s)
                    + if has_extent_of(old(slab_allocator).access, extents@, s) {
                    1nat
                } else {
                    0nat
                },
    {
        let ghost a = *slab_allocator;
        let mut i: usize = 0;
        while i < extents.len()
            invariant
                i <= extents@.len(),
                a.wf(),
                held_extents(a, extents@),
                slab_allocator.wf(),
                slab_allocator.access == a.access,
                slab_allocator.reserved_slabs == a.reserved_slabs,
                slab_allocator.noalloc_state == a.noalloc_state,
                a.separate() ==> slab_allocator.separate(),
                forall|s: SlabId|
                    #[trigger] slab_allocator.places(s) == a.places(s) + if has_extent_of(
                        a.access,
                        extents@.take(i as int),
                        s,
                    ) {
                        1nat
                    } else {
                        0nat
                    },
            decreases extents@.len() - i,
        {
            let extent = extents[i];
            let ghost before = *slab_allocator;
            let ghost t0 = extents@.take(i as int);
            let ghost t1 = extents@.take(i + 1);
            proof {
                let id = choose|id: SlabId| #[trigger] is_slab_of(a.access, extents@[i as int], id);
                assert(a.access.valid(id) && a.access.slab_extent(id).spec_contains(extent));
            }
            let id = slab_allocator.extent_to_slab_id(extent);
            proof {
                assert(is_slab_of(a.access, extents@[i as int], id));
                assert(a.allocated(id));
                assert(!has_extent_of(a.access, t0, id)) by {
                    if has_extent_of(a.access, t0, id) {
                        let k = choose|k: int|
                            0 <= k < t0.len() && #[trigger] is_slab_of(a.access, t0[k], id);
                        assert(is_slab_of(a.access, extents@[k], id));
                    }
                }
                assert(slab_allocator.places(id) == 0);
            }
            slab_allocator.free(id);
            proof {
                assert forall|s: SlabId|
                    #[trigger] slab_allocator.places(s) == a.places(s) + if has_extent_of(
                        a.access,
                        t1,
                        s,
                    ) {
                        1nat
                    } else {
                        0nat
                    } by {
                    assert(before.places(s) == a.places(s) + if has_extent_of(a.access, t0, s) {
                        1nat
                    } else {
                        0nat
                    });
                    if has_extent_of(a.access, t0, s) {
                        let k = choose|k: int|
                            0 <= k < t0.len() && #[trigger] is_slab_of(a.access, t0[k], s);
                        assert(is_slab_of(a.access, t1[k], s));
                    }
                    if has_extent_of(a.access, t1, s) {
                        let k = choose|k: int|
                            0 <= k < t1.len() && #[trigger] is_slab_of(a.access, t1[k], s);
                        if k < i {
                            assert(is_slab_of(a.access, t0[k], s));
                        } else {
                            a.access.law_slab_of_extent_unique(s, id, extent);
                        }
                    }
                    assert(is_slab_of(a.access, t1[i as int], id));
                }
            }
            i += 1;
        }
        assert(extents@.take(i as int) =~= extents@);
        slab_allocator.release_frees();
    }

    /// The slabs of all that the checkpoint refers to.
    pub open spec fn all_slabs(&self) -> Seq<SlabId> {
        self.block_allocator.spacemap.log.slabs@ + (self.block_allocator.spacemap_next.log.slabs@
            + (self.old_index.log.all_slabs() + (self.operation_log.slabs@
            + match self.merge_progress {
            Some(progress) => progress.all_slabs(),
            None => Seq::empty(),
        })))
    }

    /// Marks the slabs of all that the checkpoint refers to as used.
    pub fn claim(&self, builder: &mut SlabAllocatorBuilder)
        requires
            claimable(*old(builder), self.all_slabs()),
        ensures
            claimed(*old(builder), *final(builder), self.all_slabs()),
    {
        let ghost b0 = *builder;
        let ghost s1 = self.block_allocator.spacemap.log.slabs@;
        let ghost s2 = self.block_allocator.spacemap_next.log.slabs@;
        let ghost s3 = self.old_index.log.all_slabs();
        let ghost s4 = self.operation_log.slabs@;
        let ghost s5 = match &self.merge_progress {
            Some(progress) => progress.all_slabs(),
            None => Seq::empty(),
        };
        let ghost r3 = s3 + (s4 + s5);
        proof {
            assert(s1 + (s2 + r3) =~= (s1 + s2) + r3);
            lemma_claim_first(b0, s1 + s2, r3);
            lemma_split(s1, s2);
            assert forall|i: int| 0 <= i < s1.len() implies b0.unclaimed(#[trigger] s1[i])
                && !s2.contains(s1[i]) by {
                assert((s1 + s2)[i] == s1[i]);
            }
            assert forall|i: int| 0 <= i < s2.len() implies b0.unclaimed(#[trigger] s2[i]) by {
                assert((s1 + s2)[s1.len() + i] == s2[i]);
            }
        }
        self.block_allocator.claim(builder);
        let ghost b1 = *builder;
        proof {
            assert forall|s: SlabId| #[trigger] b1.unclaimed(s) <==> b0.unclaimed(s) && !(s1
                + s2).contains(s) by {
                assert((s1 + s2).contains(s) <==> s1.contains(s) || s2.contains(s));
            }
            assert(claimed(b0, b1, s1 + s2));
            lemma_claim_rest(b0, b1, s1 + s2, r3);
            lemma_claim_first(b1, s3, s4 + s5);
        }
        self.old_index.claim(builder);
        let ghost b2 = *builder;
        proof {
            lemma_claim_rest(b1, b2, s3, s4 + s5);
            lemma_claim_first(b2, s4, s5);
        }
        self.operation_log.claim(builder);
        let ghost b3 = *builder;
        proof {
            lemma_claim_rest(b2, b3, s4, s5);
        }
        if let Some(progress) = &self.merge_progress {
            progress.claim(builder);
        }
        proof {
            lemma_claimed_both(b2, b3, *builder, s4, s5);
            lemma_claimed_both(b1, b2, *builder, s3, s4 + s5);
            lemma_claimed_both(b0, b1, *builder, s1 + s2, r3);
        }
    }
}

/// What is cut into pieces of one slab each: all are as large as a slab but the last one, which
/// is what is left, and none is empty.
pub proof fn law_piece_len(len: int, slab_size: int, i: int)
    requires
        slab_size > 0,
        len >= 0,
        0 <= i < pieces(len, slab_size),
    ensures
        0 < piece_len(len, slab_size, i) <= slab_size,
        i < pieces(len, slab_size) - 1 ==> piece_len(len, slab_size, i) == slab_size,
        i == pieces(len, slab_size) - 1 ==> i * slab_size + piece_len(len, slab_size, i) == len,
{
    let n = pieces(len, slab_size);
    assert(n * slab_size <= len + slab_size - 1 < (n + 1) * slab_size) by (nonlinear_arith)
        requires
            slab_size > 0,
            n == (len + slab_size - 1) / slab_size,
    ;
    assert((i + 1) * slab_size <= n * slab_size) by (nonlinear_arith)
        requires
            slab_size > 0,
            i + 1 <= n,
    ;
    assert((n + 1) * slab_size == n * slab_size + slab_size) by (nonlinear_arith);
    assert((i + 1) * slab_size == i * slab_size + slab_size) by (nonlinear_arith);
    if i < n - 1 {
        assert((i + 2) * slab_size <= n * slab_size) by (nonlinear_arith)
            requires
                slab_size > 0,
                i + 2 <= n,
        ;
        assert((i + 2) * slab_size == i * slab_size + slab_size + slab_size) by (nonlinear_arith);
    }
}

proof fn lemma_contains_sum(a: Seq<SlabId>, b: Seq<SlabId>, id: SlabId)
    ensures
        (a + b).contains(id) <==> a.contains(id) || b.contains(id),
{
    if a.contains(id) {
        let i = choose|i: int| 0 <= i < a.len() && a[i] == id;
        assert((a + b)[i] == id);
    }
    if b.contains(id) {
        let i = choose|i: int| 0 <= i < b.len() && b[i] == id;
        assert((a + b)[a.len() + i] == id);
    }
    if (a + b).contains(id) {
        let i = choose|i: int| 0 <= i < (a + b).len() && (a + b)[i] == id;
        if i < a.len() {
            assert(a[i] == id);
        } else {
            assert(b[i - a.len()] == id);
        }
    }
}

/// The slabs of a checkpoint are those of each of its logs: of both space maps, of the index and
/// its summary, of the operations; and of a merge those of the operations, of the new index and
/// its summary, and of the moves.
pub proof fn law_slabs_of_all_logs(c: CheckpointPhys, id: SlabId)
    ensures
        c.all_slabs().contains(id) <==> {
            ||| c.block_allocator.spacemap.log.slabs@.contains(id)
            ||| c.block_allocator.spacemap_next.log.slabs@.contains(id)
            ||| c.old_index.log.this.slabs@.contains(id)
            ||| c.old_index.log.chunk_summary.slabs@.contains(id)
            ||| c.operation_log.slabs@.contains(id)
            ||| c.merge_progress is Some && {
                let p = c.merge_progress->0;
                ||| p.operation_log.slabs@.contains(id)
                ||| p.new_index.log.this.slabs@.contains(id)
                ||| p.new_index.log.chunk_summary.slabs@.contains(id)
                ||| p.rebalance_log is Some && p.rebalance_log->0.slabs@.contains(id)
            }
        },
{
    let merging = match c.merge_progress {
        Some(progress) => progress.all_slabs(),
        None => Seq::<SlabId>::empty(),
    };
    let operations = c.operation_log.slabs@ + merging;
    let index = c.old_index.log.all_slabs() + operations;
    let next = c.block_allocator.spacemap_next.log.slabs@ + index;
    assert(c.all_slabs() == c.block_allocator.spacemap.log.slabs@ + next);
    lemma_contains_sum(c.block_allocator.spacemap.log.slabs@, next, id);
    lemma_contains_sum(c.block_allocator.spacemap_next.log.slabs@, index, id);
    lemma_contains_sum(c.old_index.log.all_slabs(), operations, id);
    lemma_contains_sum(c.old_index.log.this.slabs@, c.old_index.log.chunk_summary.slabs@, id);
    lemma_contains_sum(c.operation_log.slabs@, merging, id);
    if let Some(p) = c.merge_progress {
        let moves = match p.rebalance_log {
            Some(log) => log.slabs@,
            None => Seq::<SlabId>::empty(),
        };
        lemma_contains_sum(p.operation_log.slabs@, p.new_index.log.all_slabs() + moves, id);
        lemma_contains_sum(p.new_index.log.all_slabs(), moves, id);
        lemma_contains_sum(p.new_index.log.this.slabs@, p.new_index.log.chunk_summary.slabs@, id);
    }
}

/// What is put into slabs is at the start of one slab each, taken from the end of those that can
/// be allocated. All pieces are as large as a slab but the last one, which is what is left.
pub proof fn law_placed_in(
    a: SlabAllocator,
    b: SlabAllocator,
    len: int,
    extents: Seq<Extent>,
    i: int,
)
    requires
        placed_in(a, b, len, extents),
        a.access.slab_size > 0,
        len >= 0,
        0 <= i < extents.len(),
        extents.len() <= a.allocatable@.len(),
    ensures
        ({
            let z = a.access.slab_size as int;
            let n = extents.len() as int;
            let id = a.allocatable@[a.allocatable@.len() - 1 - i];
            &&& extents[i].start() == a.access.slab_extent(id).start()
            &&& extents[i].disk_no() == a.access.slab_extent(id).disk_no()
            &&& i < n - 1 ==> extents[i].size == z
            &&& i == n - 1 ==> (n - 1) * z + extents[i].size == len
            &&& b.allocatable@.len() + n == a.allocatable@.len()
            &&& 0 < extents[i].size <= z
        }),
{
    law_piece_len(len, a.access.slab_size as int, i);
}

} // verus!
