//! What the block allocator does at a checkpoint.
use crate::base_types::{Extent, SECTOR};
use crate::block_allocator::buckets::{
    before, has_slab, one_each, SlabAllocationBuckets, SlabAllocationBucketsPhys, SlabBucket,
    SlabBucketEntry, SlabBucketSize,
};
use crate::block_allocator::invariants::{
    blocked, buckets_ok, dirty_ok, free_on, home, lemma_blocked_same, lemma_buckets_same,
    lemma_logs_append, lemma_same_kinds_insert, lemma_stats_change, lemma_stats_fit, log_ok,
    logs_ok, noalloc_exact, noalloc_ok, same_kind, sizes_ok, stats_ok, DiskStats,
};
use crate::block_allocator::rebalance::waits_for_flush;
use crate::block_allocator::slab::Slab;
use crate::block_allocator::slabs::{
    changes_of, entries_placed, entry_placed, ids_below, lemma_changes_of_one,
    lemma_mentions_append, lemma_record_append, lemma_record_changes, lemma_record_untouched,
    lemma_sum_slabs_bound, lemma_sum_slabs_change, mentions, record_after, record_of, slab_ok,
    slabs_ok, touches, SlabRecord, Slabs,
};
use crate::block_allocator::{logged, BlockAllocator};
use crate::block_based_log::{
    chunk_len, half, placed_chunk, BlockBasedLogPhys, ChunkPlacement, LogFlush,
};
use crate::slab_allocator::{lemma_times_contains, SlabAccess, SlabAllocator, SlabId};
use crate::space_map::{
    changed_extent, continued, extent_bytes, lemma_continued, lemma_continued_by_none,
    SpaceMapEntry, SpaceMapPhys,
};
use vstd::prelude::*;

verus! {

/// What condensing the slabs from `lo` on and below `hi` adds to the log.
pub open spec fn condensed_log(m: Map<int, Slab>, lo: int, hi: int) -> Seq<SpaceMapEntry>
    decreases hi - lo,
{
    if hi <= lo {
        Seq::empty()
    } else {
        condensed_log(m, lo, hi - 1) + if m.contains_key(hi - 1) {
            condensed_slab(m[hi - 1])
        } else {
            Seq::empty()
        }
    }
}

/// What condensing a slab adds to the log.
pub open spec fn condensed_slab(slab: Slab) -> Seq<SpaceMapEntry> {
    seq![SpaceMapEntry::SlabInfo(slab.id, slab.slab_type())] + slab.condense_entries()
}

/// The number of slabs from `lo` on and below `hi`.
pub open spec fn count_slabs(m: Map<int, Slab>, lo: int, hi: int) -> int
    decreases hi - lo,
{
    if hi <= lo {
        0
    } else {
        count_slabs(m, lo, hi - 1) + if m.contains_key(hi - 1) {
            1int
        } else {
            0int
        }
    }
}

/// Rebuilding a slab from its condensed entries, whatever was known of it before, gives what
/// has been recorded.
pub proof fn law_condensed_slab(access: SlabAccess, m: Map<int, Slab>, id: SlabId, r: SlabRecord)
    requires
        access.wf(),
        slabs_ok(access, m),
        m.contains_key(id.0 as int),
        !(r is Broken),
    ensures
        record_after(access, r, condensed_slab(m[id.0 as int]), id) == record_of(m, id.0 as int),
        forall|o: SlabId| o != id ==> !mentions(access, condensed_slab(m[id.0 as int]), o),
        entries_placed(access, condensed_slab(m[id.0 as int])),
{
    let slab = m[id.0 as int];
    assert(slab_ok(access, slab, id.0 as int));
    let ty = slab.slab_type();
    let info = SpaceMapEntry::SlabInfo(id, ty);
    let head = seq![info];
    let tail = slab.condense_entries();
    let extent = access.slab_extent(id);
    access.lemma_slab_extent(access.holder(id), id);
    slab.lemma_within(extent);
    slab.lemma_entries_fit();
    assert forall|i: int| 0 <= i < tail.len() implies ({
        let e = changed_extent(#[trigger] tail[i]);
        &&& e is Some
        &&& crate::block_allocator::slab::fits_type(ty, extent, e->0)
        &&& extent.spec_contains(e->0)
    }) by {
        slab.lemma_fits(extent, changed_extent(tail[i])->0);
    }
    assert(changes_of(access, ty, tail, id));
    slab.law_condense_replays();
    lemma_record_changes(access, ty, slab.whole(), tail, id);
    lemma_changes_of_one(access, ty, tail, id);
    assert(head.drop_last() =~= Seq::<SpaceMapEntry>::empty());
    assert(head.last() == info);
    assert(record_after(access, r, head.drop_last(), id) == r);
    assert(record_after(access, r, head, id) == (SlabRecord::Used {
        slab_type: ty,
        free: slab.whole(),
    }));
    lemma_record_append(access, r, head, tail, id);
    assert forall|o: SlabId| o != id implies !mentions(access, condensed_slab(slab), o) by {
        lemma_mentions_append(access, head, tail, o);
        if mentions(access, head, o) {
            let x = choose|x: int| 0 <= x < head.len() && touches(access, #[trigger] head[x], o);
            assert(head[x] == info);
        }
    }
    assert forall|i: int| 0 <= i < condensed_slab(slab).len() implies entry_placed(
        access,
        #[trigger] condensed_slab(slab)[i],
    ) by {
        if i == 0 {
            assert(condensed_slab(slab)[i] == info);
        } else {
            assert(condensed_slab(slab)[i] == tail[i - 1]);
        }
    }
}

/// The logs after one more slab was condensed.
proof fn lemma_condensed_one(
    access: SlabAccess,
    m: Map<int, Slab>,
    first: Seq<SpaceMapEntry>,
    second: Seq<SpaceMapEntry>,
    cursor: u64,
    id: SlabId,
)
    requires
        access.wf(),
        slabs_ok(access, m),
        logs_ok(access, m, first, second, cursor),
        cursor <= id.0 < u64::MAX,
        m.contains_key(id.0 as int),
        forall|k: int| cursor <= k < id.0 ==> !m.contains_key(k),
    ensures
        logs_ok(
            access,
            m,
            first,
            second + condensed_slab(m[id.0 as int]),
            (id.0 + 1) as u64,
        ),
{
    reveal(logs_ok);
    reveal(log_ok);
    let added = condensed_slab(m[id.0 as int]);
    let absent = SlabRecord::Absent;
    let s2 = second + added;
    law_condensed_slab(access, m, id, absent);
    assert forall|i: int| 0 <= i < s2.len() implies entry_placed(access, #[trigger] s2[i]) by {
        if i < second.len() {
            assert(s2[i] == second[i]);
        } else {
            assert(s2[i] == added[i - second.len()]);
        }
    }
    assert forall|o: SlabId| #[trigger]
        log_ok(access, record_of(m, o.0 as int), first, s2, (id.0 + 1) as u64, o) by {
        let rec = record_of(m, o.0 as int);
        assert(log_ok(access, rec, first, second, cursor, o));
        let r = record_after(access, absent, first, o);
        lemma_record_append(access, r, second, added, o);
        lemma_record_append(access, absent, second, added, o);
        lemma_mentions_append(access, second, added, o);
        if o == id {
            law_condensed_slab(access, m, id, record_after(access, r, second, o));
            lemma_record_untouched(access, absent, second, o);
        } else {
            lemma_record_untouched(access, record_after(access, r, second, o), added, o);
            lemma_record_untouched(access, record_after(access, absent, second, o), added, o);
            if o.0 >= cursor {
                lemma_record_untouched(access, absent, second, o);
                lemma_record_untouched(access, r, second, o);
                if o.0 < id.0 {
                    assert(!m.contains_key(o.0 as int));
                }
            }
        }
    }
}

/// When all slabs have been condensed, the second log alone says all.
proof fn lemma_condensed_all(
    access: SlabAccess,
    m: Map<int, Slab>,
    first: Seq<SpaceMapEntry>,
    second: Seq<SpaceMapEntry>,
    cursor: u64,
)
    requires
        logs_ok(access, m, first, second, cursor),
        forall|k: int| cursor <= k ==> !m.contains_key(k),
    ensures
        logs_ok(access, m, second, Seq::empty(), 0),
{
    reveal(logs_ok);
    reveal(log_ok);
    let absent = SlabRecord::Absent;
    let none = Seq::<SpaceMapEntry>::empty();
    assert forall|o: SlabId| #[trigger]
        log_ok(access, record_of(m, o.0 as int), second, none, 0, o) by {
        assert(log_ok(access, record_of(m, o.0 as int), first, second, cursor, o));
        if o.0 >= cursor {
            lemma_record_untouched(access, absent, second, o);
        }
        assert(!mentions(access, none, o));
    }
}

/// Nobody else's slabs change hands when a space map is cleared.
proof fn lemma_owned_cleared(
    a: BlockAllocator,
    b: BlockAllocator,
    sa: SlabAllocator,
    sb: SlabAllocator,
)
    requires
        a.owned_ok(sa),
        b.slabs@ == a.slabs@,
        b.slab_size == a.slab_size,
        b.spacemap.log.phys == a.spacemap_next.log.phys,
        b.spacemap_next.log.phys.is_new(),
        b.spacemap_next.log.wf(sb),
        sb.access == sa.access,
        forall|s: SlabId|
            #[trigger] sb.places(s) == sa.places(s) + if a.spacemap.log.phys.slabs@.contains(s) {
                1nat
            } else {
                0nat
            },
    ensures
        b.owned_ok(sb),
{
    reveal(BlockAllocator::owned_ok);
    let l = a.spacemap.log.phys.slabs@;
    let l2 = a.spacemap_next.log.phys.slabs@;
    assert forall|k: int| #[trigger] b.slabs@.contains_key(k) implies sb.allocated(
        SlabId(k as u64),
    ) by {
        let s = SlabId(k as u64);
        assert(sa.allocated(s));
        if l.contains(s) {
            let x = choose|x: int| 0 <= x < l.len() && l[x] == s;
            assert(!a.slabs@.contains_key(l[x].0 as int));
        }
    }
    assert forall|k: int| 0 <= k < l2.len() implies sb.allocated(#[trigger] l2[k]) by {
        assert(sa.allocated(l2[k]));
        if l.contains(l2[k]) {
            let x = choose|x: int| 0 <= x < l.len() && l[x] == l2[k];
            assert(!l2.contains(l[x]));
        }
    }
}

impl BlockAllocator {
    /// Whether the space map is so large that its size should be considered: with fewer entries
    /// than given it does not matter.
    pub fn spacemap_is_large(&self, min_badness_entries: u64) -> (r: bool)
        requires
            self.spacemap.log.phys.num_entries + self.spacemap.log.pending_entries@.len()
                <= u64::MAX,
        ensures
            r <==> self.spacemap.log.phys.num_entries + self.spacemap.log.pending_entries@.len()
                >= min_badness_entries,
    {
        self.spacemap.total_entries() >= min_badness_entries
    }

    /// Condenses some slabs: at least `min_per_checkpoint`, and as many as the two estimates of
    /// how many are called for.
    pub fn condense(
        &mut self,
        sa: &mut SlabAllocator,
        min_per_checkpoint: usize,
        incoming_rate_heuristic: usize,
        spacemap_badness_heuristic: usize,
    )
        requires
            old(self).wf(*old(sa)),
        ensures
            final(self).wf(*final(sa)),
            old(self).ready(*old(sa)) ==> final(self).ready(*final(sa)),
            old(self).exact() ==> final(self).exact(),
            final(sa).access == old(sa).access,
            old(sa).separate() ==> final(sa).separate(),
            *final(self) == (BlockAllocator {
                spacemap: final(self).spacemap,
                spacemap_next: final(self).spacemap_next,
                next_slab_to_condense: final(self).next_slab_to_condense,
                ..*old(self)
            }),
            condensed(
                *old(self),
                *final(self),
                *old(sa),
                *final(sa),
                slabs_to_condense(
                    min_per_checkpoint as int,
                    incoming_rate_heuristic as int,
                    spacemap_badness_heuristic as int,
                ),
            ),
    {
        let ghost a = *self;
        let ghost m = self.slabs@;
        let mut slabs_to_condense: usize = min_per_checkpoint;
        if incoming_rate_heuristic > slabs_to_condense {
            slabs_to_condense = incoming_rate_heuristic;
        }
        if spacemap_badness_heuristic > slabs_to_condense {
            slabs_to_condense = spacemap_badness_heuristic;
        }
        let ghost lo = self.next_slab_to_condense.0 as int;
        let len = self.slabs.slabs.entries.len();
        let mut condensed: usize = 0;
        let mut k: u64 = self.next_slab_to_condense.0;
        proof {
            lemma_continued_by_none(self.spacemap_next, condensed_log(m, lo, lo));
        }
        proof {
            reveal(BlockAllocator::owned_ok);
        }
        while k < len as u64 && condensed < slabs_to_condense
            invariant
                a == *old(self),
                *sa == *old(sa),
                m == a.slabs@,
                len == a.slabs.slabs.entries@.len(),
                a.wf(*sa),
                sa.access.wf(),
                slabs_ok(sa.access, m),
                lo == a.next_slab_to_condense.0,
                lo <= self.next_slab_to_condense.0 <= k,
                continued(
                    a.spacemap_next,
                    self.spacemap_next,
                    condensed_log(m, lo, self.next_slab_to_condense.0 as int),
                ),
                forall|x: int| self.next_slab_to_condense.0 <= x < k ==> !m.contains_key(x),
                logs_ok(
                    sa.access,
                    m,
                    a.spacemap.all(),
                    self.spacemap_next.all(),
                    self.next_slab_to_condense.0,
                ),
                condensed <= slabs_to_condense,
                condensed == count_slabs(m, lo, self.next_slab_to_condense.0 as int),
                *self == (BlockAllocator {
                    spacemap_next: self.spacemap_next,
                    next_slab_to_condense: self.next_slab_to_condense,
                    ..a
                }),
            decreases len - k,
        {
            let id = SlabId(k);
            if self.slabs.contains(id) {
                let ghost before = self.spacemap_next.all();
                let ghost next0 = self.spacemap_next;
                let ghost c0 = self.next_slab_to_condense.0 as int;
                proof {
                    assert(slab_ok(sa.access, m[k as int], k as int));
                }
                self.slabs.get(id).condense_to_spacemap(&mut self.spacemap_next);
                self.next_slab_to_condense = id.next();
                condensed += 1;
                proof {
                    lemma_condensed_one(
                        sa.access,
                        m,
                        a.spacemap.all(),
                        before,
                        c0 as u64,
                        id,
                    );
                    lemma_gap(m, lo, c0, k as int);
                    lemma_continued(
                        a.spacemap_next,
                        next0,
                        self.spacemap_next,
                        condensed_log(m, lo, c0),
                        condensed_slab(m[k as int]),
                    );
                }
            }
            k += 1;
        }
        if condensed < slabs_to_condense {
            proof {
                assert forall|x: int| self.next_slab_to_condense.0 <= x implies !m.contains_key(
                    x,
                ) by {
                    if m.contains_key(x) {
                        assert(x < len);
                    }
                }
                lemma_condensed_all(
                    sa.access,
                    m,
                    a.spacemap.all(),
                    self.spacemap_next.all(),
                    self.next_slab_to_condense.0,
                );
            }
            let ghost hi = self.next_slab_to_condense.0 as int;
            self.next_slab_to_condense = SlabId(0);
            let ghost b = *self;
            self.spacemap.clear(sa);
            let ghost c = *self;
            std::mem::swap(&mut self.spacemap, &mut self.spacemap_next);
            proof {
                assert(a.owned_ok(*old(sa)));
                lemma_owned_cleared(a, *self, *old(sa), *sa);
                assert(self.spacemap_next.all() =~= Seq::<SpaceMapEntry>::empty());
                assert(finished(a, *self, hi));
            }
        } else {
            proof {
                assert(self.owned_ok(*sa)) by {
                    reveal(BlockAllocator::owned_ok);
                }
            }
        }
    }
}

/// How many slabs are to be condensed.
pub open spec fn slabs_to_condense(min: int, incoming_rate: int, badness: int) -> int {
    let m = if incoming_rate > badness {
        incoming_rate
    } else {
        badness
    };
    if m > min {
        m
    } else {
        min
    }
}

/// All slabs have been condensed: the second space map has taken the place of the first.
pub open spec fn finished(a: BlockAllocator, b: BlockAllocator, hi: int) -> bool {
    let lo = a.next_slab_to_condense.0 as int;
    &&& lo <= hi
    &&& forall|k: int| hi <= k ==> !a.slabs@.contains_key(k)
    &&& b.next_slab_to_condense.0 == 0
    &&& continued(a.spacemap_next, b.spacemap, condensed_log(a.slabs@, lo, hi))
    &&& b.spacemap_next.all().len() == 0
    &&& b.spacemap_next.log.phys.is_new()
    &&& b.spacemap_next.alloc_entries == 0
}

/// The outcome of condensing up to `most` slabs.
pub open spec fn condensed(
    a: BlockAllocator,
    b: BlockAllocator,
    sa: SlabAllocator,
    sb: SlabAllocator,
    most: int,
) -> bool {
    let lo = a.next_slab_to_condense.0 as int;
    if exists|hi: int| #[trigger] finished(a, b, hi) && count_slabs(a.slabs@, lo, hi) < most {
        &&& forall|s: SlabId|
            #[trigger] sb.places(s) == sa.places(s) + if a.spacemap.log.phys.slabs@.contains(s) {
                1nat
            } else {
                0nat
            }
        &&& sb.allocatable == sa.allocatable
        &&& sb.noalloc_state == sa.noalloc_state
        &&& sb.reserved_slabs == sa.reserved_slabs
    } else {
        &&& lo <= b.next_slab_to_condense.0
        &&& count_slabs(a.slabs@, lo, b.next_slab_to_condense.0 as int) == most
        &&& b.spacemap == a.spacemap
        &&& continued(
            a.spacemap_next,
            b.spacemap_next,
            condensed_log(a.slabs@, lo, b.next_slab_to_condense.0 as int),
        )
        &&& sb == sa
    }
}

/// Numbers without a slab add nothing.
proof fn lemma_gap(m: Map<int, Slab>, lo: int, c: int, k: int)
    requires
        lo <= c <= k,
        forall|x: int| c <= x < k ==> !m.contains_key(x),
    ensures
        condensed_log(m, lo, k) == condensed_log(m, lo, c),
        count_slabs(m, lo, k) == count_slabs(m, lo, c),
    decreases k - c,
{
    if c < k {
        lemma_gap(m, lo, c, k - 1);
        assert(condensed_log(m, lo, k) =~= condensed_log(m, lo, k - 1));
    }
}

/// What a flush does to a slab.
pub open spec fn flushed(a: Slab, b: Slab) -> bool {
    &&& b.same_slab(&a)
    &&& b.wf()
    &&& !b.is_dirty
    &&& b.clean()
    &&& b.free_bytes() == a.free_bytes().union(a.freeing_bytes())
}

/// Dirty slabs may have been flushed.
pub open spec fn flushed_some(a: Map<int, Slab>, b: Map<int, Slab>) -> bool {
    &&& forall|k: int|
        #![trigger a.contains_key(k)]
        #![trigger b.contains_key(k)]
        a.contains_key(k) <==> b.contains_key(k)
    &&& forall|k: int|
        #[trigger] a.contains_key(k) ==> b[k] == a[k] || a[k].is_dirty && flushed(a[k], b[k])
}

/// All dirty slabs have been flushed.
pub open spec fn flushed_all(a: Map<int, Slab>, b: Map<int, Slab>) -> bool {
    &&& forall|k: int|
        #![trigger a.contains_key(k)]
        #![trigger b.contains_key(k)]
        a.contains_key(k) <==> b.contains_key(k)
    &&& forall|k: int|
        #[trigger] a.contains_key(k) ==> if a[k].is_dirty {
            flushed(a[k], b[k])
        } else {
            b[k] == a[k]
        }
}

/// What a flush of the listed slabs records, in their order: of each dirty slab what was allocated
/// and freed since it was last flushed. Slabs from the cursor on are recorded in the first space
/// map, the others in the second.
pub open spec fn flushed_log(
    m: Map<int, Slab>,
    list: Seq<SlabId>,
    cursor: u64,
    second: bool,
) -> Seq<SpaceMapEntry>
    decreases list.len(),
{
    if list.len() == 0 {
        Seq::empty()
    } else {
        let id = list.last();
        let rest = list.drop_last();
        flushed_log(m, rest, cursor, second) + if m.contains_key(id.0 as int)
            && m[id.0 as int].is_dirty && !rest.contains(id) && second == (id.0 < cursor) {
            m[id.0 as int].flush_entries()
        } else {
            Seq::empty()
        }
    }
}

/// The space maps have been continued with what a flush of the dirty slabs records.
pub open spec fn flush_logged(a: BlockAllocator, b: BlockAllocator) -> bool {
    let cursor = a.next_slab_to_condense.0;
    &&& continued(
        a.spacemap,
        b.spacemap,
        flushed_log(a.slabs@, a.dirty_slabs@, cursor, false),
    )
    &&& continued(
        a.spacemap_next,
        b.spacemap_next,
        flushed_log(a.slabs@, a.dirty_slabs@, cursor, true),
    )
}

/// Exactly the dirty ones of the listed slabs have been flushed.
pub open spec fn flushed_listed(a: Map<int, Slab>, b: Map<int, Slab>, list: Seq<SlabId>) -> bool {
    forall|x: int| #[trigger]
        a.contains_key(x) ==> if a[x].is_dirty && list.contains(a[x].id) {
            !b[x].is_dirty
        } else {
            b[x] == a[x]
        }
}

/// No slab has anything to flush.
pub open spec fn all_clean(m: Map<int, Slab>) -> bool {
    forall|k: int| #[trigger] m.contains_key(k) ==> m[k].clean() && !m[k].is_dirty
}

/// After a flush a block that waited for it can be allocated again.
pub proof fn law_flush_ends_wait(a: BlockAllocator, b: BlockAllocator, id: SlabId, e: Extent)
    requires
        waits_for_flush(a, id, e),
        flushed_all(a.slabs@, b.slabs@),
        all_clean(b.slabs@),
    ensures
        b.slabs@.contains_key(id.0 as int),
        extent_bytes(e).subset_of(b.slabs@[id.0 as int].free_bytes()),
{
    let i = id.0 as int;
    assert(a.slabs@.contains_key(i));
    assert(b.slabs@[i].clean());
}

/// What the statistics of a disk become when `freed` bytes can be allocated again.
pub open spec fn stats_flushed(s: DiskStats, freed: int, noalloc: bool) -> DiskStats {
    DiskStats {
        alloc_bytes: s.alloc_bytes,
        free_bytes: (s.free_bytes + freed) as u64,
        noalloc_bytes: if noalloc {
            (s.noalloc_bytes + freed) as u64
        } else {
            s.noalloc_bytes
        },
    }
}

/// The logs after a slab was flushed.
proof fn lemma_flush_logs(
    access: SlabAccess,
    a: Map<int, Slab>,
    b: Map<int, Slab>,
    first: Seq<SpaceMapEntry>,
    second: Seq<SpaceMapEntry>,
    cursor: u64,
    id: SlabId,
)
    requires
        access.wf(),
        slabs_ok(access, a),
        a.contains_key(id.0 as int),
        b.contains_key(id.0 as int),
        a.remove(id.0 as int) =~= b.remove(id.0 as int),
        a[id.0 as int].live(),
        flushed(a[id.0 as int], b[id.0 as int]),
        logs_ok(access, a, first, second, cursor),
    ensures
        cursor <= id.0 ==> logs_ok(
            access,
            b,
            first + a[id.0 as int].flush_entries(),
            second,
            cursor,
        ),
        cursor > id.0 ==> logs_ok(
            access,
            b,
            first,
            second + a[id.0 as int].flush_entries(),
            cursor,
        ),
{
    let slab = a[id.0 as int];
    assert(slab_ok(access, slab, id.0 as int));
    let ty = slab.slab_type();
    let tail = slab.flush_entries();
    let extent = access.slab_extent(id);
    access.lemma_slab_extent(access.holder(id), id);
    slab.lemma_entries_fit();
    assert forall|i: int| 0 <= i < tail.len() implies ({
        let e = changed_extent(#[trigger] tail[i]);
        &&& e is Some
        &&& crate::block_allocator::slab::fits_type(ty, extent, e->0)
        &&& extent.spec_contains(e->0)
    }) by {
        slab.lemma_fits(extent, changed_extent(tail[i])->0);
    }
    assert(changes_of(access, ty, tail, id));
    slab.law_flush_replays();
    lemma_record_changes(access, ty, slab.recorded_free(), tail, id);
    lemma_changes_of_one(access, ty, tail, id);
    Slab::lemma_flushed_sizes(&slab, &b[id.0 as int]);
    assert(b[id.0 as int].slab_type() == ty);
    lemma_logs_append(access, a, b, first, second, cursor, id, tail);
}

impl BlockAllocator {
    /// On a disk with slabs put aside that are all being evacuated, nothing waits to be freed.
    pub open spec fn settled(&self) -> bool {
        forall|k: int| #[trigger]
            self.slabs@.contains_key(k) && self.noalloc_state@.contains_key(
                self.slabs@[k].disk(),
            ) && !self.is_blocked(self.slabs@[k].disk()) ==> self.slabs@[k].freeing_bytes()
                == Set::<int>::empty()
    }

    /// Counts what a flush has freed.
    fn stats_flush_freeing(&mut self, slab_id: SlabId, freed: u64)
        requires
            slab_id.0 <= usize::MAX,
            old(self).slabs@.contains_key(slab_id.0 as int),
            old(self).slabs@[slab_id.0 as int].spec_location().wf(),
            ({
                let d = old(self).slabs@[slab_id.0 as int].disk();
                &&& old(self).per_disk_stats@.contains_key(d)
                &&& old(self).per_disk_stats@[d].free_bytes + freed <= u64::MAX
                &&& old(self).per_disk_stats@[d].noalloc_bytes + freed <= u64::MAX
            }),
        ensures
            *final(self) == (BlockAllocator {
                per_disk_stats: final(self).per_disk_stats,
                ..*old(self)
            }),
            ({
                let d = old(self).slabs@[slab_id.0 as int].disk();
                final(self).per_disk_stats@ == old(self).per_disk_stats@.insert(
                    d,
                    stats_flushed(
                        old(self).per_disk_stats@[d],
                        freed as int,
                        old(self).noalloc_state@.contains_key(d),
                    ),
                )
            }),
    {
        let disk = self.slabs.get(slab_id).location().disk().index();
        let mut stats = self.per_disk_stats.remove(disk).unwrap();
        stats.free_bytes = stats.free_bytes + freed;
        if self.noalloc_state.contains_key(disk) {
            stats.noalloc_bytes = stats.noalloc_bytes + freed;
        }
        let _ = self.per_disk_stats.insert(disk, stats);
        assert(self.per_disk_stats@ =~= old(self).per_disk_stats@.insert(disk as int, stats));
    }

    /// All is well after one slab was flushed.
    proof fn lemma_flushed_one(
        a: BlockAllocator,
        b: BlockAllocator,
        sa: SlabAllocator,
        id: SlabId,
        dirty: Seq<SlabId>,
        k: int,
    )
        requires
            a.flushing(sa, dirty, k),
            0 <= k < dirty.len(),
            dirty[k] == id,
            a.slabs@.contains_key(id.0 as int),
            b.slabs@.contains_key(id.0 as int),
            a.slabs@.remove(id.0 as int) =~= b.slabs@.remove(id.0 as int),
            a.slabs@[id.0 as int].is_dirty,
            flushed(a.slabs@[id.0 as int], b.slabs@[id.0 as int]),
            b == (BlockAllocator {
                slabs: b.slabs,
                spacemap: b.spacemap,
                spacemap_next: b.spacemap_next,
                per_disk_stats: b.per_disk_stats,
                ..a
            }),
            logged(a, b, id, a.slabs@[id.0 as int].flush_entries()),
            ({
                let d = a.slabs@[id.0 as int].disk();
                let freed = a.slabs@[id.0 as int].freeing_bytes().len() as int;
                &&& a.per_disk_stats@.contains_key(d)
                &&& a.per_disk_stats@[d].free_bytes + freed <= u64::MAX
                &&& a.per_disk_stats@[d].noalloc_bytes + freed <= u64::MAX
                &&& b.per_disk_stats@ =~= a.per_disk_stats@.insert(
                    d,
                    stats_flushed(a.per_disk_stats@[d], freed, a.noalloc_state@.contains_key(d)),
                )
            }),
        ensures
            b.flushing(sa, dirty, k + 1),
            a.exact() && a.settled() ==> b.exact() && b.settled(),
            forall|x: int| #[trigger] b.is_blocked(x) == a.is_blocked(x),
    {
        let i = id.0 as int;
        let m = a.slabs@;
        let m2 = b.slabs@;
        let d = m[i].disk();
        let n = sa.access.next_slab_id.0 as int;
        reveal(BlockAllocator::owned_ok);
        assert(slab_ok(sa.access, m[i], i));
        assert(m[i].live()) by {
            reveal(dirty_ok);
        }
        assert(m2[i].slab_type() == m[i].slab_type());
        assert(same_kind(m[i], m2[i]));
        lemma_same_kinds_insert(m, m2, i);
        lemma_blocked_same(a.noalloc_state@, a.evacuating_slabs@, m, m2);
        lemma_buckets_same(
            a.slab_buckets,
            a.noalloc_state@,
            a.evacuating_slabs@,
            m,
            m2,
            a.aside@,
        );
        assert forall|x: int| #[trigger] m2.contains_key(x) implies slab_ok(
            sa.access,
            m2[x],
            x,
        ) by {
            if x != i {
                assert(m2.remove(i).contains_key(x));
                assert(m.remove(i).contains_key(x));
                assert(m.remove(i)[x] == m2.remove(i)[x]);
            }
        }
        sa.access.lemma_id_below_next(id);
        Slab::lemma_flushed_sizes(&m[i], &m2[i]);
        assert(a.per_disk_stats@[d].noalloc_bytes <= a.per_disk_stats@[d].free_bytes) by {
            reveal(stats_ok);
        }
        lemma_stats_change(a.per_disk_stats@, b.per_disk_stats@, m, m2, i, n, d);
        lemma_flush_logs(
            sa.access,
            m,
            m2,
            a.spacemap.all(),
            a.spacemap_next.all(),
            a.next_slab_to_condense.0,
            id,
        );
        assert(dirty_ok(dirty.skip(k + 1), m2)) by {
            reveal(dirty_ok);
            assert forall|x: int| #[trigger] m2.contains_key(x) implies ({
                &&& m2[x].is_dirty ==> dirty.skip(k + 1).contains(m2[x].id)
                &&& !m2[x].is_dirty ==> m2[x].clean()
                &&& m2[x].is_dirty ==> m2[x].live()
            }) by {
                if x != i {
                    assert(m2.remove(i).contains_key(x));
                    assert(m.remove(i).contains_key(x));
                    assert(m.remove(i)[x] == m2.remove(i)[x]);
                    assert(m.contains_key(x));
                    assert(slab_ok(sa.access, m[x], x));
                    if m2[x].is_dirty {
                        let q = dirty.skip(k);
                        let y = choose|y: int| 0 <= y < q.len() && q[y] == m[x].id;
                        assert(y != 0);
                        assert(dirty.skip(k + 1)[y - 1] == m[x].id);
                    }
                }
            }
        }
        assert forall|x: int| #[trigger] b.is_blocked(x) == a.is_blocked(x) by {
            assert(blocked(b.noalloc_state@, m2, x) == blocked(a.noalloc_state@, m, x));
        }
        if a.exact() && a.settled() {
            if a.noalloc_state@.contains_key(d) && !a.is_blocked(d) {
                assert(m[i].freeing_bytes() == Set::<int>::empty());
            }
            reveal(noalloc_exact);
            assert forall|x: int| #[trigger] b.per_disk_stats@.contains_key(
                x,
            ) implies b.per_disk_stats@[x].noalloc_bytes == if blocked(b.noalloc_state@, m2, x) {
                b.per_disk_stats@[x].free_bytes
            } else {
                0
            } by {
                assert(a.per_disk_stats@.contains_key(x));
                assert(b.is_blocked(x) == a.is_blocked(x));
            }
            assert forall|x: int| #[trigger]
                m2.contains_key(x) && b.noalloc_state@.contains_key(m2[x].disk())
                    && !b.is_blocked(m2[x].disk()) implies m2[x].freeing_bytes() == Set::<
                int,
            >::empty() by {
                assert(b.is_blocked(m2[x].disk()) == a.is_blocked(m2[x].disk()));
                if x != i {
                    assert(m2.remove(i).contains_key(x));
                    assert(m.remove(i).contains_key(x));
                    assert(m.remove(i)[x] == m2.remove(i)[x]);
                    assert(m.contains_key(x));
                }
            }
        }
    }

    /// All is well while the slabs that were dirty are flushed, from the `k`th on.
    pub open spec fn flushing(&self, sa: SlabAllocator, dirty: Seq<SlabId>, k: int) -> bool {
        &&& self.owned_ok(sa)
        &&& forall|id: int| self.aside@.contains(id) ==> #[trigger] self.slabs@.contains_key(id)
        &&& noalloc_ok(self.noalloc_state@, self.evacuating_slabs@, self.slabs@)
        &&& sizes_ok(self.slab_buckets, self.slab_size)
        &&& buckets_ok(self.slab_buckets, self.slabs@, self.inside())
        &&& stats_ok(self.per_disk_stats@, self.slabs@, sa.access.next_slab_id.0 as int)
        &&& dirty_ok(dirty.skip(k), self.slabs@)
        &&& logs_ok(
            sa.access,
            self.slabs@,
            self.spacemap.all(),
            self.spacemap_next.all(),
            self.next_slab_to_condense.0,
        )
    }

    /// Flushes the dirty slabs.
    pub fn flush_dirty(&mut self, sa: &SlabAllocator)
        requires
            old(self).wf(*sa),
        ensures
            final(self).wf(*sa),
            old(self).exact() && old(self).settled() ==> final(self).exact(),
            forall|x: int| #[trigger] final(self).is_blocked(x) == old(self).is_blocked(x),
            final(self).dirty_slabs@.len() == 0,
            flushed_all(old(self).slabs@, final(self).slabs@),
            all_clean(final(self).slabs@),
            final(self).per_disk_stats@.dom() == old(self).per_disk_stats@.dom(),
            flush_logged(*old(self), *final(self)),
            *final(self) == (BlockAllocator {
                slabs: final(self).slabs,
                dirty_slabs: final(self).dirty_slabs,
                spacemap: final(self).spacemap,
                spacemap_next: final(self).spacemap_next,
                per_disk_stats: final(self).per_disk_stats,
                ..*old(self)
            }),
    {
        let ghost a = *self;
        let ghost cursor = self.next_slab_to_condense.0;
        let mut dirty: Vec<SlabId> = Vec::new();
        std::mem::swap(&mut self.dirty_slabs, &mut dirty);
        let ghost list = dirty@;
        let mut k: usize = 0;
        proof {
            assert(list.skip(0) =~= list);
            lemma_continued_by_none(
                self.spacemap,
                flushed_log(a.slabs@, list.take(0), cursor, false),
            );
            lemma_continued_by_none(
                self.spacemap_next,
                flushed_log(a.slabs@, list.take(0), cursor, true),
            );
            assert(self.owned_ok(*sa)) by {
                reveal(BlockAllocator::owned_ok);
            }
        }
        while k < dirty.len()
            invariant
                k <= dirty@.len(),
                list == dirty@,
                a == *old(self),
                a.wf(*sa),
                list == a.dirty_slabs@,
                self.flushing(*sa, list, k as int),
                self.dirty_slabs@.len() == 0,
                forall|x: int| #[trigger] self.is_blocked(x) == a.is_blocked(x),
                a.exact() && a.settled() ==> self.exact() && self.settled(),
                flushed_some(a.slabs@, self.slabs@),
                flushed_listed(a.slabs@, self.slabs@, list.take(k as int)),
                cursor == a.next_slab_to_condense.0,
                continued(
                    a.spacemap,
                    self.spacemap,
                    flushed_log(a.slabs@, list.take(k as int), cursor, false),
                ),
                continued(
                    a.spacemap_next,
                    self.spacemap_next,
                    flushed_log(a.slabs@, list.take(k as int), cursor, true),
                ),
                self.per_disk_stats@.dom() == a.per_disk_stats@.dom(),
                *self == (BlockAllocator {
                    slabs: self.slabs,
                    dirty_slabs: self.dirty_slabs,
                    spacemap: self.spacemap,
                    spacemap_next: self.spacemap_next,
                    per_disk_stats: self.per_disk_stats,
                    ..a
                }),
            decreases dirty@.len() - k,
        {
            let slab_id = dirty[k];
            let ghost b = *self;
            let ghost i = slab_id.0 as int;
            proof {
                assert(list[k as int].0 < sa.access.next_slab_id.0);
                reveal(BlockAllocator::owned_ok);
            }
            if self.slabs.contains(slab_id) && self.slabs.get(slab_id).is_dirty {
                let mut slab = self.slabs.remove(slab_id).unwrap();
                proof {
                    assert(slab_ok(sa.access, b.slabs@[i], i));
                    assert(slab.live()) by {
                        reveal(dirty_ok);
                    }
                    sa.access.lemma_slab_extent(sa.access.holder(slab_id), slab_id);
                    slab.lemma_within(sa.access.slab_extent(slab_id));
                }
                let (allocated, freed) = if self.next_slab_to_condense.0 <= slab_id.0 {
                    slab.flush_to_spacemap(&mut self.spacemap)
                } else {
                    slab.flush_to_spacemap(&mut self.spacemap_next)
                };
                let _ = self.slabs.insert(slab_id, slab);
                proof {
                    let d = slab.disk();
                    assert(self.slabs@ =~= b.slabs@.insert(i, slab));
                    assert(slab.slab_type() == b.slabs@[i].slab_type());
                    assert(slabs_ok(sa.access, self.slabs@));
                    Slab::lemma_flushed_sizes(&b.slabs@[i], &slab);
                    lemma_stats_fit(sa.access, self.slabs@, d);
                    lemma_sum_slabs_change(
                        b.slabs@,
                        self.slabs@,
                        i,
                        sa.access.next_slab_id.0 as int,
                        free_on(d),
                    );
                    reveal(stats_ok);
                    assert(b.slabs@.contains_key(i));
                }
                self.stats_flush_freeing(slab_id, freed);
                proof {
                    Self::lemma_flushed_one(b, *self, *sa, slab_id, list, k as int);
                    assert(self.per_disk_stats@.dom() =~= b.per_disk_stats@.dom());
                    assert(a.slabs@.contains_key(i));
                    assert forall|x: int| #[trigger] self.is_blocked(x) == a.is_blocked(x) by {
                        assert(b.is_blocked(x) == a.is_blocked(x));
                    }
                    assert(flushed(b.slabs@[i], self.slabs@[i]));
                    assert(b.slabs@[i] == a.slabs@[i]);
                }
            } else {
                proof {
                    // The slab is gone, or has been evacuated since.
                    lemma_skip_dirty(list, k as int, b.slabs@, *sa);
                }
            }
            proof {
                lemma_flush_next(a, b, *self, *sa, list, k as int);
            }
            k += 1;
        }
        proof {
            assert(list.take(list.len() as int) =~= list);
            assert(list.skip(list.len() as int) =~= Seq::<SlabId>::empty());
            reveal(dirty_ok);
            assert(all_clean(self.slabs@)) by {
                assert forall|x: int| #[trigger] self.slabs@.contains_key(
                    x,
                ) implies self.slabs@[x].clean() && !self.slabs@[x].is_dirty by {
                    if self.slabs@[x].is_dirty {
                        assert(list.skip(list.len() as int).contains(self.slabs@[x].id));
                    }
                }
            }
        }
    }
}

/// What the flush of the next listed slab adds to the space maps.
proof fn lemma_flush_next(
    a: BlockAllocator,
    b: BlockAllocator,
    c: BlockAllocator,
    sa: SlabAllocator,
    list: Seq<SlabId>,
    k: int,
)
    requires
        0 <= k < list.len(),
        a.wf(sa),
        b.next_slab_to_condense == a.next_slab_to_condense,
        forall|x: int| #[trigger] a.slabs@.contains_key(x) <==> b.slabs@.contains_key(x),
        flushed_listed(a.slabs@, b.slabs@, list.take(k)),
        continued(
            a.spacemap,
            b.spacemap,
            flushed_log(a.slabs@, list.take(k), a.next_slab_to_condense.0, false),
        ),
        continued(
            a.spacemap_next,
            b.spacemap_next,
            flushed_log(a.slabs@, list.take(k), a.next_slab_to_condense.0, true),
        ),
        ({
            let i = list[k].0 as int;
            if b.slabs@.contains_key(i) && b.slabs@[i].is_dirty {
                &&& c.slabs@ == b.slabs@.insert(i, c.slabs@[i])
                &&& !c.slabs@[i].is_dirty
                &&& logged(b, c, list[k], b.slabs@[i].flush_entries())
            } else {
                c == b
            }
        }),
    ensures
        flushed_listed(a.slabs@, c.slabs@, list.take(k + 1)),
        continued(
            a.spacemap,
            c.spacemap,
            flushed_log(a.slabs@, list.take(k + 1), a.next_slab_to_condense.0, false),
        ),
        continued(
            a.spacemap_next,
            c.spacemap_next,
            flushed_log(a.slabs@, list.take(k + 1), a.next_slab_to_condense.0, true),
        ),
{
    reveal(BlockAllocator::owned_ok);
    let id = list[k];
    let i = id.0 as int;
    let cursor = a.next_slab_to_condense.0;
    let t = list.take(k + 1);
    assert(t.last() == id);
    assert(t.drop_last() =~= list.take(k));
    if a.slabs@.contains_key(i) {
        assert(slab_ok(sa.access, a.slabs@[i], i));
    }
    assert forall|x: int| #[trigger] a.slabs@.contains_key(x) implies if a.slabs@[x].is_dirty
        && t.contains(a.slabs@[x].id) {
        !c.slabs@[x].is_dirty
    } else {
        c.slabs@[x] == a.slabs@[x]
    } by {
        assert(slab_ok(sa.access, a.slabs@[x], x));
        let y = a.slabs@[x].id;
        if list.take(k).contains(y) {
            let z = choose|z: int| 0 <= z < k && list.take(k)[z] == y;
            assert(t[z] == y);
        } else if t.contains(y) {
            let z = choose|z: int| 0 <= z < k + 1 && t[z] == y;
            if z < k {
                assert(list.take(k)[z] == y);
            }
        } else {
            assert(t[k] == id);
        }
    }
    let none = Seq::<SpaceMapEntry>::empty();
    let x = flushed_log(a.slabs@, list.take(k), cursor, false);
    let y = flushed_log(a.slabs@, list.take(k), cursor, true);
    lemma_continued_by_none(b.spacemap, none);
    lemma_continued_by_none(b.spacemap_next, none);
    if b.slabs@.contains_key(i) && b.slabs@[i].is_dirty {
        let added = b.slabs@[i].flush_entries();
        if cursor <= id.0 {
            lemma_continued(a.spacemap, b.spacemap, c.spacemap, x, added);
            lemma_continued(a.spacemap_next, b.spacemap_next, c.spacemap_next, y, none);
        } else {
            lemma_continued(a.spacemap, b.spacemap, c.spacemap, x, none);
            lemma_continued(a.spacemap_next, b.spacemap_next, c.spacemap_next, y, added);
        }
    } else {
        lemma_continued(a.spacemap, b.spacemap, c.spacemap, x, none);
        lemma_continued(a.spacemap_next, b.spacemap_next, c.spacemap_next, y, none);
    }
}

/// A slab that is not dirty can be skipped.
proof fn lemma_skip_dirty(list: Seq<SlabId>, k: int, m: Map<int, Slab>, sa: SlabAllocator)
    requires
        0 <= k < list.len(),
        dirty_ok(list.skip(k), m),
        slabs_ok(sa.access, m),
        !m.contains_key(list[k].0 as int) || !m[list[k].0 as int].is_dirty,
    ensures
        dirty_ok(list.skip(k + 1), m),
{
    reveal(dirty_ok);
    assert forall|x: int| #[trigger] m.contains_key(x) implies ({
        &&& m[x].is_dirty ==> list.skip(k + 1).contains(m[x].id)
        &&& !m[x].is_dirty ==> m[x].clean()
        &&& m[x].is_dirty ==> m[x].live()
    }) by {
        assert(slab_ok(sa.access, m[x], x));
        if m[x].is_dirty {
            let q = list.skip(k);
            let y = choose|y: int| 0 <= y < q.len() && q[y] == m[x].id;
            if y == 0 {
                assert(list[k] == m[x].id);
                assert(list[k].0 as int == x);
            }
            assert(list.skip(k + 1)[y - 1] == m[x].id);
        }
    }
}

/// The current entry of a slab.
pub open spec fn entry_of(slab: Slab) -> SlabBucketEntry {
    SlabBucketEntry { allocated_space: slab.allocated_bytes().len() as u64, slab_id: slab.id }
}

/// The bucket holds the same slabs, with their current entries, and starts at the first.
pub open spec fn resorted(m: Map<int, Slab>, a: SlabBucket, b: SlabBucket) -> bool {
    &&& b.is_extent_based == a.is_extent_based
    &&& forall|id: SlabId|
        #[trigger] has_slab(b.by_freeness@, id) <==> has_slab(a.by_freeness@, id)
    &&& forall|k: int|
        0 <= k < b.by_freeness@.len() ==> #[trigger] b.by_freeness@[k] == entry_of(
            m[b.by_freeness@[k].slab_id.0 as int],
        )
    &&& b.last_allocated == if b.by_freeness@.len() > 0 {
        Some(b.by_freeness@[0])
    } else {
        None
    }
    &&& !b.been_through_once
    &&& b.wf()
}

/// The buckets are right with their current entries.
proof fn lemma_resorted(
    a: SlabAllocationBuckets,
    b: SlabAllocationBuckets,
    m: Map<int, Slab>,
    ids: Set<int>,
    slab_size: u32,
)
    requires
        buckets_ok(a, m, ids),
        sizes_ok(a, slab_size),
        b.len() == a.len(),
        forall|i: int|
            0 <= i < a.len() ==> #[trigger] b.size(i) == a.size(i) && resorted(
                m,
                a.bucket(i),
                b.bucket(i),
            ),
    ensures
        buckets_ok(b, m, ids),
        sizes_ok(b, slab_size),
{
    reveal(buckets_ok);
    assert forall|i: int, j: int| 0 <= i < j < b.len() implies #[trigger] b.size(i)
        < #[trigger] b.size(j) by {
        assert(a.size(i) < a.size(j));
    }
    assert forall|i: int| 0 <= i < b.len() implies (#[trigger] b.bucket(i)).wf() by {
        assert(b.size(i) == a.size(i));
    }
    assert forall|i: int| 0 <= i < b.len() implies ({
        &&& (#[trigger] b.size(i)) > 0
        &&& b.size(i) % 512 == 0
        &&& !b.bucket(i).is_extent_based ==> b.size(i) <= slab_size
    }) by {
        assert(a.size(i) > 0);
    }
    assert forall|i: int, k: int|
        0 <= i < b.len() && 0 <= k < b.bucket(i).by_freeness@.len() implies ({
        let id = (#[trigger] b.bucket(i).by_freeness@[k]).slab_id.0 as int;
        &&& m.contains_key(id)
        &&& m[id].live()
        &&& home(b, m[id], i)
        &&& ids.contains(id)
    }) by {
        assert(b.size(i) == a.size(i));
        let s = a.bucket(i).by_freeness@;
        let sid = b.bucket(i).by_freeness@[k].slab_id;
        assert(has_slab(b.bucket(i).by_freeness@, sid));
        assert(has_slab(s, sid));
        let x = choose|x: int| 0 <= x < s.len() && (#[trigger] s[x]).slab_id == sid;
        assert(a.bucket(i).by_freeness@[x].slab_id == sid);
        assert(home(a, m[sid.0 as int], i));
    }
    assert forall|id: int| #[trigger] m.contains_key(id) && m[id].live() implies exists|i: int|
        #[trigger] home(b, m[id], i) && (has_slab(b.bucket(i).by_freeness@, m[id].id)
            <==> ids.contains(id)) by {
        let i = choose|i: int| #[trigger]
            home(a, m[id], i) && (has_slab(a.bucket(i).by_freeness@, m[id].id) <==> ids.contains(
                id,
            ));
        assert(b.size(i) == a.size(i));
        assert(home(b, m[id], i));
    }
}

/// What is stored of the block allocator.
#[derive(Debug)]
pub struct BlockAllocatorPhys {
    pub spacemap: SpaceMapPhys,
    pub spacemap_next: SpaceMapPhys,
    pub next_slab_to_condense: SlabId,
    pub segments_at_last_merge: u64,
    pub slab_buckets: SlabAllocationBucketsPhys,
}

impl BlockAllocator {
    /// Orders the slabs of a bucket by their current entries.
    fn resort_bucket(&self, sa: Ghost<SlabAllocator>, i: usize) -> (r: SlabBucket)
        requires
            self.wf(sa@),
            i < self.slab_buckets.len(),
        ensures
            resorted(self.slabs@, self.slab_buckets.bucket(i as int), r),
    {
        let bucket = &self.slab_buckets.buckets[i].1;
        let ghost s = bucket.by_freeness@;
        let ghost m = self.slabs@;
        let mut entries: Vec<SlabBucketEntry> = Vec::new();
        let mut k: usize = 0;
        proof {
            reveal(BlockAllocator::owned_ok);
            assert(self.slab_buckets.bucket(i as int) == *bucket);
            reveal(buckets_ok);
            assert(self.slab_buckets.bucket(i as int).wf());
        }
        while k < bucket.by_freeness.len()
            invariant
                k <= bucket.by_freeness@.len(),
                s == bucket.by_freeness@,
                m == self.slabs@,
                self.wf(sa@),
                i < self.slab_buckets.len(),
                self.slab_buckets.bucket(i as int) == *bucket,
                one_each(s),
                entries@.len() == k,
                forall|x: int|
                    0 <= x < k ==> {
                        &&& (#[trigger] entries@[x]) == entry_of(m[s[x].slab_id.0 as int])
                        &&& entries@[x].slab_id == s[x].slab_id
                    },
            decreases bucket.by_freeness@.len() - k,
        {
            let id = bucket.by_freeness[k].slab_id;
            proof {
                reveal(BlockAllocator::owned_ok);
                reveal(buckets_ok);
                assert(self.slab_buckets.bucket(i as int).by_freeness@[k as int] == s[k as int]);
                assert(m.contains_key(id.0 as int));
                assert(slab_ok(sa@.access, m[id.0 as int], id.0 as int));
                sa@.access.lemma_id_below_next(id);
            }
            entries.push(self.slabs.get(id).to_slab_bucket_entry());
            k += 1;
        }
        proof {
            assert forall|x: int, y: int| 0 <= x < y < entries@.len() implies (
            #[trigger] entries@[x]).slab_id != (#[trigger] entries@[y]).slab_id by {
                assert(s[x].slab_id != s[y].slab_id);
            }
        }
        let r = SlabBucket::new(bucket.is_extent_based, &entries);
        proof {
            assert forall|id: SlabId|
                #[trigger] has_slab(r.by_freeness@, id) <==> has_slab(s, id) by {
                if has_slab(r.by_freeness@, id) {
                    let x = choose|x: int|
                        0 <= x < r.by_freeness@.len() && (#[trigger] r.by_freeness@[x]).slab_id
                            == id;
                    assert(r.by_freeness@.contains(r.by_freeness@[x]));
                    assert(entries@.contains(r.by_freeness@[x]));
                    let y = choose|y: int|
                        0 <= y < entries@.len() && entries@[y] == r.by_freeness@[x];
                    assert(s[y].slab_id == id);
                }
                if has_slab(s, id) {
                    let y = choose|y: int| 0 <= y < s.len() && (#[trigger] s[y]).slab_id == id;
                    assert(entries@[y].slab_id == id);
                    assert(entries@.contains(entries@[y]));
                    assert(r.by_freeness@.contains(entries@[y]));
                    let x = choose|x: int|
                        0 <= x < r.by_freeness@.len() && r.by_freeness@[x] == entries@[y];
                    assert(r.by_freeness@[x].slab_id == id);
                }
            }
            assert forall|x: int| 0 <= x < r.by_freeness@.len() implies #[trigger] r.by_freeness@[x]
                == entry_of(m[r.by_freeness@[x].slab_id.0 as int]) by {
                assert(r.by_freeness@.contains(r.by_freeness@[x]));
                assert(entries@.contains(r.by_freeness@[x]));
                let y = choose|y: int| 0 <= y < entries@.len() && entries@[y] == r.by_freeness@[x];
                assert(entries@[y] == entry_of(m[s[y].slab_id.0 as int]));
            }
        }
        r
    }

    /// Orders the slabs of all buckets by their current free space.
    pub fn resort_buckets(&mut self, sa: &SlabAllocator)
        requires
            old(self).wf(*sa),
        ensures
            final(self).wf(*sa),
            old(self).exact() ==> final(self).exact(),
            old(self).ready(*sa) ==> final(self).ready(*sa),
            *final(self) == (BlockAllocator {
                slab_buckets: final(self).slab_buckets,
                ..*old(self)
            }),
            final(self).slab_buckets.len() == old(self).slab_buckets.len(),
            forall|i: int|
                0 <= i < old(self).slab_buckets.len() ==> {
                    &&& #[trigger] final(self).slab_buckets.size(i) == old(self).slab_buckets.size(
                        i,
                    )
                    &&& resorted(
                        old(self).slabs@,
                        old(self).slab_buckets.bucket(i),
                        final(self).slab_buckets.bucket(i),
                    )
                },
    {
        let ghost a = *self;
        let mut buckets: Vec<(SlabBucketSize, SlabBucket)> = Vec::new();
        let mut i: usize = 0;
        while i < self.slab_buckets.buckets.len()
            invariant
                i <= self.slab_buckets.buckets@.len(),
                *self == a,
                a.wf(*sa),
                buckets@.len() == i,
                forall|k: int|
                    0 <= k < i ==> {
                        &&& (#[trigger] buckets@[k]).0.0 == a.slab_buckets.size(k)
                        &&& resorted(a.slabs@, a.slab_buckets.bucket(k), buckets@[k].1)
                    },
            decreases self.slab_buckets.buckets@.len() - i,
        {
            let size = self.slab_buckets.buckets[i].0;
            let bucket = self.resort_bucket(Ghost(*sa), i);
            buckets.push((size, bucket));
            i += 1;
        }
        self.slab_buckets = SlabAllocationBuckets { buckets };
        proof {
            assert forall|k: int| 0 <= k < a.slab_buckets.len() implies #[trigger] self.slab_buckets.size(
                k,
            ) == a.slab_buckets.size(k) && resorted(
                a.slabs@,
                a.slab_buckets.bucket(k),
                self.slab_buckets.bucket(k),
            ) by {
                assert(buckets@[k].0.0 == a.slab_buckets.size(k));
            }
            lemma_resorted(
                a.slab_buckets,
                self.slab_buckets,
                a.slabs@,
                a.inside(),
                a.slab_size,
            );
            reveal(BlockAllocator::owned_ok);
            if a.ready(*sa) {
                assert forall|x: int| #[trigger] self.is_blocked(x) == a.is_blocked(x) by {}
            }
        }
    }

    /// Starts a checkpoint: condenses some slabs, and then flushes those that are dirty to the
    /// space map that they log to by now.
    pub fn flush_begin(
        &mut self,
        sa: &mut SlabAllocator,
        min_per_checkpoint: usize,
        incoming_rate_heuristic: usize,
        spacemap_badness_heuristic: usize,
    )
        requires
            old(self).wf(*old(sa)),
        ensures
            final(self).wf(*final(sa)),
            old(self).exact() && old(self).settled() ==> final(self).exact(),
            final(sa).access == old(sa).access,
            old(sa).separate() ==> final(sa).separate(),
            final(self).dirty_slabs@.len() == 0,
            flushed_all(old(self).slabs@, final(self).slabs@),
            all_clean(final(self).slabs@),
            exists|mid: BlockAllocator| #[trigger]
                condensed(
                    *old(self),
                    mid,
                    *old(sa),
                    *final(sa),
                    slabs_to_condense(
                        min_per_checkpoint as int,
                        incoming_rate_heuristic as int,
                        spacemap_badness_heuristic as int,
                    ),
                ) && mid.next_slab_to_condense == final(self).next_slab_to_condense
                    && mid.slabs == old(self).slabs && mid.dirty_slabs == old(self).dirty_slabs
                    && flush_logged(mid, *final(self)),
            *final(self) == (BlockAllocator {
                slabs: final(self).slabs,
                dirty_slabs: final(self).dirty_slabs,
                spacemap: final(self).spacemap,
                spacemap_next: final(self).spacemap_next,
                next_slab_to_condense: final(self).next_slab_to_condense,
                per_disk_stats: final(self).per_disk_stats,
                ..*old(self)
            }),
    {
        self.condense(
            sa,
            min_per_checkpoint,
            incoming_rate_heuristic,
            spacemap_badness_heuristic,
        );
        let ghost mid = *self;
        assert(old(self).settled() ==> mid.settled());
        self.flush_dirty(sa);
    }

    /// What can be rebuilt from the two space maps is what is allocated, once all slabs have
    /// been flushed.
    pub proof fn law_reopen(&self, sa: SlabAllocator, id: SlabId)
        requires
            self.wf(sa),
            all_clean(self.slabs@),
        ensures
            entries_placed(sa.access, self.spacemap.all()),
            entries_placed(sa.access, self.spacemap_next.all()),
            record_after(
                sa.access,
                SlabRecord::Absent,
                self.spacemap.all() + self.spacemap_next.all(),
                id,
            ) == if self.slabs@.contains_key(id.0 as int) {
                SlabRecord::Used {
                    slab_type: self.slabs@[id.0 as int].slab_type(),
                    free: self.slabs@[id.0 as int].free_bytes(),
                }
            } else {
                SlabRecord::Absent
            },
    {
        reveal(logs_ok);
        reveal(log_ok);
        let first = self.spacemap.all();
        let second = self.spacemap_next.all();
        assert(log_ok(
            sa.access,
            record_of(self.slabs@, id.0 as int),
            first,
            second,
            self.next_slab_to_condense.0,
            id,
        ));
        lemma_record_append(sa.access, SlabRecord::Absent, first, second, id);
        if self.slabs@.contains_key(id.0 as int) {
            self.slabs@[id.0 as int].lemma_clean_record();
        }
    }

    /// Finishes a checkpoint, after the entries of the two space maps have been written.
    pub fn flush_end(
        &mut self,
        sa: &SlabAllocator,
        spacemap_flush: &LogFlush,
        spacemap_next_flush: &LogFlush,
        completed_merge: bool,
    ) -> (r: BlockAllocatorPhys)
        requires
            old(self).wf(*sa),
            spacemap_flush.done == old(self).spacemap.log.pending_entries@.len(),
            spacemap_next_flush.done == old(self).spacemap_next.log.pending_entries@.len(),
        ensures
            final(self).wf(*sa),
            old(self).exact() ==> final(self).exact(),
            old(self).ready(*sa) ==> final(self).ready(*sa),
            final(self).spacemap.all() == old(self).spacemap.all(),
            final(self).spacemap_next.all() == old(self).spacemap_next.all(),
            final(self).spacemap.log.phys == old(self).spacemap.log.phys,
            final(self).spacemap_next.log.phys == old(self).spacemap_next.log.phys,
            final(self).spacemap.alloc_entries == old(self).spacemap.alloc_entries,
            final(self).spacemap_next.alloc_entries == old(self).spacemap_next.alloc_entries,
            final(self).spacemap.log.pending_entries@.len() == 0,
            final(self).spacemap_next.log.pending_entries@.len() == 0,
            final(self).checkpoint_allocated_bytes == 0,
            final(self).segments_at_last_merge == if completed_merge {
                old(self).slabs.segments(old(self).slabs.slabs.entries@.len() as int)
            } else {
                old(self).segments_at_last_merge as int
            },
            *final(self) == (BlockAllocator {
                spacemap: final(self).spacemap,
                spacemap_next: final(self).spacemap_next,
                slab_buckets: final(self).slab_buckets,
                checkpoint_allocated_bytes: final(self).checkpoint_allocated_bytes,
                segments_at_last_merge: final(self).segments_at_last_merge,
                ..*old(self)
            }),
            final(self).slab_buckets.len() == old(self).slab_buckets.len(),
            forall|i: int|
                0 <= i < old(self).slab_buckets.len() ==> {
                    &&& #[trigger] final(self).slab_buckets.size(i) == old(self).slab_buckets.size(
                        i,
                    )
                    &&& resorted(
                        old(self).slabs@,
                        old(self).slab_buckets.bucket(i),
                        final(self).slab_buckets.bucket(i),
                    )
                },
            r.spacemap.log.slabs@ == old(self).spacemap.log.phys.slabs@,
            r.spacemap.log.num_entries == old(self).spacemap.log.phys.num_entries,
            r.spacemap.log.next_chunk == old(self).spacemap.log.phys.next_chunk,
            r.spacemap.log.next_chunk_offset == old(self).spacemap.log.phys.next_chunk_offset,
            r.spacemap.alloc_entries == old(self).spacemap.alloc_entries,
            r.spacemap_next.log.slabs@ == old(self).spacemap_next.log.phys.slabs@,
            r.spacemap_next.log.num_entries == old(self).spacemap_next.log.phys.num_entries,
            r.spacemap_next.log.next_chunk == old(self).spacemap_next.log.phys.next_chunk,
            r.spacemap_next.log.next_chunk_offset == old(
                self).spacemap_next.log.phys.next_chunk_offset,
            r.spacemap_next.alloc_entries == old(self).spacemap_next.alloc_entries,
            r.segments_at_last_merge == final(self).segments_at_last_merge,
            r.next_slab_to_condense == old(self).next_slab_to_condense,
            final(self).slab_buckets.matches_phys(r.slab_buckets.buckets@),
    {
        let ghost a = *self;
        let spacemap = self.spacemap.flush_end(spacemap_flush);
        let spacemap_next = self.spacemap_next.flush_end(spacemap_next_flush);
        assert(self.owned_ok(*sa)) by {
            reveal(BlockAllocator::owned_ok);
        }
        let ghost b = *self;
        self.resort_buckets(sa);
        let ghost c = *self;
        self.checkpoint_allocated_bytes = 0;
        if completed_merge {
            proof {
                reveal(BlockAllocator::owned_ok);
                lemma_segments_fit(sa.access, self.slabs);
                assert forall|id: int| #[trigger] self.slabs@.contains_key(
                    id,
                ) implies self.slabs@[id].wf() by {
                    assert(slab_ok(sa.access, self.slabs@[id], id));
                }
            }
            self.segments_at_last_merge = self.slabs.total_segments();
        }
        assert(self.owned_ok(*sa)) by {
            reveal(BlockAllocator::owned_ok);
        }
        let slab_buckets = self.buckets_phys();
        assert forall|i: int| 0 <= i < a.slab_buckets.len() implies #[trigger] self.slab_buckets.size(
            i,
        ) == a.slab_buckets.size(i) && resorted(
            a.slabs@,
            a.slab_buckets.bucket(i),
            self.slab_buckets.bucket(i),
        ) by {
            assert(c.slab_buckets.size(i) == b.slab_buckets.size(i));
        }
        BlockAllocatorPhys {
            spacemap,
            spacemap_next,
            next_slab_to_condense: self.next_slab_to_condense,
            segments_at_last_merge: self.segments_at_last_merge,
            slab_buckets,
        }
    }

    /// The buckets as they are stored.
    fn buckets_phys(&self) -> (r: SlabAllocationBucketsPhys)
        ensures
            self.slab_buckets.matches_phys(r.buckets@),
    {
        let mut buckets: Vec<(SlabBucketSize, bool)> = Vec::new();
        let mut i: usize = 0;
        while i < self.slab_buckets.buckets.len()
            invariant
                i <= self.slab_buckets.buckets@.len(),
                buckets@.len() == i,
                forall|k: int|
                    0 <= k < i ==> (#[trigger] buckets@[k]).0.0 == self.slab_buckets.size(k)
                        && buckets@[k].1 == self.slab_buckets.bucket(k).is_extent_based,
            decreases self.slab_buckets.buckets@.len() - i,
        {
            buckets.push(
                (self.slab_buckets.buckets[i].0, self.slab_buckets.buckets[i].1.is_extent_based),
            );
            i += 1;
        }
        SlabAllocationBucketsPhys { buckets }
    }
}

/// The number of segments of all slabs fits in its type.
proof fn lemma_segments_fit(access: SlabAccess, slabs: Slabs)
    requires
        access.wf(),
        slabs_ok(access, slabs@),
    ensures
        0 <= slabs.segments(slabs.slabs.entries@.len() as int) <= u64::MAX,
{
    let m = slabs@;
    let n = slabs.slabs.entries@.len() as int;
    let f = |s: Slab| s.spec_num_segments();
    assert forall|k: int| #[trigger] m.contains_key(k) implies 0 <= f(m[k]) <= access.slab_size by {
        assert(slab_ok(access, m[k], k));
        let id = SlabId(k as u64);
        access.lemma_slab_extent(access.holder(id), id);
        m[k].lemma_num_segments(access.slab_extent(id));
    }
    lemma_sum_slabs_bound(m, n, f, access.slab_size as int);
    let ids = ids_below(m, n);
    assert forall|x: int| ids.contains(x) implies 0 <= x <= u64::MAX && access.valid(
        SlabId(x as u64),
    ) by {
        assert(m.contains_key(x));
        assert(slab_ok(access, m[x], x));
    }
    access.lemma_ids_bound(ids);
    let c = ids.len() as int;
    let z = access.slab_size as int;
    let k = access.num_slabs as int;
    assert(c * z <= k * z) by (nonlinear_arith)
        requires
            0 <= c <= k,
            z >= 0,
    ;
}

impl BlockAllocator {
    /// Nobody else's slabs change hands when a space map takes a slab.
    proof fn lemma_owned_step(
        a: BlockAllocator,
        b: BlockAllocator,
        sa: SlabAllocator,
        sb: SlabAllocator,
        before: BlockBasedLogPhys<SpaceMapEntry>,
        after: BlockBasedLogPhys<SpaceMapEntry>,
        num_entries: int,
        raw_size: int,
        r: ChunkPlacement,
        first: bool,
    )
        requires
            a.owned_ok(sa),
            sb.wf(),
            sb.access == sa.access,
            placed_chunk(before, after, sa, sb, num_entries, raw_size, r),
            before.spec_next_extent(sa.access) is None ==> sa.allocatable@.len() > 0,
            b.slabs == a.slabs,
            b.slab_size == a.slab_size,
            first ==> {
                &&& a.spacemap.log.phys == before
                &&& b.spacemap.log.phys == after
                &&& b.spacemap.log.wf(sb)
                &&& b.spacemap_next == a.spacemap_next
            },
            !first ==> {
                &&& a.spacemap_next.log.phys == before
                &&& b.spacemap_next.log.phys == after
                &&& b.spacemap_next.log.wf(sb)
                &&& b.spacemap == a.spacemap
            },
        ensures
            b.owned_ok(sb),
    {
        reveal(BlockAllocator::owned_ok);
        let l = a.spacemap.log.phys.slabs@;
        let l2 = a.spacemap_next.log.phys.slabs@;
        if before.spec_next_extent(sa.access) is None {
            let id = sa.allocatable@.last();
            lemma_times_contains(sa.allocatable@, id);
            assert(sa.allocatable@[sa.allocatable@.len() - 1] == id);
            assert(sa.allocatable@.contains(id));
            assert(sa.places(id) > 0);
            assert forall|k: int| #[trigger] a.slabs@.contains_key(k) implies sb.allocated(
                SlabId(k as u64),
            ) && k != id.0 by {
                assert(sa.allocated(SlabId(k as u64)));
                assert(SlabId(k as u64) != id);
                assert(slab_ok(sa.access, a.slabs@[k], k));
            }
            assert forall|k: int| 0 <= k < l.len() implies sb.allocated(#[trigger] l[k]) || first by {
                assert(sa.allocated(l[k]));
                assert(l[k] != id);
            }
            assert forall|k: int| 0 <= k < l2.len() implies sb.allocated(#[trigger] l2[k])
                || !first by {
                assert(sa.allocated(l2[k]));
                assert(l2[k] != id);
            }
            let nl = b.spacemap.log.phys.slabs@;
            let nl2 = b.spacemap_next.log.phys.slabs@;
            assert forall|k: int| 0 <= k < nl.len() implies ({
                let s = #[trigger] nl[k];
                &&& !b.slabs@.contains_key(s.0 as int)
                &&& !nl2.contains(s)
            }) by {
                let s = nl[k];
                if k < l.len() {
                    assert(s == l[k]);
                    assert(sa.allocated(l[k]));
                    crate::block_based_log::lemma_contains_push(l2, id, s);
                } else {
                    assert(s == id);
                    assert(first);
                    if l2.contains(id) {
                        let x = choose|x: int| 0 <= x < l2.len() && l2[x] == id;
                        assert(sa.allocated(l2[x]));
                    }
                }
            }
            assert forall|k: int| 0 <= k < nl2.len() implies !b.slabs@.contains_key(
                (#[trigger] nl2[k]).0 as int,
            ) by {
                if k < l2.len() {
                    assert(nl2[k] == l2[k]);
                } else {
                    assert(nl2[k] == id);
                }
            }
        }
    }

    /// Places the next chunk of the first space map.
    pub fn spacemap_step(
        &mut self,
        flush: &mut LogFlush,
        sa: &mut SlabAllocator,
        super_reserved: u64,
        raw_size: u64,
    ) -> (r: ChunkPlacement)
        requires
            old(self).wf(*old(sa)),
            old(flush).wf(old(self).spacemap.log.pending_entries@.len() as int),
            old(flush).done < old(self).spacemap.log.pending_entries@.len(),
            0 < raw_size <= old(sa).access.slab_size,
            raw_size % SECTOR == 0,
            old(self).spacemap.log.phys.num_entries + old(
                self).spacemap.log.pending_entries@.len() <= u64::MAX,
            old(self).spacemap.log.phys.next_chunk.0 < u64::MAX,
            chunk_len(
                old(self).spacemap.log.pending_entries@.len() - old(flush).done,
                *old(flush),
            ) == 1 ==> (old(self).spacemap.log.phys.spec_next_extent(old(sa).access) matches Some(e)
                ==> raw_size <= e.size),
            old(self).spacemap.log.phys.spec_next_extent(old(sa).access) is None ==> {
                &&& old(sa).allocatable@.len() > super_reserved
                &&& (old(self).spacemap.log.phys.slabs@.len() + 1) * old(sa).access.slab_size
                    <= u64::MAX
            },
        ensures
            final(self).wf(*final(sa)),
            old(self).exact() ==> final(self).exact(),
            final(sa).access == old(sa).access,
            old(sa).separate() ==> final(sa).separate(),
            final(flush).wf(final(self).spacemap.log.pending_entries@.len() as int),
            final(flush).entries_per_chunk == old(flush).entries_per_chunk,
            final(self).spacemap.all() == old(self).spacemap.all(),
            final(self).spacemap.log.pending_entries == old(self).spacemap.log.pending_entries,
            final(self).spacemap.alloc_entries == old(self).spacemap.alloc_entries,
            *final(self) == (BlockAllocator { spacemap: final(self).spacemap, ..*old(self) }),
            placed_chunk(
                old(self).spacemap.log.phys,
                final(self).spacemap.log.phys,
                *old(sa),
                *final(sa),
                chunk_len(
                    old(self).spacemap.log.pending_entries@.len() - old(flush).done,
                    *old(flush),
                ),
                raw_size as int,
                r,
            ),
            r is Write ==> final(flush).done == old(flush).done + chunk_len(
                old(self).spacemap.log.pending_entries@.len() - old(flush).done,
                *old(flush),
            ),
            r is Write ==> final(flush).max_entries is None,
            r is TrySmaller ==> final(flush).done == old(flush).done,
            r is TrySmaller ==> final(flush).max_entries == Some(
                half(
                    chunk_len(
                        old(self).spacemap.log.pending_entries@.len() - old(flush).done,
                        *old(flush),
                    ),
                ) as usize,
            ),
    {
        let ghost a = *self;
        let ghost n = chunk_len(
            self.spacemap.log.pending_entries@.len() - flush.done,
            *flush,
        );
        proof {
            reveal(BlockAllocator::owned_ok);
        }
        let r = self.spacemap.flush_step(flush, sa, super_reserved, raw_size);
        proof {
            Self::lemma_owned_step(
                a,
                *self,
                *old(sa),
                *sa,
                a.spacemap.log.phys,
                self.spacemap.log.phys,
                n,
                raw_size as int,
                r,
                true,
            );
        }
        r
    }

    /// Places the next chunk of the second space map.
    pub fn spacemap_next_step(
        &mut self,
        flush: &mut LogFlush,
        sa: &mut SlabAllocator,
        super_reserved: u64,
        raw_size: u64,
    ) -> (r: ChunkPlacement)
        requires
            old(self).wf(*old(sa)),
            old(flush).wf(old(self).spacemap_next.log.pending_entries@.len() as int),
            old(flush).done < old(self).spacemap_next.log.pending_entries@.len(),
            0 < raw_size <= old(sa).access.slab_size,
            raw_size % SECTOR == 0,
            old(self).spacemap_next.log.phys.num_entries + old(
                self).spacemap_next.log.pending_entries@.len() <= u64::MAX,
            old(self).spacemap_next.log.phys.next_chunk.0 < u64::MAX,
            chunk_len(
                old(self).spacemap_next.log.pending_entries@.len() - old(flush).done,
                *old(flush),
            ) == 1 ==> (old(self).spacemap_next.log.phys.spec_next_extent(old(sa).access) matches Some(e)
                ==> raw_size <= e.size),
            old(self).spacemap_next.log.phys.spec_next_extent(old(sa).access) is None ==> {
                &&& old(sa).allocatable@.len() > super_reserved
                &&& (old(self).spacemap_next.log.phys.slabs@.len() + 1) * old(sa).access.slab_size
                    <= u64::MAX
            },
        ensures
            final(self).wf(*final(sa)),
            old(self).exact() ==> final(self).exact(),
            final(sa).access == old(sa).access,
            old(sa).separate() ==> final(sa).separate(),
            final(flush).wf(final(self).spacemap_next.log.pending_entries@.len() as int),
            final(flush).entries_per_chunk == old(flush).entries_per_chunk,
            final(self).spacemap_next.all() == old(self).spacemap_next.all(),
            final(self).spacemap_next.log.pending_entries == old(
                self).spacemap_next.log.pending_entries,
            final(self).spacemap_next.alloc_entries == old(self).spacemap_next.alloc_entries,
            *final(self) == (BlockAllocator {
                spacemap_next: final(self).spacemap_next,
                ..*old(self)
            }),
            placed_chunk(
                old(self).spacemap_next.log.phys,
                final(self).spacemap_next.log.phys,
                *old(sa),
                *final(sa),
                chunk_len(
                    old(self).spacemap_next.log.pending_entries@.len() - old(flush).done,
                    *old(flush),
                ),
                raw_size as int,
                r,
            ),
            r is Write ==> final(flush).done == old(flush).done + chunk_len(
                old(self).spacemap_next.log.pending_entries@.len() - old(flush).done,
                *old(flush),
            ),
            r is Write ==> final(flush).max_entries is None,
            r is TrySmaller ==> final(flush).done == old(flush).done,
            r is TrySmaller ==> final(flush).max_entries == Some(
                half(
                    chunk_len(
                        old(self).spacemap_next.log.pending_entries@.len() - old(flush).done,
                        *old(flush),
                    ),
                ) as usize,
            ),
    {
        let ghost a = *self;
        let ghost n = chunk_len(
            self.spacemap_next.log.pending_entries@.len() - flush.done,
            *flush,
        );
        proof {
            reveal(BlockAllocator::owned_ok);
        }
        let r = self.spacemap_next.flush_step(flush, sa, super_reserved, raw_size);
        proof {
            Self::lemma_owned_step(
                a,
                *self,
                *old(sa),
                *sa,
                a.spacemap_next.log.phys,
                self.spacemap_next.log.phys,
                n,
                raw_size as int,
                r,
                false,
            );
        }
        r
    }
}

/// As many slabs are condensed as the most of what is asked for.
pub proof fn law_slabs_to_condense(min: int, incoming_rate: int, badness: int)
    ensures
        ({
            let n = slabs_to_condense(min, incoming_rate, badness);
            &&& n >= min && n >= incoming_rate && n >= badness
            &&& n == min || n == incoming_rate || n == badness
        }),
{
}

/// Each slab that there is counts for one.
pub proof fn law_count_slabs(m: Map<int, Slab>, lo: int, hi: int)
    requires
        lo <= hi,
    ensures
        count_slabs(m, lo, lo) == 0,
        m.contains_key(hi) ==> count_slabs(m, lo, hi + 1) == count_slabs(m, lo, hi) + 1,
        !m.contains_key(hi) ==> count_slabs(m, lo, hi + 1) == count_slabs(m, lo, hi),
        0 <= count_slabs(m, lo, hi) <= hi - lo,
    decreases hi - lo,
{
    if lo < hi {
        law_count_slabs(m, lo, hi - 1);
    }
}

/// The condensed log has what each slab has by now, in the order of the slabs, and nothing of
/// slabs that are not there.
pub proof fn law_condensed_log(m: Map<int, Slab>, lo: int, hi: int)
    requires
        lo <= hi,
    ensures
        condensed_log(m, lo, lo).len() == 0,
        !m.contains_key(hi) ==> condensed_log(m, lo, hi + 1) == condensed_log(m, lo, hi),
        m.contains_key(hi) ==> condensed_log(m, lo, hi + 1) == condensed_log(m, lo, hi).push(
            SpaceMapEntry::SlabInfo(m[hi].id, m[hi].slab_type()),
        ) + m[hi].condense_entries(),
{
    if m.contains_key(hi) {
        assert(condensed_log(m, lo, hi + 1) =~= condensed_log(m, lo, hi).push(
            SpaceMapEntry::SlabInfo(m[hi].id, m[hi].slab_type()),
        ) + m[hi].condense_entries());
    } else {
        assert(condensed_log(m, lo, hi + 1) =~= condensed_log(m, lo, hi));
    }
}

/// What is released is free after it was written, and withheld as well if nothing is to be
/// allocated from the disk. What is allocated stays.
pub proof fn law_stats_flushed(s: DiskStats, freed: int, noalloc: bool)
    requires
        freed >= 0,
        s.free_bytes + freed <= u64::MAX,
        s.noalloc_bytes + freed <= u64::MAX,
    ensures
        stats_flushed(s, freed, noalloc).alloc_bytes == s.alloc_bytes,
        stats_flushed(s, freed, noalloc).free_bytes - s.free_bytes == freed,
        noalloc ==> stats_flushed(s, freed, noalloc).noalloc_bytes - s.noalloc_bytes == freed,
        !noalloc ==> stats_flushed(s, freed, noalloc).noalloc_bytes == s.noalloc_bytes,
{
}

/// Condensing goes on from slab to slab. It stops when enough slabs were condensed, or when there
/// are no more; the new log then takes the place of the old one.
pub proof fn law_condense_goes_on(
    a: BlockAllocator,
    b: BlockAllocator,
    sa: SlabAllocator,
    sb: SlabAllocator,
    most: int,
)
    requires
        condensed(a, b, sa, sb, most),
    ensures
        ({
            let lo = a.next_slab_to_condense.0 as int;
            let next = b.next_slab_to_condense.0 as int;
            ||| {
                &&& next == 0
                &&& b.spacemap_next.all().len() == 0
                &&& sb.allocatable == sa.allocatable
                &&& exists|hi: int|
                    lo <= hi && #[trigger] count_slabs(a.slabs@, lo, hi) < most && (forall|k: int|
                        hi <= k ==> !#[trigger] a.slabs@.contains_key(k))
            }
            ||| {
                &&& lo <= next
                &&& count_slabs(a.slabs@, lo, next) == most
                &&& b.spacemap == a.spacemap
                &&& sb == sa
            }
        }),
{
    let lo = a.next_slab_to_condense.0 as int;
    if exists|hi: int| #[trigger] finished(a, b, hi) && count_slabs(a.slabs@, lo, hi) < most {
        let hi = choose|hi: int| #[trigger]
            finished(a, b, hi) && count_slabs(a.slabs@, lo, hi) < most;
        assert(lo <= hi && count_slabs(a.slabs@, lo, hi) < most);
    }
}

/// After the slabs of a bucket have been sorted anew, allocations start with the one of which the
/// least is in use, and all are tried again.
pub proof fn law_resorted(m: Map<int, Slab>, a: SlabBucket, b: SlabBucket, k: int)
    requires
        resorted(m, a, b),
        0 <= k < b.by_freeness@.len(),
    ensures
        b.last_allocated is Some,
        b.last_allocated->0.allocated_space <= b.by_freeness@[k].allocated_space,
        b.by_freeness@[k].allocated_space == m[b.by_freeness@[k].slab_id.0 as int]
            .allocated_bytes().len() as u64,
        has_slab(a.by_freeness@, b.by_freeness@[k].slab_id),
        !b.been_through_once,
{
    assert(has_slab(b.by_freeness@, b.by_freeness@[k].slab_id));
    assert(b.by_freeness@[k] == entry_of(m[b.by_freeness@[k].slab_id.0 as int]));
    if k > 0 {
        assert(before(b.by_freeness@[0], b.by_freeness@[k]));
    }
}

} // verus!
