//! What always holds between the parts of the block allocator.
use crate::block_allocator::buckets::{has_slab, SlabAllocationBuckets, SlabBucketEntry};
use crate::block_allocator::slab::Slab;
use crate::block_allocator::slabs::{
    entries_placed, lemma_mentions_append, lemma_record_append, lemma_record_untouched, ids_below,
    lemma_sum_slabs_at_least, lemma_sum_slabs_bound, lemma_sum_slabs_change, lemma_sum_slabs_same,
    mentions, record_after, record_of, slab_ok, slabs_ok, sum_slabs, SlabRecord,
};
use crate::slab_allocator::{SlabAccess, SlabId};
use crate::space_map::SpaceMapEntry;
use vstd::prelude::*;

verus! {

/// Space statistics of one disk.
#[derive(Debug, Clone, Copy)]
pub struct DiskStats {
    /// Allocated space in the slabs of the block allocator.
    pub alloc_bytes: u64,
    /// Free space in the slabs of the block allocator, whether it can be allocated or not.
    pub free_bytes: u64,
    /// Free space that cannot be allocated, since the disk is being removed.
    pub noalloc_bytes: u64,
}

impl Default for DiskStats {
    fn default() -> (r: DiskStats)
        ensures
            r.alloc_bytes == 0,
            r.free_bytes == 0,
            r.noalloc_bytes == 0,
    {
        DiskStats { alloc_bytes: 0, free_bytes: 0, noalloc_bytes: 0 }
    }
}

/// The two slabs differ at most in what is allocated.
pub open spec fn same_kind(a: Slab, b: Slab) -> bool {
    &&& a.id == b.id
    &&& a.live() == b.live()
    &&& a.inner is ExtentBased == b.inner is ExtentBased
    &&& a.disk() == b.disk()
    &&& a.spec_max_size() == b.spec_max_size()
}

pub open spec fn same_kinds(a: Map<int, Slab>, b: Map<int, Slab>) -> bool {
    &&& forall|k: int|
        #![trigger a.contains_key(k)]
        #![trigger b.contains_key(k)]
        a.contains_key(k) <==> b.contains_key(k)
    &&& forall|k: int| #[trigger] a.contains_key(k) ==> same_kind(a[k], b[k])
}

/// Some slab of the disk was put aside because the disk is being removed, and is in use.
pub open spec fn blocked(noalloc: Map<int, Vec<SlabId>>, m: Map<int, Slab>, d: int) -> bool {
    &&& noalloc.contains_key(d)
    &&& exists|k: int|
        0 <= k < noalloc[d]@.len() && m[(#[trigger] noalloc[d]@[k]).0 as int].live()
}

/// No slab occurs twice in the list.
pub open spec fn distinct(list: Seq<SlabId>) -> bool {
    forall|i: int, j: int| 0 <= i < j < list.len() ==> list[i] != list[j]
}

/// The slabs that are put aside and those that are being evacuated.
#[verifier::opaque]
pub open spec fn noalloc_ok(
    noalloc: Map<int, Vec<SlabId>>,
    evacuating: Seq<SlabId>,
    m: Map<int, Slab>,
) -> bool {
    &&& distinct(evacuating)
    &&& forall|id: SlabId|
        #[trigger] evacuating.contains(id) <==> m.contains_key(id.0 as int)
            && !m[id.0 as int].live()
    &&& forall|d: int|
        #[trigger] noalloc.contains_key(d) ==> distinct(noalloc[d]@) && noalloc[d]@.len() > 0
    &&& forall|d: int, k: int|
        noalloc.contains_key(d) && 0 <= k < noalloc[d]@.len() ==> {
            &&& m.contains_key((#[trigger] noalloc[d]@[k]).0 as int)
            &&& m[noalloc[d]@[k].0 as int].disk() == d
        }
    &&& forall|id: int|
        #[trigger] m.contains_key(id) && noalloc.contains_key(m[id].disk()) && (!m[id].live()
            || blocked(noalloc, m, m[id].disk())) ==> noalloc[m[id].disk()]@.contains(m[id].id)
}

/// The bucket that a slab belongs to.
pub open spec fn home(buckets: SlabAllocationBuckets, slab: Slab, i: int) -> bool {
    &&& 0 <= i < buckets.len()
    &&& buckets.size(i) == slab.spec_max_size()
    &&& buckets.bucket(i).is_extent_based == (slab.inner is ExtentBased)
}

/// Sizes that a slab can be used for.
pub open spec fn sizes_ok(buckets: SlabAllocationBuckets, slab_size: u32) -> bool {
    forall|i: int|
        0 <= i < buckets.len() ==> {
            &&& (#[trigger] buckets.size(i)) > 0
            &&& buckets.size(i) % 512 == 0
            &&& !buckets.bucket(i).is_extent_based ==> buckets.size(i) <= slab_size
        }
}

/// The slabs that can be allocated from: those that are not put aside.
pub open spec fn inside(
    noalloc: Map<int, Vec<SlabId>>,
    m: Map<int, Slab>,
    aside: Set<int>,
) -> Set<int> {
    Set::new(
        |id: int|
            m.contains_key(id) && !blocked(noalloc, m, m[id].disk()) && !aside.contains(id),
    )
}

/// The buckets hold exactly the slabs in use that are in the set.
#[verifier::opaque]
pub open spec fn buckets_ok(
    buckets: SlabAllocationBuckets,
    m: Map<int, Slab>,
    ids: Set<int>,
) -> bool {
    &&& buckets.wf()
    &&& forall|i: int, k: int|
        0 <= i < buckets.len() && 0 <= k < buckets.bucket(i).by_freeness@.len() ==> {
            let id = (#[trigger] buckets.bucket(i).by_freeness@[k]).slab_id.0 as int;
            &&& m.contains_key(id)
            &&& m[id].live()
            &&& home(buckets, m[id], i)
            &&& ids.contains(id)
        }
    &&& forall|id: int|
        #[trigger] m.contains_key(id) && m[id].live() ==> exists|i: int|
            #[trigger] home(buckets, m[id], i) && (has_slab(
                buckets.bucket(i).by_freeness@,
                m[id].id,
            ) <==> ids.contains(id))
}

/// The space of a slab that counts for a disk.
pub open spec fn alloc_on(d: int) -> spec_fn(Slab) -> int {
    |s: Slab|
        if s.disk() == d {
            s.allocated_bytes().len() as int
        } else {
            0
        }
}

pub open spec fn free_on(d: int) -> spec_fn(Slab) -> int {
    |s: Slab|
        if s.disk() == d {
            s.free_bytes().len() as int
        } else {
            0
        }
}

/// The statistics are the sums over the slabs.
#[verifier::opaque]
pub open spec fn stats_ok(stats: Map<int, DiskStats>, m: Map<int, Slab>, n: int) -> bool {
    &&& forall|id: int| #[trigger] m.contains_key(id) ==> stats.contains_key(m[id].disk())
    &&& forall|d: int|
        #[trigger] stats.contains_key(d) ==> {
            &&& stats[d].alloc_bytes == sum_slabs(m, n, alloc_on(d))
            &&& stats[d].free_bytes == sum_slabs(m, n, free_on(d))
            &&& stats[d].noalloc_bytes <= stats[d].free_bytes
        }
}

/// What cannot be allocated is the free space of the disks whose slabs are put aside.
#[verifier::opaque]
pub open spec fn noalloc_exact(
    stats: Map<int, DiskStats>,
    noalloc: Map<int, Vec<SlabId>>,
    m: Map<int, Slab>,
) -> bool {
    forall|d: int|
        #[trigger] stats.contains_key(d) ==> stats[d].noalloc_bytes == if blocked(noalloc, m, d) {
            stats[d].free_bytes
        } else {
            0
        }
}

/// The dirty slabs are listed, and the others have nothing to flush.
#[verifier::opaque]
pub open spec fn dirty_ok(dirty: Seq<SlabId>, m: Map<int, Slab>) -> bool {
    forall|id: int|
        #[trigger] m.contains_key(id) ==> {
            &&& m[id].is_dirty ==> dirty.contains(m[id].id)
            &&& !m[id].is_dirty ==> m[id].clean()
            &&& m[id].is_dirty ==> m[id].live()
        }
}

/// The two logs together say what has been recorded about each slab. Slabs from the cursor on
/// are only in the first one; of the others the second one says all.
#[verifier::opaque]
pub open spec fn logs_ok(
    access: SlabAccess,
    m: Map<int, Slab>,
    first: Seq<SpaceMapEntry>,
    second: Seq<SpaceMapEntry>,
    cursor: u64,
) -> bool {
    &&& entries_placed(access, first)
    &&& entries_placed(access, second)
    &&& forall|id: SlabId| #[trigger]
        log_ok(access, record_of(m, id.0 as int), first, second, cursor, id)
}

#[verifier::opaque]
pub open spec fn log_ok(
    access: SlabAccess,
    record: SlabRecord,
    first: Seq<SpaceMapEntry>,
    second: Seq<SpaceMapEntry>,
    cursor: u64,
    id: SlabId,
) -> bool {
    let r = record_after(access, SlabRecord::Absent, first, id);
    &&& !(r is Broken)
    &&& record_after(access, r, second, id) == record
    &&& id.0 < cursor ==> record_after(access, SlabRecord::Absent, second, id) == record
    &&& id.0 >= cursor ==> !mentions(access, second, id)
}

/// A blocked disk stays blocked, and no other becomes so.
pub proof fn lemma_blocked_same(
    noalloc: Map<int, Vec<SlabId>>,
    evacuating: Seq<SlabId>,
    a: Map<int, Slab>,
    b: Map<int, Slab>,
)
    requires
        noalloc_ok(noalloc, evacuating, a),
        same_kinds(a, b),
    ensures
        forall|d: int| #[trigger] blocked(noalloc, b, d) == blocked(noalloc, a, d),
        noalloc_ok(noalloc, evacuating, b),
{
    reveal(noalloc_ok);
    assert forall|d: int| #[trigger] blocked(noalloc, b, d) == blocked(noalloc, a, d) by {
        if noalloc.contains_key(d) {
            assert forall|k: int| 0 <= k < noalloc[d]@.len() implies a[(
            #[trigger] noalloc[d]@[k]).0 as int].live() == b[noalloc[d]@[k].0 as int].live() by {
                assert(a.contains_key(noalloc[d]@[k].0 as int));
            }
        }
    }
    assert forall|id: int|
        #[trigger] b.contains_key(id) && noalloc.contains_key(b[id].disk()) && (!b[id].live()
            || blocked(noalloc, b, b[id].disk())) implies noalloc[b[id].disk()]@.contains(
        b[id].id,
    ) by {
        assert(a.contains_key(id));
    }
    assert forall|id: SlabId| #[trigger] evacuating.contains(id) <==> b.contains_key(id.0 as int)
        && !b[id.0 as int].live() by {
        assert(a.contains_key(id.0 as int) <==> b.contains_key(id.0 as int));
    }
    assert forall|d: int, k: int| noalloc.contains_key(d) && 0 <= k < noalloc[d]@.len() implies ({
        &&& b.contains_key((#[trigger] noalloc[d]@[k]).0 as int)
        &&& b[noalloc[d]@[k].0 as int].disk() == d
    }) by {
        assert(a.contains_key(noalloc[d]@[k].0 as int));
    }
}

pub proof fn lemma_buckets_same(
    buckets: SlabAllocationBuckets,
    noalloc: Map<int, Vec<SlabId>>,
    evacuating: Seq<SlabId>,
    a: Map<int, Slab>,
    b: Map<int, Slab>,
    aside: Set<int>,
)
    requires
        noalloc_ok(noalloc, evacuating, a),
        buckets_ok(buckets, a, inside(noalloc, a, aside)),
        same_kinds(a, b),
    ensures
        inside(noalloc, b, aside) == inside(noalloc, a, aside),
        buckets_ok(buckets, b, inside(noalloc, b, aside)),
{
    lemma_blocked_same(noalloc, evacuating, a, b);
    let ids = inside(noalloc, a, aside);
    assert forall|id: int| ids.contains(id) <==> inside(noalloc, b, aside).contains(id) by {
        if a.contains_key(id) {
            assert(blocked(noalloc, b, b[id].disk()) == blocked(noalloc, a, b[id].disk()));
        }
    }
    assert(inside(noalloc, b, aside) =~= ids);
    reveal(buckets_ok);
    assert forall|i: int, k: int|
        0 <= i < buckets.len() && 0 <= k < buckets.bucket(i).by_freeness@.len() implies ({
        let id = (#[trigger] buckets.bucket(i).by_freeness@[k]).slab_id.0 as int;
        &&& b.contains_key(id)
        &&& b[id].live()
        &&& home(buckets, b[id], i)
        &&& ids.contains(id)
    }) by {
        let id = buckets.bucket(i).by_freeness@[k].slab_id.0 as int;
        assert(a.contains_key(id));
    }
    assert forall|id: int| #[trigger] b.contains_key(id) && b[id].live() implies exists|i: int|
        #[trigger] home(buckets, b[id], i) && (has_slab(
            buckets.bucket(i).by_freeness@,
            b[id].id,
        ) <==> ids.contains(id)) by {
        assert(a.contains_key(id));
        let i = choose|i: int| #[trigger]
            home(buckets, a[id], i) && (has_slab(buckets.bucket(i).by_freeness@, a[id].id)
                <==> ids.contains(id));
        assert(home(buckets, b[id], i));
    }
}

/// The home of a slab is unique.
pub proof fn lemma_home_unique(buckets: SlabAllocationBuckets, slab: Slab, i: int, j: int)
    requires
        buckets.wf(),
        home(buckets, slab, i),
        home(buckets, slab, j),
    ensures
        i == j,
{
    if i < j {
        assert(buckets.size(i) < buckets.size(j));
    } else if j < i {
        assert(buckets.size(j) < buckets.size(i));
    }
}

/// The logs go on saying what has been recorded if only one slab changes, and the entries that
/// tell of the change go to the log that its number calls for.
pub proof fn lemma_logs_append(
    access: SlabAccess,
    a: Map<int, Slab>,
    b: Map<int, Slab>,
    first: Seq<SpaceMapEntry>,
    second: Seq<SpaceMapEntry>,
    cursor: u64,
    id: SlabId,
    entries: Seq<SpaceMapEntry>,
)
    requires
        logs_ok(access, a, first, second, cursor),
        a.remove(id.0 as int) =~= b.remove(id.0 as int),
        entries_placed(access, entries),
        forall|other: SlabId| other != id ==> !mentions(access, entries, other),
        record_after(access, record_of(a, id.0 as int), entries, id) == record_of(b, id.0 as int),
    ensures
        cursor <= id.0 ==> logs_ok(access, b, first + entries, second, cursor),
        cursor > id.0 ==> logs_ok(access, b, first, second + entries, cursor),
{
    reveal(logs_ok);
    reveal(log_ok);
    let to_first = cursor <= id.0;
    let f2 = if to_first {
        first + entries
    } else {
        first
    };
    let s2 = if to_first {
        second
    } else {
        second + entries
    };
    assert forall|i: int| 0 <= i < f2.len() implies crate::block_allocator::slabs::entry_placed(
        access,
        #[trigger] f2[i],
    ) by {
        if i < first.len() {
            assert(f2[i] == first[i]);
        } else {
            assert(f2[i] == entries[i - first.len()]);
        }
    }
    assert forall|i: int| 0 <= i < s2.len() implies crate::block_allocator::slabs::entry_placed(
        access,
        #[trigger] s2[i],
    ) by {
        if i < second.len() {
            assert(s2[i] == second[i]);
        } else {
            assert(s2[i] == entries[i - second.len()]);
        }
    }
    assert forall|o: SlabId| #[trigger]
        log_ok(access, record_of(b, o.0 as int), f2, s2, cursor, o) by {
        let ra = record_of(a, o.0 as int);
        let rb = record_of(b, o.0 as int);
        assert(log_ok(access, ra, first, second, cursor, o));
        let absent = SlabRecord::Absent;
        let r = record_after(access, absent, first, o);
        if o != id {
            let k = o.0 as int;
            assert(a.remove(id.0 as int).contains_key(k) == a.contains_key(k));
            assert(b.remove(id.0 as int).contains_key(k) == b.contains_key(k));
            assert(a.remove(id.0 as int)[k] == a[k]);
            assert(b.remove(id.0 as int)[k] == b[k]);
            assert(ra == rb);
            if to_first {
                lemma_record_append(access, absent, first, entries, o);
                lemma_record_untouched(access, r, entries, o);
            } else {
                lemma_record_append(access, r, second, entries, o);
                lemma_record_append(access, absent, second, entries, o);
                lemma_record_untouched(access, ra, entries, o);
                lemma_record_untouched(
                    access,
                    record_after(access, absent, second, o),
                    entries,
                    o,
                );
                lemma_mentions_append(access, second, entries, o);
            }
        } else {
            if to_first {
                lemma_record_append(access, absent, first, entries, o);
                lemma_record_untouched(access, r, second, o);
                let r2 = record_after(access, absent, f2, o);
                lemma_record_untouched(access, r2, second, o);
            } else {
                lemma_record_append(access, r, second, entries, o);
                lemma_record_append(access, absent, second, entries, o);
            }
        }
    }
}

/// The logs go on saying what has been recorded if nothing that is recorded changes.
pub proof fn lemma_logs_same(
    access: SlabAccess,
    a: Map<int, Slab>,
    b: Map<int, Slab>,
    first: Seq<SpaceMapEntry>,
    second: Seq<SpaceMapEntry>,
    cursor: u64,
)
    requires
        logs_ok(access, a, first, second, cursor),
        forall|id: SlabId|
            #[trigger] record_of(b, id.0 as int) == record_of(a, id.0 as int),
    ensures
        logs_ok(access, b, first, second, cursor),
{
    reveal(logs_ok);
    assert forall|o: SlabId| #[trigger]
        log_ok(access, record_of(b, o.0 as int), first, second, cursor, o) by {
        assert(log_ok(access, record_of(a, o.0 as int), first, second, cursor, o));
    }
}

/// The two differ at most in a flag that has no effect.
pub open spec fn same_state(a: Slab, b: Slab) -> bool {
    &&& a.id == b.id
    &&& a.inner == b.inner
    &&& a.is_dirty == b.is_dirty
}

pub open spec fn same_states(a: Map<int, Slab>, b: Map<int, Slab>) -> bool {
    &&& forall|k: int|
        #![trigger a.contains_key(k)]
        #![trigger b.contains_key(k)]
        a.contains_key(k) <==> b.contains_key(k)
    &&& forall|k: int| #[trigger] a.contains_key(k) ==> same_state(a[k], b[k])
}

pub proof fn lemma_stats_same(
    stats: Map<int, DiskStats>,
    a: Map<int, Slab>,
    b: Map<int, Slab>,
    n: int,
)
    requires
        stats_ok(stats, a, n),
        same_states(a, b),
    ensures
        stats_ok(stats, b, n),
{
    reveal(stats_ok);
    assert forall|d: int| #[trigger] stats.contains_key(d) implies ({
        &&& stats[d].alloc_bytes == sum_slabs(b, n, alloc_on(d))
        &&& stats[d].free_bytes == sum_slabs(b, n, free_on(d))
        &&& stats[d].noalloc_bytes <= stats[d].free_bytes
    }) by {
        lemma_sum_slabs_same(a, n, alloc_on(d), b, alloc_on(d));
        lemma_sum_slabs_same(a, n, free_on(d), b, free_on(d));
    }
}

pub proof fn lemma_records_same(
    access: SlabAccess,
    a: Map<int, Slab>,
    b: Map<int, Slab>,
    dirty: Seq<SlabId>,
    first: Seq<SpaceMapEntry>,
    second: Seq<SpaceMapEntry>,
    cursor: u64,
)
    requires
        logs_ok(access, a, first, second, cursor),
        dirty_ok(dirty, a),
        slabs_ok(access, a),
        same_states(a, b),
    ensures
        logs_ok(access, b, first, second, cursor),
        dirty_ok(dirty, b),
        slabs_ok(access, b),
{
    assert forall|id: SlabId|
        #[trigger] record_of(b, id.0 as int) == record_of(a, id.0 as int) by {
        assert(a.contains_key(id.0 as int) <==> b.contains_key(id.0 as int));
    }
    lemma_logs_same(access, a, b, first, second, cursor);
    reveal(dirty_ok);
    assert forall|id: int| #[trigger] b.contains_key(id) implies slab_ok(access, b[id], id) by {
        assert(a.contains_key(id));
    }
}

pub proof fn lemma_exact_same(
    stats: Map<int, DiskStats>,
    noalloc: Map<int, Vec<SlabId>>,
    a: Map<int, Slab>,
    b: Map<int, Slab>,
)
    requires
        noalloc_exact(stats, noalloc, a),
        forall|d: int| #[trigger] blocked(noalloc, b, d) == blocked(noalloc, a, d),
    ensures
        noalloc_exact(stats, noalloc, b),
{
    reveal(noalloc_exact);
}

/// The buckets differ at most in which slab comes next.
pub open spec fn same_members(a: SlabAllocationBuckets, b: SlabAllocationBuckets) -> bool {
    &&& a.len() == b.len()
    &&& forall|i: int|
        0 <= i < a.len() ==> {
            &&& #[trigger] b.size(i) == a.size(i)
            &&& b.bucket(i).is_extent_based == a.bucket(i).is_extent_based
            &&& b.bucket(i).by_freeness@ == a.bucket(i).by_freeness@
        }
}

pub proof fn lemma_members_trans(
    a: SlabAllocationBuckets,
    b: SlabAllocationBuckets,
    c: SlabAllocationBuckets,
)
    requires
        same_members(a, b),
        same_members(b, c),
    ensures
        same_members(a, c),
{
    assert forall|i: int| 0 <= i < a.len() implies {
        &&& #[trigger] c.size(i) == a.size(i)
        &&& c.bucket(i).is_extent_based == a.bucket(i).is_extent_based
        &&& c.bucket(i).by_freeness@ == a.bucket(i).by_freeness@
    } by {
        assert(b.size(i) == a.size(i));
        assert(c.size(i) == b.size(i));
    }
}

/// The buckets are right whichever slab comes next.
pub proof fn lemma_same_members(
    a: SlabAllocationBuckets,
    b: SlabAllocationBuckets,
    m: Map<int, Slab>,
    ids: Set<int>,
    slab_size: u32,
)
    requires
        buckets_ok(a, m, ids),
        sizes_ok(a, slab_size),
        same_members(a, b),
        b.wf(),
    ensures
        buckets_ok(b, m, ids),
        sizes_ok(b, slab_size),
{
    reveal(buckets_ok);
    assert forall|i: int, k: int|
        0 <= i < b.len() && 0 <= k < b.bucket(i).by_freeness@.len() implies ({
        let id = (#[trigger] b.bucket(i).by_freeness@[k]).slab_id.0 as int;
        &&& m.contains_key(id)
        &&& m[id].live()
        &&& home(b, m[id], i)
        &&& ids.contains(id)
    }) by {
        assert(b.size(i) == a.size(i));
        assert(a.bucket(i).by_freeness@[k] == b.bucket(i).by_freeness@[k]);
    }
    assert forall|id: int| #[trigger] m.contains_key(id) && m[id].live() implies exists|i: int|
        #[trigger] home(b, m[id], i) && (has_slab(b.bucket(i).by_freeness@, m[id].id)
            <==> ids.contains(id)) by {
        let i = choose|i: int| #[trigger]
            home(a, m[id], i) && (has_slab(a.bucket(i).by_freeness@, m[id].id) <==> ids.contains(
                id,
            ));
        assert(b.size(i) == a.size(i));
        assert(home(b, m[id], i));
    }
    assert forall|i: int| 0 <= i < b.len() implies ({
        &&& (#[trigger] b.size(i)) > 0
        &&& b.size(i) % 512 == 0
        &&& !b.bucket(i).is_extent_based ==> b.size(i) <= slab_size
    }) by {
        assert(a.size(i) > 0);
    }
}

/// The space of the slabs of a disk fits in the statistics.
pub proof fn lemma_sum_fits(
    access: SlabAccess,
    m: Map<int, Slab>,
    f: spec_fn(Slab) -> int,
)
    requires
        access.wf(),
        slabs_ok(access, m),
        forall|k: int| #[trigger] m.contains_key(k) ==> 0 <= f(m[k]) <= m[k].whole().len(),
    ensures
        0 <= sum_slabs(m, access.next_slab_id.0 as int, f) <= u64::MAX,
{
    let n = access.next_slab_id.0 as int;
    assert forall|k: int| #[trigger] m.contains_key(k) implies 0 <= f(m[k]) <= access.slab_size by {
        let id = SlabId(k as u64);
        assert(slab_ok(access, m[k], k));
        access.lemma_slab_extent(access.holder(id), id);
        let e = access.slab_extent(id);
        m[k].lemma_within(e);
        m[k].lemma_bytes();
        crate::bitmap_range_iterator::lemma_span_len(e.start(), e.size as int);
        vstd::set_lib::lemma_len_subset(
            m[k].whole(),
            crate::range_tree::span(e.start(), e.size as int),
        );
    }
    lemma_sum_slabs_bound(m, n, f, access.slab_size as int);
    let ids = ids_below(m, n);
    assert forall|x: int| ids.contains(x) implies 0 <= x <= u64::MAX && access.valid(
        SlabId(x as u64),
    ) by {
        assert(m.contains_key(x));
        assert(slab_ok(access, m[x], x));
    }
    access.lemma_ids_bound(ids);
    let c = ids.len() as int;
    let z = access.slab_size as int;
    let k = access.num_slabs as int;
    assert(c * z <= k * z) by (nonlinear_arith)
        requires
            0 <= c <= k,
            z >= 0,
    ;
}

/// What a slab adds to a sum.
pub open spec fn part(m: Map<int, Slab>, id: int, f: spec_fn(Slab) -> int) -> int {
    if m.contains_key(id) {
        f(m[id])
    } else {
        0
    }
}

/// The statistics after one slab has changed, come or gone.
pub proof fn lemma_stats_change(
    stats: Map<int, DiskStats>,
    stats2: Map<int, DiskStats>,
    a: Map<int, Slab>,
    b: Map<int, Slab>,
    id: int,
    n: int,
    d: int,
)
    requires
        stats_ok(stats, a, n),
        0 <= id < n,
        a.remove(id) =~= b.remove(id),
        a.contains_key(id) ==> a[id].disk() == d,
        b.contains_key(id) ==> b[id].disk() == d,
        stats.contains_key(d),
        stats2 =~= stats.insert(d, stats2[d]),
        stats2[d].alloc_bytes == stats[d].alloc_bytes + part(b, id, alloc_on(d)) - part(
            a,
            id,
            alloc_on(d),
        ),
        stats2[d].free_bytes == stats[d].free_bytes + part(b, id, free_on(d)) - part(
            a,
            id,
            free_on(d),
        ),
        stats2[d].noalloc_bytes <= stats2[d].free_bytes,
    ensures
        stats_ok(stats2, b, n),
{
    reveal(stats_ok);
    assert forall|k: int| #[trigger] b.contains_key(k) implies stats2.contains_key(
        b[k].disk(),
    ) by {
        if k != id {
            assert(b.remove(id).contains_key(k));
            assert(a.remove(id).contains_key(k));
            assert(a.remove(id)[k] == b.remove(id)[k]);
            assert(a.contains_key(k));
        }
    }
    assert forall|x: int| #[trigger] stats2.contains_key(x) implies ({
        &&& stats2[x].alloc_bytes == sum_slabs(b, n, alloc_on(x))
        &&& stats2[x].free_bytes == sum_slabs(b, n, free_on(x))
        &&& stats2[x].noalloc_bytes <= stats2[x].free_bytes
    }) by {
        lemma_sum_slabs_change(a, b, id, n, alloc_on(x));
        lemma_sum_slabs_change(a, b, id, n, free_on(x));
        if x != d {
            assert(stats.contains_key(x));
            assert(stats2[x] == stats[x]);
        }
    }
}

/// The statistics of a disk are at least what each of its slabs adds to them.
pub proof fn lemma_stats_at_least(
    access: SlabAccess,
    stats: Map<int, DiskStats>,
    m: Map<int, Slab>,
    id: int,
)
    requires
        access.wf(),
        slabs_ok(access, m),
        stats_ok(stats, m, access.next_slab_id.0 as int),
        m.contains_key(id),
    ensures
        0 <= id < access.next_slab_id.0,
        stats.contains_key(m[id].disk()),
        m[id].allocated_bytes().len() <= stats[m[id].disk()].alloc_bytes,
        m[id].free_bytes().len() <= stats[m[id].disk()].free_bytes,
{
    reveal(stats_ok);
    let n = access.next_slab_id.0 as int;
    let d = m[id].disk();
    assert(slab_ok(access, m[id], id));
    access.lemma_id_below_next(SlabId(id as u64));
    lemma_sum_slabs_at_least(m, n, alloc_on(d), id);
    lemma_sum_slabs_at_least(m, n, free_on(d), id);
}

/// The statistics of a disk fit in their type after any change of one of its slabs.
pub proof fn lemma_stats_fit(
    access: SlabAccess,
    m: Map<int, Slab>,
    d: int,
)
    requires
        access.wf(),
        slabs_ok(access, m),
    ensures
        0 <= sum_slabs(m, access.next_slab_id.0 as int, alloc_on(d)) <= u64::MAX,
        0 <= sum_slabs(m, access.next_slab_id.0 as int, free_on(d)) <= u64::MAX,
{
    assert forall|k: int| #[trigger] m.contains_key(k) implies 0 <= alloc_on(d)(m[k])
        <= m[k].whole().len() && 0 <= free_on(d)(m[k]) <= m[k].whole().len() by {
        assert(slab_ok(access, m[k], k));
        m[k].lemma_sizes();
    }
    lemma_sum_fits(access, m, alloc_on(d));
    lemma_sum_fits(access, m, free_on(d));
}

pub proof fn lemma_same_kinds_insert(a: Map<int, Slab>, b: Map<int, Slab>, id: int)
    requires
        a.contains_key(id),
        b.contains_key(id),
        a.remove(id) =~= b.remove(id),
        same_kind(a[id], b[id]),
    ensures
        same_kinds(a, b),
{
    assert forall|k: int|
        #![trigger a.contains_key(k)]
        #![trigger b.contains_key(k)]
        a.contains_key(k) <==> b.contains_key(k) by {
        if k != id {
            assert(a.remove(id).contains_key(k) == b.remove(id).contains_key(k));
        }
    }
    assert forall|k: int| #[trigger] a.contains_key(k) implies same_kind(a[k], b[k]) by {
        if k != id {
            assert(a.remove(id).contains_key(k));
            assert(a.remove(id)[k] == b.remove(id)[k]);
        }
    }
}

/// The dirty slabs are still listed after one slab was changed and listed.
pub proof fn lemma_dirty_change(
    dirty: Seq<SlabId>,
    dirty2: Seq<SlabId>,
    a: Map<int, Slab>,
    b: Map<int, Slab>,
    id: int,
)
    requires
        dirty_ok(dirty, a),
        a.remove(id) =~= b.remove(id),
        b.contains_key(id) ==> {
            &&& b[id].is_dirty ==> dirty2.contains(b[id].id)
            &&& !b[id].is_dirty ==> b[id].clean()
            &&& b[id].is_dirty ==> b[id].live()
        },
        forall|s: SlabId| #[trigger] dirty.contains(s) ==> dirty2.contains(s),
    ensures
        dirty_ok(dirty2, b),
{
    reveal(dirty_ok);
    assert forall|k: int| #[trigger] b.contains_key(k) implies ({
        &&& b[k].is_dirty ==> dirty2.contains(b[k].id)
        &&& !b[k].is_dirty ==> b[k].clean()
        &&& b[k].is_dirty ==> b[k].live()
    }) by {
        if k != id {
            assert(b.remove(id).contains_key(k));
            assert(a.remove(id).contains_key(k));
            assert(a.remove(id)[k] == b.remove(id)[k]);
            assert(a.contains_key(k));
        }
    }
}

/// The slab is filed under its number.
pub open spec fn ids_match(m: Map<int, Slab>, x: int) -> bool {
    m[x].id.0 == x
}

/// A new slab in use does not change which disks are blocked.
pub proof fn lemma_noalloc_add(
    noalloc: Map<int, Vec<SlabId>>,
    evacuating: Seq<SlabId>,
    a: Map<int, Slab>,
    id: int,
    slab: Slab,
)
    requires
        noalloc_ok(noalloc, evacuating, a),
        !a.contains_key(id),
        slab.live(),
        slab.id.0 == id,
        !blocked(noalloc, a, slab.disk()),
    ensures
        noalloc_ok(noalloc, evacuating, a.insert(id, slab)),
        forall|d: int| #[trigger]
            blocked(noalloc, a.insert(id, slab), d) == blocked(noalloc, a, d),
{
    reveal(noalloc_ok);
    let b = a.insert(id, slab);
    assert forall|d: int| #[trigger] blocked(noalloc, b, d) == blocked(noalloc, a, d) by {
        if noalloc.contains_key(d) {
            assert forall|k: int| 0 <= k < noalloc[d]@.len() implies a[(
            #[trigger] noalloc[d]@[k]).0 as int] == b[noalloc[d]@[k].0 as int] by {
                assert(a.contains_key(noalloc[d]@[k].0 as int));
            }
        }
    }
    assert forall|x: SlabId| #[trigger] evacuating.contains(x) <==> b.contains_key(x.0 as int)
        && !b[x.0 as int].live() by {
        assert(evacuating.contains(x) ==> a.contains_key(x.0 as int));
    }
    assert forall|x: int|
        #[trigger] b.contains_key(x) && noalloc.contains_key(b[x].disk()) && (!b[x].live()
            || blocked(noalloc, b, b[x].disk())) implies noalloc[b[x].disk()]@.contains(
        b[x].id,
    ) by {
        if x != id {
            assert(a.contains_key(x));
        }
    }
}

/// The slabs that can be allocated from, after one was added.
pub proof fn lemma_inside_add(
    noalloc: Map<int, Vec<SlabId>>,
    evacuating: Seq<SlabId>,
    a: Map<int, Slab>,
    id: int,
    slab: Slab,
    aside: Set<int>,
)
    requires
        noalloc_ok(noalloc, evacuating, a),
        !a.contains_key(id),
        !aside.contains(id),
        slab.live(),
        slab.id.0 == id,
        !blocked(noalloc, a, slab.disk()),
    ensures
        inside(noalloc, a.insert(id, slab), aside) == inside(noalloc, a, aside).insert(id),
{
    lemma_noalloc_add(noalloc, evacuating, a, id, slab);
    let b = a.insert(id, slab);
    assert forall|x: int| inside(noalloc, b, aside).contains(x) <==> inside(
        noalloc,
        a,
        aside,
    ).insert(id).contains(x) by {
        if b.contains_key(x) {
            assert(blocked(noalloc, b, b[x].disk()) == blocked(noalloc, a, b[x].disk()));
        }
    }
    assert(inside(noalloc, b, aside) =~= inside(noalloc, a, aside).insert(id));
}

/// A slab more in one bucket, and the others as before.
pub open spec fn bucket_gained(
    a: SlabAllocationBuckets,
    b: SlabAllocationBuckets,
    j: int,
    id: SlabId,
) -> bool {
    &&& b.len() == a.len()
    &&& 0 <= j < a.len()
    &&& forall|i: int|
        0 <= i < a.len() ==> #[trigger] b.size(i) == a.size(i) && b.bucket(i).is_extent_based
            == a.bucket(i).is_extent_based
    &&& forall|i: int| 0 <= i < a.len() && i != j ==> #[trigger] b.bucket(i) == a.bucket(i)
    &&& b.bucket(j).wf()
    &&& forall|e: SlabBucketEntry|
        #[trigger] b.bucket(j).by_freeness@.contains(e) ==> a.bucket(j).by_freeness@.contains(e)
            || e.slab_id == id
    &&& forall|e: SlabBucketEntry|
        a.bucket(j).by_freeness@.contains(e) ==> #[trigger] b.bucket(j).by_freeness@.contains(e)
    &&& has_slab(b.bucket(j).by_freeness@, id)
}

/// The buckets after a slab was added to its bucket.
pub proof fn lemma_buckets_add(
    a: SlabAllocationBuckets,
    b: SlabAllocationBuckets,
    m: Map<int, Slab>,
    m2: Map<int, Slab>,
    ids: Set<int>,
    id: SlabId,
    j: int,
    slab_size: u32,
)
    requires
        buckets_ok(a, m, ids),
        sizes_ok(a, slab_size),
        !ids.contains(id.0 as int),
        m2.contains_key(id.0 as int),
        m2[id.0 as int].live(),
        m2[id.0 as int].id == id,
        m.remove(id.0 as int) =~= m2.remove(id.0 as int),
        home(a, m2[id.0 as int], j),
        bucket_gained(a, b, j, id),
        forall|x: int| #[trigger] m.contains_key(x) ==> ids_match(m, x),
    ensures
        buckets_ok(b, m2, ids.insert(id.0 as int)),
        sizes_ok(b, slab_size),
{
    reveal(buckets_ok);
    let n = id.0 as int;
    let ids2 = ids.insert(n);
    assert forall|x: int| x != n implies (#[trigger] m2.contains_key(x) == m.contains_key(x)) && (
    m.contains_key(x) ==> m2[x] == m[x]) by {
        assert(m2.remove(n).contains_key(x) == m2.contains_key(x));
        assert(m.remove(n).contains_key(x) == m.contains_key(x));
        assert(m.remove(n)[x] == m2.remove(n)[x]);
    }
    assert forall|i: int, k: int| 0 <= i < k < b.len() implies #[trigger] b.size(i)
        < #[trigger] b.size(k) by {
        assert(a.size(i) < a.size(k));
    }
    assert forall|i: int| 0 <= i < b.len() implies (#[trigger] b.bucket(i)).wf() by {
        assert(a.bucket(i).wf());
    }
    assert forall|i: int| 0 <= i < b.len() implies ({
        &&& (#[trigger] b.size(i)) > 0
        &&& b.size(i) % 512 == 0
        &&& !b.bucket(i).is_extent_based ==> b.size(i) <= slab_size
    }) by {
        assert(a.size(i) > 0);
    }
    assert forall|i: int, k: int|
        0 <= i < b.len() && 0 <= k < b.bucket(i).by_freeness@.len() implies ({
        let x = (#[trigger] b.bucket(i).by_freeness@[k]).slab_id.0 as int;
        &&& m2.contains_key(x)
        &&& m2[x].live()
        &&& home(b, m2[x], i)
        &&& ids2.contains(x)
    }) by {
        let e = b.bucket(i).by_freeness@[k];
        let x = e.slab_id.0 as int;
        assert(b.size(i) == a.size(i));
        assert(b.bucket(i).by_freeness@.contains(e));
        if i != j {
            assert(b.bucket(i) == a.bucket(i));
        }
        if i != j || a.bucket(i).by_freeness@.contains(e) {
            let k0 = choose|k0: int|
                0 <= k0 < a.bucket(i).by_freeness@.len() && a.bucket(i).by_freeness@[k0] == e;
            assert(a.bucket(i).by_freeness@[k0].slab_id.0 == x);
            assert(m.contains_key(x));
            assert(home(a, m[x], i));
            assert(x != n);
            assert(m2.contains_key(x));
        } else {
            assert(x == n);
        }
    }
    assert forall|x: int| #[trigger] m2.contains_key(x) && m2[x].live() implies exists|i: int|
        #[trigger] home(b, m2[x], i) && (has_slab(b.bucket(i).by_freeness@, m2[x].id)
            <==> ids2.contains(x)) by {
        if x == n {
            assert(b.size(j) == a.size(j));
            assert(home(b, m2[x], j));
        } else {
            assert(m.contains_key(x));
            assert(ids_match(m, x));
            let i = choose|i: int| #[trigger]
                home(a, m[x], i) && (has_slab(a.bucket(i).by_freeness@, m[x].id)
                    <==> ids.contains(x));
            assert(b.size(i) == a.size(i));
            assert(home(b, m2[x], i));
            if i != j {
                assert(b.bucket(i) == a.bucket(i));
            } else {
                let s1 = a.bucket(j).by_freeness@;
                let s2 = b.bucket(j).by_freeness@;
                if has_slab(s1, m[x].id) {
                    let k = choose|k: int|
                        0 <= k < s1.len() && (#[trigger] s1[k]).slab_id == m[x].id;
                    assert(s1.contains(s1[k]));
                    assert(s2.contains(s1[k]));
                    let k2 = choose|k2: int| 0 <= k2 < s2.len() && s2[k2] == s1[k];
                    assert(s2[k2].slab_id == m[x].id);
                }
                if has_slab(s2, m[x].id) {
                    let k = choose|k: int|
                        0 <= k < s2.len() && (#[trigger] s2[k]).slab_id == m[x].id;
                    assert(s2.contains(s2[k]));
                    assert(s1.contains(s2[k]));
                    let k1 = choose|k1: int| 0 <= k1 < s1.len() && s1[k1] == s2[k];
                    assert(s1[k1].slab_id == m[x].id);
                }
            }
        }
    }
}

/// The buckets after some slabs were taken out of them.
pub proof fn lemma_buckets_less(
    a: SlabAllocationBuckets,
    b: SlabAllocationBuckets,
    m: Map<int, Slab>,
    ids: Set<int>,
    gone: Set<int>,
    slab_size: u32,
)
    requires
        buckets_ok(a, m, ids),
        sizes_ok(a, slab_size),
        forall|x: int| #[trigger] m.contains_key(x) ==> ids_match(m, x),
        b.len() == a.len(),
        forall|i: int|
            0 <= i < a.len() ==> {
                &&& #[trigger] b.size(i) == a.size(i)
                &&& b.bucket(i).is_extent_based == a.bucket(i).is_extent_based
                &&& b.bucket(i).wf()
                &&& forall|e: SlabBucketEntry|
                    #[trigger] b.bucket(i).by_freeness@.contains(e) <==> a.bucket(
                        i,
                    ).by_freeness@.contains(e) && !gone.contains(e.slab_id.0 as int)
            },
    ensures
        buckets_ok(b, m, ids.difference(gone)),
        sizes_ok(b, slab_size),
{
    reveal(buckets_ok);
    assert forall|i: int, k: int| 0 <= i < k < b.len() implies #[trigger] b.size(i)
        < #[trigger] b.size(k) by {
        assert(a.size(i) < a.size(k));
    }
    assert forall|i: int| 0 <= i < b.len() implies (#[trigger] b.bucket(i)).wf() by {
        assert(b.size(i) == a.size(i));
    }
    assert forall|i: int| 0 <= i < b.len() implies ({
        &&& (#[trigger] b.size(i)) > 0
        &&& b.size(i) % 512 == 0
        &&& !b.bucket(i).is_extent_based ==> b.size(i) <= slab_size
    }) by {
        assert(a.size(i) > 0);
    }
    assert forall|i: int, k: int|
        0 <= i < b.len() && 0 <= k < b.bucket(i).by_freeness@.len() implies ({
        let x = (#[trigger] b.bucket(i).by_freeness@[k]).slab_id.0 as int;
        &&& m.contains_key(x)
        &&& m[x].live()
        &&& home(b, m[x], i)
        &&& ids.difference(gone).contains(x)
    }) by {
        let e = b.bucket(i).by_freeness@[k];
        assert(b.size(i) == a.size(i));
        assert(b.bucket(i).by_freeness@.contains(e));
        let k0 = choose|k0: int|
            0 <= k0 < a.bucket(i).by_freeness@.len() && a.bucket(i).by_freeness@[k0] == e;
        assert(a.bucket(i).by_freeness@[k0].slab_id == e.slab_id);
        assert(home(a, m[e.slab_id.0 as int], i));
    }
    assert forall|x: int| #[trigger] m.contains_key(x) && m[x].live() implies exists|i: int|
        #[trigger] home(b, m[x], i) && (has_slab(b.bucket(i).by_freeness@, m[x].id)
            <==> ids.difference(gone).contains(x)) by {
        assert(ids_match(m, x));
        let i = choose|i: int| #[trigger]
            home(a, m[x], i) && (has_slab(a.bucket(i).by_freeness@, m[x].id) <==> ids.contains(x));
        assert(b.size(i) == a.size(i));
        assert(home(b, m[x], i));
        let s1 = a.bucket(i).by_freeness@;
        let s2 = b.bucket(i).by_freeness@;
        if has_slab(s2, m[x].id) {
            let k = choose|k: int| 0 <= k < s2.len() && (#[trigger] s2[k]).slab_id == m[x].id;
            assert(s2.contains(s2[k]));
            let k1 = choose|k1: int| 0 <= k1 < s1.len() && s1[k1] == s2[k];
            assert(s1[k1].slab_id == m[x].id);
        }
        if has_slab(s1, m[x].id) && !gone.contains(x) {
            let k = choose|k: int| 0 <= k < s1.len() && (#[trigger] s1[k]).slab_id == m[x].id;
            assert(s1.contains(s1[k]));
            assert(s2.contains(s1[k]));
            let k2 = choose|k2: int| 0 <= k2 < s2.len() && s2[k2] == s1[k];
            assert(s2[k2].slab_id == m[x].id);
        }
    }
}

/// Only slabs in use can be in a bucket.
pub proof fn lemma_buckets_live(
    buckets: SlabAllocationBuckets,
    m: Map<int, Slab>,
    ids: Set<int>,
    ids2: Set<int>,
)
    requires
        buckets_ok(buckets, m, ids),
        forall|x: int|
            #[trigger] m.contains_key(x) && m[x].live() ==> (ids.contains(x) <==> ids2.contains(
                x,
            )),
    ensures
        buckets_ok(buckets, m, ids2),
{
    reveal(buckets_ok);
    assert forall|x: int| #[trigger] m.contains_key(x) && m[x].live() implies exists|i: int|
        #[trigger] home(buckets, m[x], i) && (has_slab(
            buckets.bucket(i).by_freeness@,
            m[x].id,
        ) <==> ids2.contains(x)) by {
        let i = choose|i: int| #[trigger]
            home(buckets, m[x], i) && (has_slab(buckets.bucket(i).by_freeness@, m[x].id)
                <==> ids.contains(x));
        assert(home(buckets, m[x], i));
    }
}

} // verus!
