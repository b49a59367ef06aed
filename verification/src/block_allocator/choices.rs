//! Which slab an allocation is from, and which place in the slab it gets.
use super::bitmap_slab::{lemma_scaled_span, lemma_unit_of, slots_of, MAX_SLOTS};
use super::buckets::{
    before, default_buckets, ordered, SlabAllocationBuckets, SlabBucket, SlabBucketEntry,
};
use super::extent_slab::{first_fit, no_fit};
use super::slab::{usable_bytes, Slab, SlabEnum};
use super::{allocation, dirtied, first_room, tried, BlockAllocator, SlabPhysType};
use crate::base_types::{law_location_round_trip, Extent};
use crate::range_tree::{runs_of, segs_have, segs_set};
use crate::slab_allocator::{lemma_multiple_of_sector, SlabAllocator, SlabId};
use vstd::prelude::*;

verus! {

/// A request is served by the bucket with the least size that is large enough.
pub proof fn law_smallest_bucket_serves(
    buckets: SlabAllocationBuckets,
    i: int,
    request_size: int,
    j: int,
)
    requires
        buckets.wf(),
        buckets.serves(i, request_size),
        0 <= j < buckets.len(),
    ensures
        buckets.size(i) >= request_size,
        buckets.size(j) >= request_size ==> buckets.size(i) <= buckets.size(j) && i <= j,
        buckets.serves(j, request_size) ==> i == j,
{
    if i < j {
        assert(buckets.size(i) < buckets.size(j));
    } else if j < i {
        assert(buckets.size(j) < request_size);
    }
}

/// A request is served exactly if some bucket is large enough.
pub proof fn law_request_is_served(
    buckets: SlabAllocationBuckets,
    request_size: int,
    j: int,
) -> (i: int)
    requires
        0 <= j < buckets.len(),
        buckets.size(j) >= request_size,
    ensures
        0 <= i <= j,
        buckets.serves(i, request_size),
    decreases j,
{
    if exists|k: int| 0 <= k < j && #[trigger] buckets.size(k) >= request_size {
        let k = choose|k: int| 0 <= k < j && #[trigger] buckets.size(k) >= request_size;
        law_request_is_served(buckets, request_size, k)
    } else {
        j
    }
}

/// The slabs of a bucket are in order of how much of them is in use. What is least in use comes
/// first, and of those that are the same the one with the lowest number.
pub proof fn law_freest_first(entries: Seq<SlabBucketEntry>, i: int, j: int)
    requires
        ordered(entries),
        0 <= i < j < entries.len(),
    ensures
        entries[i].allocated_space <= entries[j].allocated_space,
        entries[i].allocated_space == entries[j].allocated_space ==> entries[i].slab_id.0
            < entries[j].slab_id.0,
{
    assert(before(entries[i], entries[j]));
}

/// An allocation tries the slab that was used last; and those behind it, until all have been
/// tried once.
pub proof fn law_tried_slabs(bucket: SlabBucket, last: SlabBucketEntry, i: int)
    requires
        bucket.wf(),
        0 <= i < bucket.by_freeness@.len(),
        bucket.by_freeness@[i] == last,
    ensures
        bucket.last_allocated is None ==> tried(bucket).len() == 0,
        bucket.last_allocated == Some(last) && bucket.been_through_once ==> tried(bucket)
            == seq![last],
        bucket.last_allocated == Some(last) && !bucket.been_through_once ==> {
            &&& tried(bucket).len() == bucket.by_freeness@.len() - i
            &&& forall|k: int|
                0 <= k < tried(bucket).len() ==> #[trigger] tried(bucket)[k]
                    == bucket.by_freeness@[i + k]
        },
{
    let s = bucket.by_freeness@;
    if bucket.last_allocated == Some(last) && !bucket.been_through_once {
        let f = s.index_of(last);
        assert(s.contains(last));
        assert(0 <= f < s.len() && s[f] == last);
        if f < i {
            assert(before(s[f], s[i]));
        } else if i < f {
            assert(before(s[i], s[f]));
        }
    }
}

/// An allocation fails only if none of the slabs that are tried has room, and there is no slab
/// left beyond those that are reserved.
pub proof fn law_allocation_fails(
    a: BlockAllocator,
    b: BlockAllocator,
    sa: SlabAllocator,
    sb: SlabAllocator,
    index: int,
    size: u32,
)
    requires
        allocation(a, b, sa, sb, index, size, None),
    ensures
        forall|j: int|
            0 <= j < tried(a.slab_buckets.bucket(index)).len() ==> !a.slabs@[(
            #[trigger] tried(a.slab_buckets.bucket(index))[j]).slab_id.0 as int].has_room(
                size as int,
            ),
        sa.allocatable@.len() <= sa.reserved_slabs,
        sb == sa,
        b.slab_buckets.bucket(index).last_allocated is None,
{
    let list = tried(a.slab_buckets.bucket(index));
    let k = choose|k: int| #[trigger]
        first_room(a.slabs@, list, size as int, k) && (k < list.len() ==> false);
}

/// A new slab is used only if none of the slabs that are tried has room, and it is the last one
/// that was made free. Else the block is from the first of them that has room.
pub proof fn law_allocation_from(
    a: BlockAllocator,
    b: BlockAllocator,
    sa: SlabAllocator,
    sb: SlabAllocator,
    index: int,
    size: u32,
    r: Extent,
    k: int,
)
    requires
        allocation(a, b, sa, sb, index, size, Some(r)),
        0 <= k <= tried(a.slab_buckets.bucket(index)).len(),
        forall|j: int|
            0 <= j < k ==> !a.slabs@[(#[trigger] tried(
                a.slab_buckets.bucket(index),
            )[j]).slab_id.0 as int].has_room(size as int),
        k < tried(a.slab_buckets.bucket(index)).len() ==> a.slabs@[tried(
            a.slab_buckets.bucket(index),
        )[k].slab_id.0 as int].has_room(size as int),
    ensures
        k < tried(a.slab_buckets.bucket(index)).len() ==> {
            let entry = tried(a.slab_buckets.bucket(index))[k];
            &&& sb == sa
            &&& a.slabs@[entry.slab_id.0 as int].picks(size as int, r)
            &&& b.slab_buckets.bucket(index).last_allocated == Some(entry)
        },
        k == tried(a.slab_buckets.bucket(index)).len() ==> {
            &&& sa.allocatable@.len() > sa.reserved_slabs
            &&& sb.allocatable@ == sa.allocatable@.drop_last()
            &&& r.location == sa.access.slab_extent(sa.allocatable@.last()).location
            &&& b.slabs@.contains_key(sa.allocatable@.last().0 as int)
        },
{
    let list = tried(a.slab_buckets.bucket(index));
    assert forall|l: int| #[trigger] first_room(a.slabs@, list, size as int, l) implies l == k by {
        if l < k {
            assert(!a.slabs@[list[l].slab_id.0 as int].has_room(size as int));
        } else if k < l {
            assert(!a.slabs@[list[k].slab_id.0 as int].has_room(size as int));
        }
    }
}

/// In a slab of slots the first slot that is free is taken: no free byte is before it.
pub proof fn law_first_slot_is_picked(slab: Slab, size: int, extent: Extent, o: int)
    requires
        slab.wf(),
        slab.inner is BitmapBased,
        slab.picks(size, extent),
        slab.free_bytes().contains(o),
    ensures
        extent.size == slab.inner->BitmapBased_0.slot_size,
        extent.disk_no() == slab.disk(),
        extent.start() <= o,
{
    let s = slab.inner->BitmapBased_0;
    let slot = choose|slot: int|
        {
            &&& #[trigger] s.allocatable@.contains(slot)
            &&& forall|o: int| s.allocatable@.contains(o) ==> slot <= o
            &&& extent == s.slot_extent(slot)
        };
    let z = s.slot_size as int;
    let p = (o - s.base()) / z;
    assert(s.allocatable@.contains(p));
    assert(0 <= slot < s.total_slots);
    assert(slot * z <= p * z) by (nonlinear_arith)
        requires
            slot <= p,
            z > 0,
    ;
    assert(p * z <= o - s.base()) by (nonlinear_arith)
        requires
            z > 0,
            p == (o - s.base()) / z,
    ;
    assert(0 <= slot * z <= s.total_slots * z) by (nonlinear_arith)
        requires
            0 <= slot <= s.total_slots,
            z > 0,
    ;
    assert(slot * z % 512 == 0) by {
        let q = z / 512;
        assert(slot * (512 * q) == 512 * (slot * q)) by (nonlinear_arith);
    }
    law_location_round_trip(s.location.disk_no(), s.base() + slot * z);
}

/// In a slab of extents the search goes on where the last one ended: the first free segment from
/// there on that is large enough is taken, and the first one of all if there is none.
pub proof fn law_next_segment_is_picked(slab: Slab, size: int, extent: Extent, j: int)
    requires
        slab.wf(),
        slab.inner is ExtentBased,
        slab.picks(size, extent),
        0 < size <= u64::MAX,
        0 <= j < slab.inner->ExtentBased_0.allocatable.segs@.len(),
        slab.inner->ExtentBased_0.allocatable.segs@[j].1 >= size,
    ensures
        ({
            let s = slab.inner->ExtentBased_0;
            let seg = s.allocatable.segs@[j];
            let last = s.last_location as int;
            &&& extent.size == size
            &&& exists|i: int|
                0 <= i < s.allocatable.segs@.len() && (#[trigger] s.allocatable.segs@[i]).1 >= size
                    && extent == Extent::at(
                    s.location.disk_no(),
                    s.allocatable.segs@[i].0 as int,
                    size,
                ) && (last <= seg.0 ==> last <= s.allocatable.segs@[i].0
                    && s.allocatable.segs@[i].0 <= seg.0) && (s.allocatable.segs@[i].0 < last
                    ==> s.allocatable.segs@[i].0 <= seg.0)
        }),
{
    let s = slab.inner->ExtentBased_0;
    let segs = s.allocatable.segs@;
    let last = s.last_location as int;
    let i = choose|i: int|
        {
            &&& first_fit(segs, size, last, u64::MAX as int, i) || no_fit(
                segs,
                size,
                last,
                u64::MAX as int,
            ) && first_fit(segs, size, 0, last, i)
            &&& extent == Extent::at(s.location.disk_no(), (#[trigger] segs[i]).0 as int, size)
        };
    assert(s.allocatable.wf());
    if i < j {
        assert(segs[i].0 + segs[i].1 < segs[j].0);
    } else if j < i {
        assert(segs[j].0 + segs[j].1 < segs[i].0);
    }
    assert(segs[i].1 >= size);
}

/// A slab has room exactly if a slot is free, or a free segment is large enough.
pub proof fn law_room(slab: Slab, size: int)
    requires
        slab.wf(),
        size > 0,
    ensures
        slab.inner matches SlabEnum::BitmapBased(s) ==> (slab.has_room(size) <==> exists|slot: int|
            s.allocatable@.contains(slot)),
        slab.inner matches SlabEnum::ExtentBased(s) ==> (slab.has_room(size) <==> exists|i: int|
            0 <= i < s.allocatable.segs@.len() && (#[trigger] s.allocatable.segs@[i]).1 >= size),
        slab.inner is Evacuating ==> !slab.has_room(size),
{
    match slab.inner {
        SlabEnum::BitmapBased(s) => {
            if s.allocatable@ != Set::<int>::empty() {
                assert(exists|slot: int| s.allocatable@.contains(slot)) by {
                    if forall|slot: int| !s.allocatable@.contains(slot) {
                        assert(s.allocatable@ =~= Set::<int>::empty());
                    }
                }
            }
        },
        SlabEnum::ExtentBased(s) => {
            assert(s.allocatable.wf());
        },
        SlabEnum::Evacuating(_) => {},
    }
}

/// As many slots are used as fit in the slab, and as a bitmap can have.
pub proof fn law_slots_of(slab_size: int, slot_size: int)
    requires
        slab_size >= 0,
        slot_size > 0,
    ensures
        slots_of(slab_size, slot_size) * slot_size <= slab_size,
        slots_of(slab_size, slot_size) <= MAX_SLOTS,
        slots_of(slab_size, slot_size) == MAX_SLOTS || slab_size < (slots_of(
            slab_size,
            slot_size,
        ) + 1) * slot_size,
{
    let n = slots_of(slab_size, slot_size);
    let q = slab_size / slot_size;
    assert(q * slot_size <= slab_size < (q + 1) * slot_size) by (nonlinear_arith)
        requires
            slot_size > 0,
            q == slab_size / slot_size,
    ;
    assert(n * slot_size <= q * slot_size) by (nonlinear_arith)
        requires
            n <= q,
            slot_size > 0,
    ;
}

/// A slab that has been changed is in the list of those to be written, and once more only if it
/// was not there.
pub proof fn law_dirtied(list: Seq<SlabId>, was_dirty: bool, id: SlabId, i: int)
    requires
        was_dirty ==> list.contains(id),
    ensures
        dirtied(list, was_dirty, id).contains(id),
        0 <= i < list.len() ==> dirtied(list, was_dirty, id)[i] == list[i],
        dirtied(list, was_dirty, id).len() == list.len() + if was_dirty {
            0int
        } else {
            1int
        },
{
    if !was_dirty {
        assert(list.push(id)[list.len() as int] == id);
    }
}

/// The extents that a slab lists as in use have the bytes that are in use, and no others.
pub proof fn law_allocated_extents(slab: Slab, o: int)
    requires
        slab.wf(),
    ensures
        slab.allocated_bytes().contains(o) <==> exists|i: int|
            0 <= i < slab.spec_allocated_extents().len() && (
            #[trigger] slab.spec_allocated_extents()[i]).start() <= o
                && o < slab.spec_allocated_extents()[i].end(),
{
    let list = slab.spec_allocated_extents();
    match slab.inner {
        SlabEnum::BitmapBased(s) => {
            let runs = runs_of(s.allocated_slots());
            let (b, z) = (s.base(), s.slot_size as int);
            s.lemma_allocated_runs();
            s.lemma_allocated_bytes();
            assert(slab.allocated_bytes() == s.slot_bytes(s.allocated_slots()));
            assert forall|i: int| 0 <= i < runs.len() implies (#[trigger] list[i]).start() == b
                + runs[i].0 * z && list[i].end() == b + runs[i].0 * z + runs[i].1 * z
                && runs[i].0 * z >= 0 by {
                s.lemma_run_fits(runs[i]);
                let (f, c, t) = (runs[i].0 as int, runs[i].1 as int, s.total_slots as int);
                lemma_multiple_of_sector(f, z);
                assert(f * z >= 0 && c * z > 0 && f * z + c * z <= t * z) by (nonlinear_arith)
                    requires
                        f >= 0,
                        c > 0,
                        f + c <= t,
                        z > 0,
                ;
                law_location_round_trip(s.location.disk_no(), b + f * z);
            }
            if b <= o {
                assert forall|i: int| 0 <= i < runs.len() implies ((#[trigger] list[i]).start()
                    <= o && o < list[i].end() <==> runs[i].0 <= (o - b) / z < runs[i].0
                    + runs[i].1) by {
                    lemma_unit_of(o - b, runs[i].0 as int, runs[i].1 as int, z);
                }
                assert(segs_set(runs).contains((o - b) / z) <==> segs_have(runs, (o - b) / z));
                if segs_have(runs, (o - b) / z) {
                    let i = choose|i: int|
                        0 <= i < runs.len() && (#[trigger] runs[i]).0 <= (o - b) / z < runs[i].0
                            + runs[i].1;
                    assert(list[i].start() <= o && o < list[i].end());
                }
                if exists|i: int|
                    0 <= i < list.len() && (#[trigger] list[i]).start() <= o && o < list[i].end() {
                    let i = choose|i: int|
                        0 <= i < list.len() && (#[trigger] list[i]).start() <= o && o
                            < list[i].end();
                    assert(runs[i].0 <= (o - b) / z < runs[i].0 + runs[i].1);
                }
            }
        },
        SlabEnum::ExtentBased(s) => {
            let runs = runs_of(s.allocated());
            s.lemma_allocated_fit();
            assert forall|i: int| 0 <= i < runs.len() implies (#[trigger] list[i]).start()
                == runs[i].0 && list[i].end() == runs[i].0 + runs[i].1 by {
                assert(runs[i] == runs_of(s.allocated())[i]);
            }
            assert(segs_set(runs).contains(o) <==> segs_have(runs, o));
            if segs_have(runs, o) {
                let i = choose|i: int|
                    0 <= i < runs.len() && (#[trigger] runs[i]).0 <= o < runs[i].0 + runs[i].1;
                assert(list[i].start() <= o && o < list[i].end());
            }
            if exists|i: int|
                0 <= i < list.len() && (#[trigger] list[i]).start() <= o && o < list[i].end() {
                let i = choose|i: int|
                    0 <= i < list.len() && (#[trigger] list[i]).start() <= o && o < list[i].end();
                assert(runs[i].0 <= o < runs[i].0 + runs[i].1);
            }
        },
        SlabEnum::Evacuating(_) => {},
    }
}

/// Each byte of a slab is free, or is to be free after the next flush, or is in use: one of these
/// and no other.
pub proof fn law_bytes_of_slab(slab: Slab, o: int)
    requires
        slab.wf(),
    ensures
        slab.whole().contains(o) <==> slab.free_bytes().contains(o)
            || slab.freeing_bytes().contains(o) || slab.allocated_bytes().contains(o),
        !(slab.free_bytes().contains(o) && slab.freeing_bytes().contains(o)),
        !(slab.free_bytes().contains(o) && slab.allocated_bytes().contains(o)),
        !(slab.freeing_bytes().contains(o) && slab.allocated_bytes().contains(o)),
{
    slab.lemma_bytes();
}

/// What is recorded of a slab is the size by which it is sorted into a bucket.
pub proof fn law_slab_type(slab: Slab)
    ensures
        slab.slab_type() matches SlabPhysType::BitmapBased { block_size } ==> slab.spec_max_size()
            == block_size,
        slab.slab_type() matches SlabPhysType::ExtentBased { max_size } ==> slab.spec_max_size()
            == max_size,
        slab.inner is BitmapBased <==> slab.slab_type() is BitmapBased,
        slab.inner is ExtentBased <==> slab.slab_type() is ExtentBased,
        slab.inner is Evacuating <==> slab.slab_type() is Evacuating,
        slab.live() <==> !(slab.inner is Evacuating),
{
}

/// Of a slab of slots all whole slots are used, and of one of extents all bytes.
pub proof fn law_usable_bytes(slab_type: SlabPhysType, extent: Extent, o: int)
    ensures
        slab_type matches SlabPhysType::BitmapBased { block_size } ==> block_size > 0 ==> (
        usable_bytes(slab_type, extent).contains(o) <==> extent.start() <= o < extent.start()
            + slots_of(extent.size as int, block_size as int) * block_size),
        slab_type is ExtentBased ==> (usable_bytes(slab_type, extent).contains(o)
            <==> extent.start() <= o < extent.end()),
        slab_type is Free || slab_type is Evacuating ==> !usable_bytes(
            slab_type,
            extent,
        ).contains(o),
{
    if let SlabPhysType::BitmapBased { block_size } = slab_type {
        if block_size > 0 {
            let n = slots_of(extent.size as int, block_size as int);
            assert(n >= 0) by (nonlinear_arith)
                requires
                    block_size > 0,
                    extent.size >= 0,
                    n == slots_of(extent.size as int, block_size as int),
            ;
            lemma_scaled_span(0, n, extent.start(), block_size as int);
        }
    }
}

/// Nothing is allocated from a disk that is marked as long as one of its slabs is not emptied.
pub proof fn law_blocked(a: BlockAllocator, d: int)
    ensures
        a.is_blocked(d) <==> a.noalloc_state@.contains_key(d) && exists|k: int|
            0 <= k < a.noalloc_state@[d]@.len() && !(a.slabs@[(
            #[trigger] a.noalloc_state@[d]@[k]).0 as int].inner is Evacuating),
{
}

/// By default there are slabs of slots for each size below sixteen kilobytes, and slabs of extents
/// for larger ones, up to the size of a slab.
pub proof fn law_default_buckets(i: int)
    requires
        0 <= i < 35,
    ensures
        default_buckets().len() == 35,
        i < 31 ==> default_buckets()[i].0.0 == (i + 1) * 512 && !default_buckets()[i].1,
        i >= 31 ==> default_buckets()[i].1,
        default_buckets()[31].0.0 == 64 * 1024,
        default_buckets()[32].0.0 == 256 * 1024,
        default_buckets()[33].0.0 == 1024 * 1024,
        default_buckets()[34].0.0 == 32 * 1024 * 1024,
{
}

} // verus!
