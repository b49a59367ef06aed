//! Append-only logs that are stored as chunks of entries, back to back in slabs.
use crate::base_types::{law_location_round_trip, DiskLocation, Extent, SECTOR};
use crate::slab_allocator::{
    lemma_multiple_of_sector, SlabAccess, SlabAllocator, SlabAllocatorBuilder, SlabId,
};
use std::marker::PhantomData;
use vstd::prelude::*;

pub mod summarized;

verus! {

/// A byte offset in a log.
#[derive(Debug, Clone, Copy, PartialEq, Eq, Structural, PartialOrd, Ord)]
pub struct LogOffset(pub u64);

impl Default for LogOffset {
    fn default() -> (r: LogOffset)
        ensures
            r.0 == 0,
    {
        LogOffset(0)
    }
}

/// The number of a chunk in its log.
#[derive(Debug, Clone, Copy, PartialEq, Eq, Structural, PartialOrd, Ord, Hash)]
pub struct ChunkId(pub u64);

impl ChunkId {
    pub fn next(&self) -> (r: ChunkId)
        requires
            self.0 < u64::MAX,
        ensures
            r.0 == self.0 + 1,
    {
        ChunkId(self.0 + 1)
    }
}

impl Default for ChunkId {
    fn default() -> (r: ChunkId)
        ensures
            r.0 == 0,
    {
        ChunkId(0)
    }
}

/// The persistent part of a log: where its chunks are.
#[derive(Debug)]
pub struct BlockBasedLogPhys<T> {
    pub slabs: Vec<SlabId>,
    pub next_chunk: ChunkId,
    /// logical byte offset of next chunk to write
    pub next_chunk_offset: LogOffset,
    pub num_entries: u64,
    pub entry_type: PhantomData<T>,
}

#[derive(Debug)]
pub struct BlockBasedLogChunk<T> {
    pub id: ChunkId,
    pub offset: LogOffset,
    pub entries: Vec<T>,
}

impl<T> BlockBasedLogChunk<T> {
    pub fn entries(&self) -> (r: &Vec<T>)
        ensures
            *r == self.entries,
    {
        &self.entries
    }
}

/// No slab occurs twice.
pub open spec fn distinct_slabs(slabs: Seq<SlabId>) -> bool {
    forall|i: int, j: int| 0 <= i < j < slabs.len() ==> slabs[i] != slabs[j]
}

impl<T> BlockBasedLogPhys<T> {
    /// The chunks fill all slabs but the last, and reach into the last.
    pub open spec fn wf(&self, slab_size: u64) -> bool {
        &&& slab_size > 0
        &&& slab_size % SECTOR == 0
        &&& self.next_chunk_offset.0 % SECTOR == 0
        &&& self.slabs@.len() * slab_size <= u64::MAX
        &&& self.next_chunk_offset.0 <= self.slabs@.len() * slab_size
        &&& self.slabs@.len() > 0 ==> (self.slabs@.len() - 1) * slab_size
            < self.next_chunk_offset.0
        &&& distinct_slabs(self.slabs@)
    }

    /// The slabs exist.
    pub open spec fn placed(&self, access: SlabAccess) -> bool {
        &&& access.wf()
        &&& self.wf(access.slab_size)
        &&& forall|i: int| 0 <= i < self.slabs@.len() ==> access.valid(#[trigger] self.slabs@[i])
    }

    /// A log without entries or slabs.
    pub open spec fn is_new(&self) -> bool {
        &&& self.slabs@.len() == 0
        &&& self.next_chunk.0 == 0
        &&& self.next_chunk_offset.0 == 0
        &&& self.num_entries == 0
    }

    pub fn new() -> (r: Self)
        ensures
            r.is_new(),
    {
        BlockBasedLogPhys {
            slabs: Vec::new(),
            next_chunk: ChunkId(0),
            next_chunk_offset: LogOffset(0),
            num_entries: 0,
            entry_type: PhantomData,
        }
    }

    /// A new log is in order.
    pub proof fn lemma_new_wf(&self, slab_size: u64)
        requires
            self.is_new(),
            slab_size > 0,
            slab_size % SECTOR == 0,
        ensures
            self.wf(slab_size),
    {
        assert(0 * slab_size == 0);
    }

    pub fn copy(&self) -> (r: Self)
        ensures
            r.slabs@ == self.slabs@,
            r.next_chunk == self.next_chunk,
            r.next_chunk_offset == self.next_chunk_offset,
            r.num_entries == self.num_entries,
    {
        let mut slabs: Vec<SlabId> = Vec::new();
        let mut i: usize = 0;
        while i < self.slabs.len()
            invariant
                i <= self.slabs@.len(),
                slabs@ == self.slabs@.take(i as int),
            decreases self.slabs@.len() - i,
        {
            slabs.push(self.slabs[i]);
            i += 1;
            assert(slabs@ =~= self.slabs@.take(i as int));
        }
        assert(slabs@ =~= self.slabs@);
        BlockBasedLogPhys {
            slabs,
            next_chunk: self.next_chunk,
            next_chunk_offset: self.next_chunk_offset,
            num_entries: self.num_entries,
            entry_type: PhantomData,
        }
    }

    /// Gives all slabs back and starts anew.
    pub fn clear(&mut self, slab_allocator: &mut SlabAllocator)
        requires
            old(slab_allocator).wf(),
            distinct_slabs(old(self).slabs@),
            forall|i: int|
                0 <= i < old(self).slabs@.len() ==> old(slab_allocator).allocated(
                    #[trigger] old(self).slabs@[i],
                ),
        ensures
            final(self).is_new(),
            final(slab_allocator).wf(),
            final(slab_allocator).access == old(slab_allocator).access,
            final(slab_allocator).allocatable == old(slab_allocator).allocatable,
            final(slab_allocator).noalloc_state == old(slab_allocator).noalloc_state,
            final(slab_allocator).reserved_slabs == old(slab_allocator).reserved_slabs,
            old(slab_allocator).separate() ==> final(slab_allocator).separate(),
            forall|s: SlabId|
                #[trigger] final(slab_allocator).places(s) == old(slab_allocator).places(s)
                    + if old(self).slabs@.contains(s) {
                    1nat
                } else {
                    0nat
                },
    {
        let ghost a = *slab_allocator;
        let ghost slabs = self.slabs@;
        let mut i: usize = 0;
        proof {
            assert(slabs.take(0) =~= Seq::<SlabId>::empty());
        }
        while i < self.slabs.len()
            invariant
                i <= slabs.len(),
                self.slabs@ == slabs,
                distinct_slabs(slabs),
                slab_allocator.wf(),
                slab_allocator.access == a.access,
                slab_allocator.allocatable == a.allocatable,
                slab_allocator.noalloc_state == a.noalloc_state,
                slab_allocator.reserved_slabs == a.reserved_slabs,
                a.separate() ==> slab_allocator.separate(),
                forall|k: int| 0 <= k < slabs.len() ==> a.allocated(#[trigger] slabs[k]),
                forall|s: SlabId|
                    #[trigger] slab_allocator.places(s) == a.places(s) + if slabs.take(
                        i as int,
                    ).contains(s) {
                        1nat
                    } else {
                        0nat
                    },
            decreases slabs.len() - i,
        {
            let id = self.slabs[i];
            proof {
                assert(a.allocated(slabs[i as int]));
                if slabs.take(i as int).contains(id) {
                    let k = choose|k: int| 0 <= k < i && slabs.take(i as int)[k] == id;
                    assert(slabs[k] == slabs[i as int]);
                }
                assert(slab_allocator.places(id) == 0);
            }
            let ghost b = *slab_allocator;
            slab_allocator.free(id);
            proof {
                assert(slabs.take(i + 1) =~= slabs.take(i as int).push(id));
                assert forall|s: SlabId|
                    #[trigger] slab_allocator.places(s) == a.places(s) + if slabs.take(
                        i + 1,
                    ).contains(s) {
                        1nat
                    } else {
                        0nat
                    } by {
                    assert(b.places(s) == a.places(s) + if slabs.take(i as int).contains(s) {
                        1nat
                    } else {
                        0nat
                    });
                    lemma_contains_push(slabs.take(i as int), id, s);
                }
            }
            i += 1;
        }
        proof {
            assert(slabs.take(i as int) =~= slabs);
        }
        self.slabs.clear();
        self.next_chunk = ChunkId(0);
        self.next_chunk_offset = LogOffset(0);
        self.num_entries = 0;
    }

    /// Marks the slabs of the log as in use.
    pub fn claim(&self, builder: &mut SlabAllocatorBuilder)
        requires
            old(builder).wf(),
            distinct_slabs(self.slabs@),
            forall|i: int|
                0 <= i < self.slabs@.len() ==> old(builder).unclaimed(#[trigger] self.slabs@[i]),
        ensures
            final(builder).wf(),
            final(builder).access == old(builder).access,
            forall|s: SlabId|
                #[trigger] final(builder).unclaimed(s) <==> old(builder).unclaimed(s)
                    && !self.slabs@.contains(s),
    {
        let ghost a = *builder;
        let ghost slabs = self.slabs@;
        let mut i: usize = 0;
        proof {
            assert(slabs.take(0) =~= Seq::<SlabId>::empty());
        }
        while i < self.slabs.len()
            invariant
                i <= slabs.len(),
                self.slabs@ == slabs,
                distinct_slabs(slabs),
                builder.wf(),
                builder.access == a.access,
                forall|k: int| 0 <= k < slabs.len() ==> a.unclaimed(#[trigger] slabs[k]),
                forall|s: SlabId|
                    #[trigger] builder.unclaimed(s) <==> a.unclaimed(s) && !slabs.take(
                        i as int,
                    ).contains(s),
            decreases slabs.len() - i,
        {
            let id = self.slabs[i];
            proof {
                assert(a.unclaimed(slabs[i as int]));
                if slabs.take(i as int).contains(id) {
                    let k = choose|k: int| 0 <= k < i && slabs.take(i as int)[k] == id;
                    assert(slabs[k] == slabs[i as int]);
                }
                assert(builder.unclaimed(id));
            }
            let ghost b = *builder;
            builder.claim(id);
            proof {
                assert(slabs.take(i + 1) =~= slabs.take(i as int).push(id));
                assert forall|s: SlabId|
                    #[trigger] builder.unclaimed(s) <==> a.unclaimed(s) && !slabs.take(
                        i + 1,
                    ).contains(s) by {
                    assert(b.unclaimed(s) <==> a.unclaimed(s) && !slabs.take(i as int).contains(s));
                    lemma_contains_push(slabs.take(i as int), id, s);
                }
            }
            i += 1;
        }
        proof {
            assert(slabs.take(i as int) =~= slabs);
        }
    }

    /// The extents of the slabs, with the offset in the log at which each starts.
    pub fn allocated_extents(&self, access: &SlabAccess) -> (r: Vec<(LogOffset, Extent)>)
        requires
            self.placed(*access),
        ensures
            r@.len() == self.slabs@.len(),
            forall|i: int|
                0 <= i < r@.len() ==> (#[trigger] r@[i]).0.0 == i * access.slab_size && r@[i].1
                    == access.slab_extent(self.slabs@[i]),
    {
        let mut r: Vec<(LogOffset, Extent)> = Vec::new();
        let mut i: usize = 0;
        while i < self.slabs.len()
            invariant
                self.placed(*access),
                i <= self.slabs@.len(),
                r@.len() == i,
                forall|k: int|
                    0 <= k < r@.len() ==> (#[trigger] r@[k]).0.0 == k * access.slab_size && r@[k].1
                        == access.slab_extent(self.slabs@[k]),
            decreases self.slabs@.len() - i,
        {
            proof {
                lemma_scaled(i as int, self.slabs@.len() as int, access.slab_size as int);
            }
            let offset = LogOffset(i as u64 * access.slab_size);
            r.push((offset, access.slab_id_to_extent(self.slabs[i])));
            i += 1;
        }
        r
    }

    /// These are the parts of the slabs that hold chunks, with the offset in the log at which
    /// each starts.
    pub open spec fn are_written(
        &self,
        access: SlabAccess,
        extents: Seq<(LogOffset, Extent)>,
    ) -> bool {
        &&& extents.len() == self.slabs@.len()
        &&& forall|i: int|
            0 <= i < extents.len() ==> {
                let slab = access.slab_extent(self.slabs@[i]);
                let left = self.next_chunk_offset.0 - i * access.slab_size;
                &&& (#[trigger] extents[i]).0.0 == i * access.slab_size
                &&& extents[i].1.location == slab.location
                &&& extents[i].1.size == if left < access.slab_size {
                    left
                } else {
                    access.slab_size as int
                }
            }
    }

    /// The parts of the slabs that hold chunks, with the offset in the log at which each starts.
    pub fn written_extents(&self, access: &SlabAccess) -> (r: Vec<(LogOffset, Extent)>)
        requires
            self.placed(*access),
        ensures
            self.are_written(*access, r@),
    {
        let extents = self.allocated_extents(access);
        let mut r: Vec<(LogOffset, Extent)> = Vec::new();
        let mut i: usize = 0;
        while i < extents.len()
            invariant
                self.placed(*access),
                i <= extents@.len(),
                extents@.len() == self.slabs@.len(),
                forall|k: int|
                    0 <= k < extents@.len() ==> (#[trigger] extents@[k]).0.0 == k * access.slab_size
                        && extents@[k].1 == access.slab_extent(self.slabs@[k]),
                r@.len() == i,
                forall|k: int|
                    0 <= k < r@.len() ==> {
                        let slab = access.slab_extent(self.slabs@[k]);
                        let left = self.next_chunk_offset.0 - k * access.slab_size;
                        &&& (#[trigger] r@[k]).0.0 == k * access.slab_size
                        &&& r@[k].1.location == slab.location
                        &&& r@[k].1.size == if left < access.slab_size {
                            left
                        } else {
                            access.slab_size as int
                        }
                    },
            decreases extents@.len() - i,
        {
            let (offset, extent) = extents[i];
            proof {
                lemma_scaled(i as int, self.slabs@.len() as int, access.slab_size as int);
                let id = self.slabs@[i as int];
                access.lemma_slab_extent(access.holder(id), id);
            }
            r.push((offset, extent.trim_end(self.next_chunk_offset.0 - offset.0)));
            i += 1;
        }
        r
    }

    /// What is left of the last slab, if anything is.
    #[verifier::spinoff_prover]
    #[verifier::rlimit(60)]
    pub fn next_extent_to_write(&self, access: &SlabAccess) -> (r: Option<Extent>)
        requires
            self.placed(*access),
        ensures
            r == self.spec_next_extent(*access),
            r matches Some(e) ==> e.wf() && e.size > 0 && e.size % SECTOR == 0,
    {
        let n = self.slabs.len();
        if n == 0 {
            return None;
        }
        let id = self.slabs[n - 1];
        proof {
            access.lemma_slab_extent(access.holder(id), id);
            lemma_scaled(n - 1, n as int, access.slab_size as int);
            lemma_multiple_of_sector(n - 1, access.slab_size as int);
            assert(n * access.slab_size == (n - 1) * access.slab_size + access.slab_size)
                by (nonlinear_arith);
        }
        let used: u64 = self.next_chunk_offset.0 - (n as u64 - 1) * access.slab_size;
        proof {
            lemma_remainder_of_sectors(
                self.next_chunk_offset.0 as int,
                (n - 1) * access.slab_size,
            );
            lemma_remainder_of_sectors(access.slab_size as int, used as int);
        }
        let extent = access.slab_id_to_extent(id).trim_start(used);
        proof {
            let slab = access.slab_extent(id);
            crate::base_types::law_location_round_trip(slab.disk_no(), slab.start() + used);
            crate::base_types::law_location_injective(
                extent.location,
                DiskLocation::at(slab.disk_no(), slab.start() + used),
            );
        }
        if extent.size > 0 {
            Some(extent)
        } else {
            None
        }
    }

    pub open spec fn spec_next_extent(&self, access: SlabAccess) -> Option<Extent> {
        let n = self.slabs@.len();
        let used = self.next_chunk_offset.0 - (n - 1) * access.slab_size;
        if n == 0 || used >= access.slab_size {
            None
        } else {
            let slab = access.slab_extent(self.slabs@[n - 1]);
            Some(Extent::at(slab.disk_no(), slab.start() + used, access.slab_size - used))
        }
    }

    /// Where the end of a slab has not been reached, at least one sector is left, so that a chunk
    /// of one sector fits.
    #[verifier::spinoff_prover]
    pub proof fn law_sector_fits(&self, access: SlabAccess)
        requires
            self.placed(access),
        ensures
            self.spec_next_extent(access) matches Some(e) ==> e.size >= SECTOR,
    {
        let n = self.slabs@.len() as int;
        let z = access.slab_size as int;
        if n > 0 {
            lemma_multiple_of_sector(n - 1, z);
            assert((n - 1) * z >= 0) by (nonlinear_arith)
                requires
                    n > 0,
                    z > 0,
            ;
            lemma_remainder_of_sectors(z, self.next_chunk_offset.0 - (n - 1) * z);
        }
    }

    /// Where the byte at an offset of the log is.
    pub open spec fn spec_location(&self, access: SlabAccess, offset: int) -> DiskLocation {
        let slab = access.slab_extent(self.slabs@[offset / access.slab_size as int]);
        DiskLocation::at(slab.disk_no(), slab.start() + offset % access.slab_size as int)
    }

    pub fn offset_to_location(&self, access: &SlabAccess, offset: LogOffset) -> (r: DiskLocation)
        requires
            self.placed(*access),
            offset.0 % SECTOR == 0,
            offset.0 < self.next_chunk_offset.0,
        ensures
            r == self.spec_location(*access, offset.0 as int),
            r.wf(),
    {
        let slab_size = access.slab_size();
        let slab_index: usize = {
            let i: u64 = offset.0 / slab_size;
            proof {
                lemma_quotient(offset.0 as int, self.slabs@.len() as int, slab_size as int);
                assert(self.slabs.len() <= usize::MAX);
            }
            i as usize
        };
        let relative_offset: u64 = offset.0 % slab_size;
        proof {
            lemma_quotient(offset.0 as int, self.slabs@.len() as int, slab_size as int);
            let id = self.slabs@[slab_index as int];
            access.lemma_slab_extent(access.holder(id), id);
        }
        access.slab_id_to_extent(self.slabs[slab_index]).location + relative_offset
    }

    pub fn bytes(&self) -> (r: u64)
        ensures
            r == self.next_chunk_offset.0,
    {
        self.next_chunk_offset.0
    }

    pub fn len(&self) -> (r: u64)
        ensures
            r == self.num_entries,
    {
        self.num_entries
    }

    pub fn capacity_bytes(&self, access: &SlabAccess) -> (r: u64)
        requires
            self.wf(access.slab_size),
        ensures
            r == self.slabs@.len() * access.slab_size,
    {
        self.slabs.len() as u64 * access.slab_size
    }
}

pub proof fn lemma_contains_push(s: Seq<SlabId>, added: SlabId, x: SlabId)
    ensures
        s.push(added).contains(x) <==> s.contains(x) || x == added,
{
    let p = s.push(added);
    if s.contains(x) {
        let k = choose|k: int| 0 <= k < s.len() && s[k] == x;
        assert(p[k] == x);
    }
    if x == added {
        assert(p[s.len() as int] == x);
    }
    if p.contains(x) {
        let k = choose|k: int| 0 <= k < p.len() && p[k] == x;
        if k < s.len() {
            assert(s[k] == x);
        }
    }
}

/// The difference of two multiples of the sector size is one.
proof fn lemma_remainder_of_sectors(z: int, used: int)
    requires
        z % 512 == 0,
        used % 512 == 0,
    ensures
        used < z ==> z - used >= 512,
        (z - used) % 512 == 0,
{
}

/// A multiple of a smaller number is smaller.
proof fn lemma_scaled(i: int, n: int, z: int)
    requires
        0 <= i < n,
        z > 0,
    ensures
        0 <= i * z,
        i * z + z <= n * z,
        i * z <= (n - 1) * z,
{
    assert(0 <= i * z && i * z + z <= n * z && i * z <= (n - 1) * z) by (nonlinear_arith)
        requires
            0 <= i < n,
            z > 0,
    ;
}

proof fn lemma_quotient(x: int, n: int, z: int)
    requires
        0 <= x < n * z,
        z > 0,
        z % 512 == 0,
        x % 512 == 0,
    ensures
        0 <= x / z < n,
        0 <= x % z < z,
        (x % z) % 512 == 0,
        x == (x / z) * z + x % z,
{
    assert(0 <= x / z < n && 0 <= x % z < z && x == (x / z) * z + x % z) by (nonlinear_arith)
        requires
            0 <= x < n * z,
            z > 0,
    ;
    lemma_multiple_of_sector(x / z, z);
}


/// A log with the entries that have not been written yet.
#[derive(Debug)]
pub struct BlockBasedLog<T> {
    pub phys: BlockBasedLogPhys<T>,
    pub pending_entries: Vec<T>,
}

/// How far the pending entries of a log have been written.
#[derive(Debug, Clone, Copy)]
pub struct LogFlush {
    /// Number of pending entries that are in chunks.
    pub done: usize,
    /// The most entries that a chunk has.
    pub entries_per_chunk: usize,
    /// The most entries that the next chunk may have, if a larger one did not fit.
    pub max_entries: Option<usize>,
}

/// What is to be done with an encoded chunk.
#[derive(Debug, Clone, Copy, PartialEq, Eq, Structural)]
pub enum ChunkPlacement {
    /// There is not enough space at the end of the slab, which has to be filled to its end:
    /// the chunk has to be encoded again with fewer entries.
    TrySmaller,
    /// The chunk is to be written to this location.
    Write { id: ChunkId, offset: LogOffset, location: DiskLocation },
}

/// The number of entries that a chunk is tried with.
pub open spec fn chunk_len(remaining: int, flush: LogFlush) -> int {
    let n = if remaining < flush.entries_per_chunk {
        remaining
    } else {
        flush.entries_per_chunk as int
    };
    match flush.max_entries {
        Some(m) => if m < n {
            m as int
        } else {
            n
        },
        None => n,
    }
}

/// Half of a number, but at least one.
pub open spec fn half(n: int) -> int {
    if n / 2 > 1 {
        n / 2
    } else {
        1
    }
}

impl LogFlush {
    pub open spec fn wf(&self, pending: int) -> bool {
        &&& self.done <= pending
        &&& self.entries_per_chunk > 0
        &&& self.max_entries matches Some(m) ==> m > 0
    }

    pub fn new(entries_per_chunk: usize) -> (r: LogFlush)
        ensures
            r.done == 0,
            r.entries_per_chunk == entries_per_chunk,
            r.max_entries is None,
    {
        LogFlush { done: 0, entries_per_chunk, max_entries: None }
    }
}

impl<T: Copy> BlockBasedLog<T> {
    pub open spec fn wf(&self, slab_allocator: SlabAllocator) -> bool {
        &&& slab_allocator.wf()
        &&& self.phys.placed(slab_allocator.access)
        &&& forall|i: int|
            0 <= i < self.phys.slabs@.len() ==> slab_allocator.allocated(
                #[trigger] self.phys.slabs@[i],
            )
    }

    pub fn open(phys: BlockBasedLogPhys<T>) -> (r: Self)
        ensures
            r.phys == phys,
            r.pending_entries@.len() == 0,
    {
        BlockBasedLog { phys, pending_entries: Vec::new() }
    }

    pub fn len(&self) -> (r: u64)
        requires
            self.phys.num_entries + self.pending_entries@.len() <= u64::MAX,
        ensures
            r == self.phys.num_entries + self.pending_entries@.len(),
    {
        self.phys.num_entries + self.pending_entries.len() as u64
    }

    pub fn is_empty(&self) -> (r: bool)
        ensures
            r <==> self.phys.num_entries == 0 && self.pending_entries@.len() == 0,
    {
        self.phys.num_entries == 0 && self.pending_entries.len() == 0
    }

    /// Size of the on-disk representation
    pub fn num_bytes(&self) -> (r: u64)
        ensures
            r == self.phys.next_chunk_offset.0,
    {
        self.phys.next_chunk_offset.0
    }

    /// What an iteration over the log reads, in order: the parts of its slabs that hold chunks.
    /// Entries that are pending are not on disk, and a log that has any cannot be iterated over.
    pub fn iter(&self, access: &SlabAccess) -> (r: Option<Vec<(LogOffset, Extent)>>)
        requires
            self.phys.placed(*access),
        ensures
            r is Some <==> self.pending_entries@.len() == 0,
            r matches Some(extents) ==> self.phys.are_written(*access, extents@),
    {
        if self.pending_entries.len() > 0 {
            return None;
        }
        Some(self.phys.written_extents(access))
    }

    pub fn pending_len(&self) -> (r: u64)
        ensures
            r == self.pending_entries@.len(),
    {
        self.pending_entries.len() as u64
    }

    pub fn push(&mut self, entry: T)
        ensures
            final(self).phys == old(self).phys,
            final(self).pending_entries@ == old(self).pending_entries@.push(entry),
    {
        self.pending_entries.push(entry);
    }

    pub fn append(&mut self, list: Vec<T>)
        ensures
            final(self).phys == old(self).phys,
            final(self).pending_entries@ == old(self).pending_entries@ + list@,
    {
        let mut list = list;
        self.pending_entries.append(&mut list);
    }

    /// Forgets the pending entries and gives all slabs back.
    pub fn clear(&mut self, slab_allocator: &mut SlabAllocator)
        requires
            old(self).wf(*old(slab_allocator)),
        ensures
            final(self).phys.is_new(),
            final(self).pending_entries@.len() == 0,
            final(self).wf(*final(slab_allocator)),
            final(slab_allocator).access == old(slab_allocator).access,
            final(slab_allocator).allocatable == old(slab_allocator).allocatable,
            final(slab_allocator).noalloc_state == old(slab_allocator).noalloc_state,
            final(slab_allocator).reserved_slabs == old(slab_allocator).reserved_slabs,
            old(slab_allocator).separate() ==> final(slab_allocator).separate(),
            forall|s: SlabId|
                #[trigger] final(slab_allocator).places(s) == old(slab_allocator).places(s)
                    + if old(self).phys.slabs@.contains(s) {
                    1nat
                } else {
                    0nat
                },
    {
        self.pending_entries.clear();
        self.phys.clear(slab_allocator);
        proof {
            self.phys.lemma_new_wf(slab_allocator.access.slab_size);
        }
    }

    /// The number of entries that the next chunk is to be encoded with.
    pub fn next_chunk_len(&self, flush: &LogFlush) -> (r: usize)
        requires
            flush.wf(self.pending_entries@.len() as int),
            flush.done < self.pending_entries@.len(),
        ensures
            r == chunk_len(self.pending_entries@.len() - flush.done, *flush),
            0 < r <= self.pending_entries@.len() - flush.done,
    {
        let remaining: usize = self.pending_entries.len() - flush.done;
        let n: usize = if remaining < flush.entries_per_chunk {
            remaining
        } else {
            flush.entries_per_chunk
        };
        match flush.max_entries {
            Some(m) => if m < n {
                m
            } else {
                n
            },
            None => n,
        }
    }

    /// Finds a place for a chunk that holds `num_entries` entries and takes up `raw_size` bytes.
    /// Chunks are stored back to back; where the last slab is full, another one is allocated.
    #[verifier::spinoff_prover]
    #[verifier::rlimit(40)]
    fn place_chunk(
        &mut self,
        slab_allocator: &mut SlabAllocator,
        super_reserved: u64,
        num_entries: usize,
        raw_size: u64,
    ) -> (r: ChunkPlacement)
        requires
            old(self).wf(*old(slab_allocator)),
            0 < num_entries,
            0 < raw_size <= old(slab_allocator).access.slab_size,
            raw_size % SECTOR == 0,
            old(self).phys.num_entries + num_entries <= u64::MAX,
            old(self).phys.next_chunk.0 < u64::MAX,
            old(self).phys.spec_next_extent(old(slab_allocator).access) is None ==> {
                &&& old(slab_allocator).allocatable@.len() > super_reserved
                &&& (old(self).phys.slabs@.len() + 1) * old(slab_allocator).access.slab_size
                    <= u64::MAX
            },
        ensures
            final(self).wf(*final(slab_allocator)),
            final(self).pending_entries == old(self).pending_entries,
            final(slab_allocator).access == old(slab_allocator).access,
            placed_chunk(
                old(self).phys,
                final(self).phys,
                *old(slab_allocator),
                *final(slab_allocator),
                num_entries as int,
                raw_size as int,
                r,
            ),
            old(slab_allocator).separate() ==> final(slab_allocator).separate(),
    {
        let ghost z = slab_allocator.access.slab_size as int;
        let ghost n = self.phys.slabs@.len() as int;
        let ghost a = *slab_allocator;
        let ghost phys0 = self.phys;
        let offset = self.phys.next_chunk_offset;
        let id = self.phys.next_chunk;
        let location = match self.phys.next_extent_to_write(&slab_allocator.access) {
            Some(extent) => {
                if extent.size < raw_size {
                    return ChunkPlacement::TrySmaller;
                }
                proof {
                    let used = offset.0 - (n - 1) * z;
                    assert(offset.0 as int / z == n - 1 && offset.0 as int % z == used)
                        by (nonlinear_arith)
                        requires
                            z > 0,
                            0 <= used < z,
                            offset.0 as int == (n - 1) * z + used,
                    ;
                    assert(n * z == (n - 1) * z + z) by (nonlinear_arith);
                }
                extent.location
            },
            None => {
                // Last slab has been fully written, allocate a new one
                let slab = slab_allocator.allocate_reserved(super_reserved);
                proof {
                    assert forall|i: int| 0 <= i < n implies self.phys.slabs@[i] != slab by {
                        assert(a.allocated(self.phys.slabs@[i]));
                    }
                    assert forall|i: int| 0 <= i < n implies slab_allocator.allocated(
                        #[trigger] self.phys.slabs@[i],
                    ) by {
                        assert(a.allocated(self.phys.slabs@[i]));
                        assert(self.phys.slabs@[i] != slab);
                        assert(slab_allocator.places(self.phys.slabs@[i]) == a.places(
                            self.phys.slabs@[i],
                        ));
                    }
                    assert(offset.0 == n * z) by {
                        if n == 0 {
                            assert(0 * z == 0) by (nonlinear_arith);
                        } else {
                            assert(n * z == (n - 1) * z + z) by (nonlinear_arith);
                        }
                    }
                    assert((n + 1) * z == n * z + z) by (nonlinear_arith);
                    assert((n * z) / z == n && (n * z) % z == 0) by (nonlinear_arith)
                        requires
                            z > 0,
                            n >= 0,
                    ;
                    slab_allocator.access.lemma_slab_extent(
                        slab_allocator.access.holder(slab),
                        slab,
                    );
                }
                self.phys.slabs.push(slab);
                let extent = slab_allocator.slab_id_to_extent(slab);
                proof {
                    crate::base_types::law_location_injective(
                        extent.location,
                        DiskLocation::at(extent.disk_no(), extent.start()),
                    );
                }
                extent.location
            },
        };
        self.phys.num_entries = self.phys.num_entries + num_entries as u64;
        self.phys.next_chunk = id.next();
        self.phys.next_chunk_offset = LogOffset(offset.0 + raw_size);
        ChunkPlacement::Write { id, offset, location }
    }

    /// Takes note of the size of the encoded chunk that holds the next entries. A chunk with a
    /// single entry has to fit in what is left of a slab.
    pub fn flush_step(
        &mut self,
        flush: &mut LogFlush,
        slab_allocator: &mut SlabAllocator,
        super_reserved: u64,
        raw_size: u64,
    ) -> (r: ChunkPlacement)
        requires
            old(self).wf(*old(slab_allocator)),
            old(flush).wf(old(self).pending_entries@.len() as int),
            old(flush).done < old(self).pending_entries@.len(),
            0 < raw_size <= old(slab_allocator).access.slab_size,
            raw_size % SECTOR == 0,
            old(self).phys.num_entries + old(self).pending_entries@.len() <= u64::MAX,
            old(self).phys.next_chunk.0 < u64::MAX,
            chunk_len(
                old(self).pending_entries@.len() - old(flush).done,
                *old(flush),
            ) == 1 ==> (old(self).phys.spec_next_extent(old(slab_allocator).access) matches Some(e)
                ==> raw_size <= e.size),
            old(self).phys.spec_next_extent(old(slab_allocator).access) is None ==> {
                &&& old(slab_allocator).allocatable@.len() > super_reserved
                &&& (old(self).phys.slabs@.len() + 1) * old(slab_allocator).access.slab_size
                    <= u64::MAX
            },
        ensures
            final(self).wf(*final(slab_allocator)),
            final(flush).wf(final(self).pending_entries@.len() as int),
            final(flush).entries_per_chunk == old(flush).entries_per_chunk,
            final(self).pending_entries == old(self).pending_entries,
            final(slab_allocator).access == old(slab_allocator).access,
            old(slab_allocator).separate() ==> final(slab_allocator).separate(),
            ({
                let n = chunk_len(
                    old(self).pending_entries@.len() - old(flush).done,
                    *old(flush),
                );
                &&& placed_chunk(
                    old(self).phys,
                    final(self).phys,
                    *old(slab_allocator),
                    *final(slab_allocator),
                    n,
                    raw_size as int,
                    r,
                )
                &&& match r {
                    ChunkPlacement::TrySmaller => {
                        &&& final(flush).done == old(flush).done
                        &&& final(flush).max_entries == Some(half(n) as usize)
                        &&& half(n) < n
                    },
                    ChunkPlacement::Write { .. } => {
                        &&& final(flush).done == old(flush).done + n
                        &&& final(flush).max_entries is None
                    },
                }
            }),
    {
        let n = self.next_chunk_len(flush);
        proof {
            assert(self.pending_entries.len() <= usize::MAX);
        }
        let r = self.place_chunk(slab_allocator, super_reserved, n, raw_size);
        match r {
            ChunkPlacement::TrySmaller => {
                flush.max_entries = Some(if n / 2 > 1 {
                    n / 2
                } else {
                    1
                });
            },
            ChunkPlacement::Write { .. } => {
                flush.done = flush.done + n;
                flush.max_entries = None;
            },
        }
        r
    }

    /// Forgets the pending entries once all of them are in chunks.
    pub fn flush_end(&mut self, flush: &LogFlush)
        requires
            flush.done == old(self).pending_entries@.len(),
        ensures
            final(self).phys == old(self).phys,
            final(self).pending_entries@.len() == 0,
    {
        self.pending_entries.clear();
    }
}

/// What placing a chunk does to a log and to the slab allocator.
pub open spec fn placed_chunk<T>(
    before: BlockBasedLogPhys<T>,
    after: BlockBasedLogPhys<T>,
    alloc_before: SlabAllocator,
    alloc_after: SlabAllocator,
    num_entries: int,
    raw_size: int,
    r: ChunkPlacement,
) -> bool {
    let access = alloc_before.access;
    &&& match before.spec_next_extent(access) {
        Some(e) => {
            &&& alloc_after == alloc_before
            &&& r is TrySmaller <==> e.size < raw_size
            &&& r is TrySmaller ==> after == before
            &&& r is Write ==> after.slabs@ == before.slabs@
        },
        None => {
            &&& r is Write
            &&& after.slabs@ == before.slabs@.push(alloc_before.allocatable@.last())
            &&& alloc_after.allocatable@ == alloc_before.allocatable@.drop_last()
            &&& alloc_after.freeing == alloc_before.freeing
            &&& alloc_after.noalloc_state == alloc_before.noalloc_state
            &&& alloc_after.noallocing == alloc_before.noallocing
            &&& alloc_after.reserved_slabs == alloc_before.reserved_slabs
            &&& forall|s: SlabId|
                s != alloc_before.allocatable@.last() ==> #[trigger] alloc_after.places(s)
                    == alloc_before.places(s)
        },
    }
    &&& r matches ChunkPlacement::Write { id, offset, location } ==> {
        &&& id == before.next_chunk
        &&& offset == before.next_chunk_offset
        &&& location == after.spec_location(access, offset.0 as int)
        &&& after.next_chunk.0 == before.next_chunk.0 + 1
        &&& after.next_chunk_offset.0 == before.next_chunk_offset.0 + raw_size
        &&& after.num_entries == before.num_entries + num_entries
    }
}

/// A chunk that was placed lies in one slab, from its offset on.
pub proof fn law_chunk_in_one_slab<T>(
    before: BlockBasedLogPhys<T>,
    after: BlockBasedLogPhys<T>,
    alloc_before: SlabAllocator,
    alloc_after: SlabAllocator,
    num_entries: int,
    raw_size: int,
    r: ChunkPlacement,
)
    requires
        before.wf(alloc_before.access.slab_size),
        after.wf(alloc_before.access.slab_size),
        raw_size > 0,
        placed_chunk(before, after, alloc_before, alloc_after, num_entries, raw_size, r),
        r is Write,
    ensures
        ({
            let z = alloc_before.access.slab_size as int;
            let first = before.next_chunk_offset.0 as int;
            let last = after.next_chunk_offset.0 - 1;
            &&& first / z == last / z == after.slabs@.len() - 1
            &&& first <= last
        }),
{
    let z = alloc_before.access.slab_size as int;
    let n = after.slabs@.len() as int;
    let first = before.next_chunk_offset.0 as int;
    let last = after.next_chunk_offset.0 - 1;
    let m = before.slabs@.len() as int;
    if before.spec_next_extent(alloc_before.access) is None {
        assert(n == m + 1);
        if m == 0 {
            assert(0 * z == 0) by (nonlinear_arith);
        } else {
            assert(m * z == (m - 1) * z + z) by (nonlinear_arith);
        }
        assert(first == (n - 1) * z);
    } else {
        assert(n == m);
    }
    assert(n * z == (n - 1) * z + z) by (nonlinear_arith);
    assert((n - 1) * z <= first <= last < n * z);
    assert(first / z == n - 1) by (nonlinear_arith)
        requires
            z > 0,
            (n - 1) * z <= first < (n - 1) * z + z,
    ;
    assert(last / z == n - 1) by (nonlinear_arith)
        requires
            z > 0,
            (n - 1) * z <= last < (n - 1) * z + z,
    ;
}

/// The bytes of the first chunks.
pub open spec fn bytes_before(sizes: Seq<int>, n: int) -> int
    decreases n,
{
    if n <= 0 {
        0
    } else {
        bytes_before(sizes, n - 1) + sizes[n - 1]
    }
}

/// How far the chunks of an extent have been decoded.
pub struct ChunkScan {
    pub next_chunk: ChunkId,
    pub extent_len: usize,
    pub total_consumed: usize,
    /// A chunk that is not part of the log has been reached.
    pub ended: bool,
}

impl ChunkScan {
    /// Starts with an extent of a log.
    pub fn new(next_chunk: ChunkId, extent_len: usize) -> (r: Self)
        ensures
            r == (ChunkScan { next_chunk, extent_len, total_consumed: 0, ended: false }),
    {
        ChunkScan { next_chunk, extent_len, total_consumed: 0, ended: false }
    }

    /// Where the next chunk starts.
    pub fn next(&self) -> (r: Option<usize>)
        ensures
            r == if !self.ended && self.total_consumed < self.extent_len {
                Some(self.total_consumed)
            } else {
                None
            },
    {
        if !self.ended && self.total_consumed < self.extent_len {
            Some(self.total_consumed)
        } else {
            None
        }
    }

    /// Goes on behind a chunk.
    pub fn advance(&mut self, chunk_id: ChunkId, consumed: usize)
        requires
            old(self).total_consumed + consumed <= usize::MAX,
        ensures
            *final(self) == (ChunkScan {
                total_consumed: (old(self).total_consumed + consumed) as usize,
                ended: old(self).ended || chunk_id == old(self).next_chunk,
                ..*old(self)
            }),
    {
        self.total_consumed = self.total_consumed + consumed;
        if chunk_id.0 == self.next_chunk.0 {
            self.ended = true;
        }
    }
}

/// An extent that is filled with chunks of the log is read chunk by chunk, to its end: after the
/// first `n` chunks comes the next one, if there is one, and else nothing.
pub proof fn law_scan_finds_chunks(sizes: Seq<int>, scan: ChunkScan, n: int)
    requires
        0 <= n <= sizes.len(),
        forall|i: int| 0 <= i < sizes.len() ==> #[trigger] sizes[i] > 0,
        scan.extent_len == bytes_before(sizes, sizes.len() as int),
        scan.total_consumed == bytes_before(sizes, n),
        !scan.ended,
    ensures
        n < sizes.len() <==> scan.total_consumed < scan.extent_len,
        n < sizes.len() ==> scan.total_consumed + sizes[n] == bytes_before(sizes, n + 1),
    decreases sizes.len() - n,
{
    lemma_bytes_before(sizes, n, sizes.len() as int);
}

proof fn lemma_bytes_before(sizes: Seq<int>, i: int, j: int)
    requires
        0 <= i <= j <= sizes.len(),
        forall|k: int| 0 <= k < sizes.len() ==> #[trigger] sizes[k] > 0,
    ensures
        bytes_before(sizes, i) + (j - i) <= bytes_before(sizes, j),
    decreases j - i,
{
    if i < j {
        lemma_bytes_before(sizes, i, j - 1);
        assert(sizes[j - 1] > 0);
    }
}

/// A log goes on where it ends: the space that is left of its last slab starts at the place of
/// the next byte, and goes to the end of the slab. There is none exactly if all slabs are full.
pub proof fn law_log_goes_on<T>(log: BlockBasedLogPhys<T>, access: SlabAccess)
    requires
        log.placed(access),
    ensures
        ({
            let n = log.slabs@.len() as int;
            let z = access.slab_size as int;
            &&& log.spec_next_extent(access) is None <==> n * z == log.next_chunk_offset.0
            &&& log.spec_next_extent(access) matches Some(e) ==> {
                let slab = access.slab_extent(log.slabs@[n - 1]);
                &&& e.location == log.spec_location(access, log.next_chunk_offset.0 as int)
                &&& e.size == n * z - log.next_chunk_offset.0
            }
        }),
{
    let n = log.slabs@.len() as int;
    let z = access.slab_size as int;
    let x = log.next_chunk_offset.0 as int;
    assert(log.slabs@.len() * access.slab_size == n * z);
    assert(0 * z == 0) by (nonlinear_arith);
    if n > 0 {
        assert((log.slabs@.len() - 1) * access.slab_size == (n - 1) * z);
        assert(n * z == (n - 1) * z + z) by (nonlinear_arith);
        if x < n * z {
            assert(x / z == n - 1 && x % z == x - (n - 1) * z) by (nonlinear_arith)
                requires
                    z > 0,
                    (n - 1) * z <= x < n * z,
            ;
        }
    }
}

proof fn lemma_sector_remainder(x: int, z: int)
    requires
        z > 0,
        x % 512 == 0,
        z % 512 == 0,
    ensures
        x % z % 512 == 0,
{
    let q = x / z;
    let k = z / 512;
    assert(q * (512 * k) == 512 * (q * k)) by (nonlinear_arith);
    assert(x == q * z + x % z) by (nonlinear_arith)
        requires
            z > 0,
            q == x / z,
    ;
}

/// Bytes that are next to each other in a slab of a log are so on the disk.
pub proof fn law_offsets_follow<T>(
    log: BlockBasedLogPhys<T>,
    access: SlabAccess,
    a: int,
    b: int,
)
    requires
        log.placed(access),
        0 <= a < log.next_chunk_offset.0,
        0 <= b < log.next_chunk_offset.0,
        a % 512 == 0,
        b % 512 == 0,
        a / access.slab_size as int == b / access.slab_size as int,
    ensures
        log.spec_location(access, a).disk_no() == log.spec_location(access, b).disk_no(),
        log.spec_location(access, a).off() - log.spec_location(access, b).off() == a - b,
{
    let z = access.slab_size as int;
    assert(a - a % z == b - b % z && 0 <= a % z < z && 0 <= b % z < z) by (nonlinear_arith)
        requires
            z > 0,
            a / z == b / z,
    ;
    lemma_quotient(a, log.slabs@.len() as int, z);
    let id = log.slabs@[a / z];
    access.lemma_slab_extent(access.holder(id), id);
    let slab = access.slab_extent(id);
    assert(a % z % 512 == 0 && b % z % 512 == 0) by {
        lemma_sector_remainder(a, z);
        lemma_sector_remainder(b, z);
    }
    law_location_round_trip(slab.disk_no(), slab.start() + a % z);
    law_location_round_trip(slab.disk_no(), slab.start() + b % z);
}

/// A chunk has as many entries as there are, as one can have, and as are asked for at most: the
/// least of these.
pub proof fn law_chunk_len(remaining: int, flush: LogFlush)
    ensures
        ({
            let n = chunk_len(remaining, flush);
            &&& n <= remaining && n <= flush.entries_per_chunk
            &&& flush.max_entries matches Some(m) ==> n <= m
            &&& n == remaining || n == flush.entries_per_chunk || (flush.max_entries matches Some(m)
                && n == m)
        }),
{
}

/// What is halved gets smaller until it is one.
pub proof fn law_half(n: int)
    requires
        n >= 1,
    ensures
        1 <= half(n) <= n,
        n > 1 ==> half(n) < n && n <= 2 * half(n) + 1 && 2 * half(n) <= n,
{
}

/// A chunk is written right behind the one before, and the log is as much longer as the chunk is
/// large. It is tried with fewer entries exactly if it is too large for what is left of the slab.
pub proof fn law_chunk_is_appended<T>(
    before: BlockBasedLogPhys<T>,
    after: BlockBasedLogPhys<T>,
    alloc_before: SlabAllocator,
    alloc_after: SlabAllocator,
    num_entries: int,
    raw_size: int,
    r: ChunkPlacement,
)
    requires
        before.placed(alloc_before.access),
        placed_chunk(before, after, alloc_before, alloc_after, num_entries, raw_size, r),
    ensures
        ({
            let z = alloc_before.access.slab_size;
            let left = before.slabs@.len() * z - before.next_chunk_offset.0;
            &&& r is TrySmaller <==> 0 < left < raw_size
            &&& r is TrySmaller ==> after == before && alloc_after == alloc_before
            &&& r matches ChunkPlacement::Write { id, offset, location } ==> {
                &&& id == before.next_chunk
                &&& offset == before.next_chunk_offset
                &&& after.next_chunk_offset.0 - before.next_chunk_offset.0 == raw_size
                &&& after.next_chunk.0 - before.next_chunk.0 == 1
                &&& after.num_entries - before.num_entries == num_entries
                &&& after.slabs@.len() - before.slabs@.len() == if left == 0 {
                    1int
                } else {
                    0int
                }
                &&& location == after.spec_location(alloc_before.access, offset.0 as int)
            }
        }),
{
    law_log_goes_on(before, alloc_before.access);
    let n = before.slabs@.len() as int;
    let z = alloc_before.access.slab_size as int;
    assert(before.slabs@.len() * alloc_before.access.slab_size == n * z);
}

/// What is written of a log is all of each slab but the last one, and of that what is left.
pub proof fn law_written_extents<T>(
    log: BlockBasedLogPhys<T>,
    access: SlabAccess,
    extents: Seq<(LogOffset, Extent)>,
    i: int,
)
    requires
        log.placed(access),
        log.are_written(access, extents),
        0 <= i < extents.len(),
    ensures
        extents[i].0.0 == i * access.slab_size,
        extents[i].1.location == access.slab_extent(log.slabs@[i]).location,
        i < extents.len() - 1 ==> extents[i].1.size == access.slab_size,
        i == extents.len() - 1 ==> extents[i].0.0 + extents[i].1.size == log.next_chunk_offset.0,
{
    let n = extents.len() as int;
    let z = access.slab_size as int;
    assert(log.slabs@.len() * access.slab_size == n * z);
    assert((log.slabs@.len() - 1) * access.slab_size == (n - 1) * z);
    assert(n * z == (n - 1) * z + z) by (nonlinear_arith);
    if i < n - 1 {
        assert((i + 1) * z <= (n - 1) * z) by (nonlinear_arith)
            requires
                i + 1 <= n - 1,
                z > 0,
        ;
        assert((i + 1) * z == i * z + z) by (nonlinear_arith);
    }
}

} // verus!
