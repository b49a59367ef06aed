//! Logs of sorted entries, with a summary by which an entry can be found.
use super::{
    distinct_slabs, BlockBasedLog, BlockBasedLogChunk, BlockBasedLogPhys, ChunkId, ChunkPlacement,
    LogFlush, LogOffset,
};
use crate::base_types::{Extent, SECTOR};
use crate::lru_cache::chunk_cache::{chunk_put, position, ChunkCache};
use crate::slab_allocator::{SlabAccess, SlabAllocator, SlabAllocatorBuilder, SlabId};
use vstd::prelude::*;

verus! {

/// A key by which the entries of a log are ordered.
pub trait LogKey: Copy {
    /// The place of a key in the order.
    spec fn rank(&self) -> int;

    fn less(&self, other: &Self) -> (r: bool)
        ensures
            r <==> self.rank() < other.rank(),
    ;
}

/// An entry of a log that is sorted by key.
pub trait SummarizedBlockBasedLogEntry: Copy {
    type Key: LogKey;

    spec fn spec_key(&self) -> Self::Key;

    fn key(&self) -> (r: Self::Key)
        ensures
            r == self.spec_key(),
    ;
}

/// The place of the key of an entry in the order.
pub open spec fn key_rank<T: SummarizedBlockBasedLogEntry>(entry: T) -> int {
    entry.spec_key().rank()
}

/// Entries in ascending order of their keys, no key twice.
pub open spec fn sorted<T: SummarizedBlockBasedLogEntry>(entries: Seq<T>) -> bool {
    forall|i: int, j: int|
        0 <= i < j < entries.len() ==> #[trigger] key_rank(entries[i]) < #[trigger] key_rank(
            entries[j],
        )
}

#[derive(Debug, Clone, Copy)]
pub struct BlockBasedLogChunkSummaryEntry<T> {
    pub offset: LogOffset,
    pub first_entry: T,
}

/// Where a chunk starts and which key it starts with.
#[derive(Debug, Clone, Copy)]
pub struct SummaryEntry<K> {
    pub offset: LogOffset,
    pub first_key: K,
}

#[derive(Debug)]
pub struct SummarizedBlockBasedLogPhys<T> {
    pub this: BlockBasedLogPhys<T>,
    pub chunk_summary: BlockBasedLogPhys<BlockBasedLogChunkSummaryEntry<T>>,
}

impl<T> SummarizedBlockBasedLogPhys<T> {
    pub open spec fn is_new(&self) -> bool {
        self.this.is_new() && self.chunk_summary.is_new()
    }

    pub fn new() -> (r: Self)
        ensures
            r.is_new(),
    {
        SummarizedBlockBasedLogPhys {
            this: BlockBasedLogPhys::new(),
            chunk_summary: BlockBasedLogPhys::new(),
        }
    }

    pub fn copy(&self) -> (r: Self)
        ensures
            r.this.slabs@ == self.this.slabs@,
            r.this.next_chunk == self.this.next_chunk,
            r.this.next_chunk_offset == self.this.next_chunk_offset,
            r.this.num_entries == self.this.num_entries,
            r.chunk_summary.slabs@ == self.chunk_summary.slabs@,
            r.chunk_summary.next_chunk == self.chunk_summary.next_chunk,
            r.chunk_summary.next_chunk_offset == self.chunk_summary.next_chunk_offset,
            r.chunk_summary.num_entries == self.chunk_summary.num_entries,
    {
        SummarizedBlockBasedLogPhys {
            this: self.this.copy(),
            chunk_summary: self.chunk_summary.copy(),
        }
    }

    /// All slabs of the log and of its summary.
    pub open spec fn all_slabs(&self) -> Seq<SlabId> {
        self.this.slabs@ + self.chunk_summary.slabs@
    }

    pub fn claim(&self, builder: &mut SlabAllocatorBuilder)
        requires
            old(builder).wf(),
            distinct_slabs(self.all_slabs()),
            forall|i: int|
                0 <= i < self.all_slabs().len() ==> old(builder).unclaimed(
                    #[trigger] self.all_slabs()[i],
                ),
        ensures
            final(builder).wf(),
            final(builder).access == old(builder).access,
            forall|s: SlabId|
                #[trigger] final(builder).unclaimed(s) <==> old(builder).unclaimed(s)
                    && !self.all_slabs().contains(s),
    {
        let ghost all = self.all_slabs();
        let ghost a = self.this.slabs@;
        let ghost b = self.chunk_summary.slabs@;
        let ghost b0 = *builder;
        proof {
            assert forall|i: int| 0 <= i < a.len() implies b0.unclaimed(#[trigger] a[i]) by {
                assert(all[i] == a[i]);
            }
            assert forall|i: int, j: int| 0 <= i < j < a.len() implies a[i] != a[j] by {
                assert(all[i] == a[i] && all[j] == a[j]);
            }
            assert forall|i: int, j: int| 0 <= i < j < b.len() implies b[i] != b[j] by {
                assert(all[a.len() + i] == b[i] && all[a.len() + j] == b[j]);
            }
        }
        self.this.claim(builder);
        proof {
            assert forall|i: int| 0 <= i < b.len() implies builder.unclaimed(#[trigger] b[i]) by {
                assert(all[a.len() + i] == b[i]);
                if a.contains(b[i]) {
                    let k = choose|k: int| 0 <= k < a.len() && a[k] == b[i];
                    assert(all[k] == all[a.len() + i]);
                }
            }
        }
        self.chunk_summary.claim(builder);
        proof {
            assert forall|s: SlabId| all.contains(s) <==> a.contains(s) || b.contains(s) by {
                if a.contains(s) {
                    let k = choose|k: int| 0 <= k < a.len() && a[k] == s;
                    assert(all[k] == s);
                }
                if b.contains(s) {
                    let k = choose|k: int| 0 <= k < b.len() && b[k] == s;
                    assert(all[a.len() + k] == s);
                }
                if all.contains(s) {
                    let k = choose|k: int| 0 <= k < all.len() && all[k] == s;
                    if k < a.len() {
                        assert(a[k] == s);
                    } else {
                        assert(b[k - a.len()] == s);
                    }
                }
            }
        }
    }

    pub fn bytes(&self) -> (r: u64)
        requires
            self.chunk_summary.next_chunk_offset.0 + self.this.next_chunk_offset.0 <= u64::MAX,
        ensures
            r == self.chunk_summary.next_chunk_offset.0 + self.this.next_chunk_offset.0,
    {
        self.chunk_summary.bytes() + self.this.bytes()
    }

    pub fn capacity_bytes(&self, access: &SlabAccess) -> (r: u64)
        requires
            self.this.wf(access.slab_size),
            self.chunk_summary.wf(access.slab_size),
            self.chunk_summary.slabs@.len() * access.slab_size + self.this.slabs@.len()
                * access.slab_size <= u64::MAX,
        ensures
            r == self.chunk_summary.slabs@.len() * access.slab_size + self.this.slabs@.len()
                * access.slab_size,
    {
        self.chunk_summary.capacity_bytes(access) + self.this.capacity_bytes(access)
    }
}

/// A log that is only read, with its summary in memory.
pub struct ReadOnlySummarizedBlockBasedLog<T: SummarizedBlockBasedLogEntry> {
    pub phys: SummarizedBlockBasedLogPhys<T>,
    pub chunks: Vec<SummaryEntry<T::Key>>,
    pub chunk_cache: ChunkCache<T>,
}

/// How a lookup goes on.
#[derive(Debug)]
pub enum LookupStep<T> {
    /// No chunk can have the key.
    Absent,
    /// The chunk is in the cache; this is what it has.
    Cached(Option<T>),
    /// The chunk has to be read.
    Read { chunk_id: ChunkId, extent: Extent },
}

/// What a search for the key finds in the entries of a chunk.
pub open spec fn searched<T: SummarizedBlockBasedLogEntry>(
    entries: Seq<T>,
    rank: int,
    r: Option<T>,
) -> bool {
    match r {
        Some(e) => entries.contains(e) && key_rank(e) == rank,
        None => forall|i: int| 0 <= i < entries.len() ==> #[trigger] key_rank(entries[i]) != rank,
    }
}

/// The chunks that a flush added.
pub struct SummarizedBlockBasedLogFlushDelta<T: SummarizedBlockBasedLogEntry> {
    pub first_new_chunk: ChunkId,
    pub new_chunks: Vec<SummaryEntry<T::Key>>,
}

/// Chunks that follow each other in the log and whose first keys ascend.
pub open spec fn chunks_wf<K: LogKey>(chunks: Seq<SummaryEntry<K>>, end: LogOffset) -> bool {
    &&& forall|i: int, j: int|
        0 <= i < j < chunks.len() ==> (#[trigger] chunks[i]).first_key.rank() < (
        #[trigger] chunks[j]).first_key.rank() && chunks[i].offset.0 < chunks[j].offset.0
    &&& forall|i: int|
        0 <= i < chunks.len() ==> (#[trigger] chunks[i]).offset.0 < end.0 && chunks[i].offset.0
            % SECTOR == 0
}

/// Which chunk a key can be in: the last one that does not start after it.
pub open spec fn chunk_for_key<K: LogKey>(chunks: Seq<SummaryEntry<K>>, rank: int, i: int) -> bool {
    &&& 0 <= i < chunks.len()
    &&& chunks[i].first_key.rank() <= rank
    &&& i + 1 < chunks.len() ==> rank < chunks[i + 1].first_key.rank()
}

impl<T: SummarizedBlockBasedLogEntry> ReadOnlySummarizedBlockBasedLog<T> {
    pub open spec fn wf(&self, access: SlabAccess) -> bool {
        &&& self.phys.this.placed(access)
        &&& self.chunks@.len() == self.phys.this.next_chunk.0
        &&& chunks_wf(self.chunks@, self.phys.this.next_chunk_offset)
    }

    /// The chunks in the cache are sorted.
    pub open spec fn cache_wf(&self) -> bool {
        &&& self.chunk_cache.wf()
        &&& forall|i: int|
            0 <= i < self.chunk_cache.held().len() ==> sorted(
                (#[trigger] self.chunk_cache.held()[i]).entries@,
            )
    }

    /// The log, with the summary that was read from it, and with room for some chunks in memory.
    pub fn open(
        phys: SummarizedBlockBasedLogPhys<T>,
        summary: &Vec<BlockBasedLogChunkSummaryEntry<T>>,
        chunk_cache_entries: usize,
    ) -> (r: Self)
        requires
            chunk_cache_entries <= usize::MAX / 256,
        ensures
            r.phys == phys,
            r.cache_wf(),
            r.chunk_cache.held().len() == 0,
            r.chunk_cache.cap == chunk_cache_entries,
            r.chunks@ == summary@.map_values(
                |e: BlockBasedLogChunkSummaryEntry<T>|
                    SummaryEntry { offset: e.offset, first_key: e.first_entry.spec_key() },
            ),
    {
        let ghost want = summary@.map_values(
            |e: BlockBasedLogChunkSummaryEntry<T>|
                SummaryEntry { offset: e.offset, first_key: e.first_entry.spec_key() },
        );
        let mut chunks: Vec<SummaryEntry<T::Key>> = Vec::new();
        let mut i: usize = 0;
        while i < summary.len()
            invariant
                i <= summary@.len(),
                want == summary@.map_values(
                    |e: BlockBasedLogChunkSummaryEntry<T>|
                        SummaryEntry { offset: e.offset, first_key: e.first_entry.spec_key() },
                ),
                chunks@ == want.take(i as int),
            decreases summary@.len() - i,
        {
            let e = summary[i];
            chunks.push(SummaryEntry { offset: e.offset, first_key: e.first_entry.key() });
            i += 1;
            assert(chunks@ =~= want.take(i as int));
        }
        assert(chunks@ =~= want);
        ReadOnlySummarizedBlockBasedLog {
            phys,
            chunks,
            chunk_cache: ChunkCache::new(chunk_cache_entries),
        }
    }

    pub fn len(&self) -> (r: u64)
        ensures
            r == self.phys.this.num_entries,
    {
        self.phys.this.num_entries
    }

    pub fn is_empty(&self) -> (r: bool)
        ensures
            r <==> self.phys.this.num_entries == 0,
    {
        self.len() == 0
    }

    /// Size of the on-disk representation
    pub fn num_bytes(&self) -> (r: u64)
        requires
            self.phys.this.next_chunk_offset.0 + self.phys.chunk_summary.next_chunk_offset.0
                <= u64::MAX,
        ensures
            r == self.phys.this.next_chunk_offset.0 + self.phys.chunk_summary.next_chunk_offset.0,
    {
        self.phys.this.bytes() + self.phys.chunk_summary.bytes()
    }

    /// The offset at which the chunk after `i` starts.
    pub open spec fn chunk_end(&self, i: int) -> int {
        if i == self.chunks@.len() - 1 {
            self.phys.this.next_chunk_offset.0 as int
        } else {
            self.chunks@[i + 1].offset.0 as int
        }
    }

    /// Returns the exact location and size of a chunk (not the whole contiguous extent).
    pub fn chunk_extent(&self, access: &SlabAccess, chunk_id: ChunkId) -> (r: Extent)
        requires
            self.wf(*access),
            chunk_id.0 < self.chunks@.len(),
        ensures
            r.location == self.phys.this.spec_location(
                *access,
                self.chunks@[chunk_id.0 as int].offset.0 as int,
            ),
            r.size == self.chunk_end(chunk_id.0 as int) - self.chunks@[chunk_id.0 as int].offset.0,
    {
        assert(self.chunks.len() <= usize::MAX);
        let i: usize = chunk_id.0 as usize;
        let chunk = self.chunks[i];
        proof {
            assert(self.chunks@[i as int].offset.0 < self.phys.this.next_chunk_offset.0);
        }
        let size: u64 = if i == self.chunks.len() - 1 {
            self.phys.this.next_chunk_offset.0 - chunk.offset.0
        } else {
            proof {
                assert(self.chunks@[i as int].offset.0 < self.chunks@[i + 1].offset.0);
            }
            self.chunks[i + 1].offset.0 - chunk.offset.0
        };
        Extent { location: self.phys.this.offset_to_location(access, chunk.offset), size }
    }

    /// Returns the id of the chunk where the key will be found, if present.
    pub fn lookup_chunk_by_key(&self, key: &T::Key) -> (r: Option<ChunkId>)
        requires
            chunks_wf(self.chunks@, self.phys.this.next_chunk_offset),
        ensures
            r is None <==> self.chunks@.len() == 0 || key.rank()
                < self.chunks@[0].first_key.rank(),
            r matches Some(id) ==> chunk_for_key(self.chunks@, key.rank(), id.0 as int),
    {
        // all chunks before lo start at or before the key, all from hi on start after it
        let mut lo: usize = 0;
        let mut hi: usize = self.chunks.len();
        while lo < hi
            invariant
                lo <= hi <= self.chunks@.len(),
                chunks_wf(self.chunks@, self.phys.this.next_chunk_offset),
                forall|i: int|
                    0 <= i < lo ==> (#[trigger] self.chunks@[i]).first_key.rank() <= key.rank(),
                forall|i: int|
                    hi <= i < self.chunks@.len() ==> key.rank() < (
                    #[trigger] self.chunks@[i]).first_key.rank(),
            decreases hi - lo,
        {
            let mid: usize = lo + (hi - lo) / 2;
            if key.less(&self.chunks[mid].first_key) {
                proof {
                    assert forall|i: int| mid <= i < self.chunks@.len() implies key.rank() < (
                    #[trigger] self.chunks@[i]).first_key.rank() by {
                        if i > mid {
                            assert(self.chunks@[mid as int].first_key.rank()
                                < self.chunks@[i].first_key.rank());
                        }
                    }
                }
                hi = mid;
            } else {
                proof {
                    assert forall|i: int| 0 <= i < mid + 1 implies (
                    #[trigger] self.chunks@[i]).first_key.rank() <= key.rank() by {
                        if i < mid {
                            assert(self.chunks@[i].first_key.rank()
                                < self.chunks@[mid as int].first_key.rank());
                        }
                    }
                }
                lo = mid + 1;
            }
        }
        if lo == 0 {
            None
        } else {
            Some(ChunkId(lo as u64 - 1))
        }
    }

    /// Updates this readonly view to reflect newly-appended chunks.
    pub fn update(
        &mut self,
        phys: SummarizedBlockBasedLogPhys<T>,
        delta: &SummarizedBlockBasedLogFlushDelta<T>,
    )
        requires
            delta.first_new_chunk == old(self).phys.this.next_chunk,
        ensures
            final(self).phys == phys,
            final(self).chunks@ == old(self).chunks@ + delta.new_chunks@,
            final(self).chunk_cache == old(self).chunk_cache,
    {
        let ghost c0 = self.chunks@;
        let mut i: usize = 0;
        assert(c0 =~= c0 + delta.new_chunks@.take(0));
        while i < delta.new_chunks.len()
            invariant
                i <= delta.new_chunks@.len(),
                self.chunks@ == c0 + delta.new_chunks@.take(i as int),
                self.chunk_cache == old(self).chunk_cache,
            decreases delta.new_chunks@.len() - i,
        {
            self.chunks.push(delta.new_chunks[i]);
            i += 1;
            assert(self.chunks@ =~= c0 + delta.new_chunks@.take(i as int));
        }
        assert(delta.new_chunks@.take(i as int) =~= delta.new_chunks@);
        self.phys = phys;
    }

    /// Starts to look for a key: finds the chunk that can have it, and searches it if it is in
    /// the cache. Else the chunk has to be read and handed to `lookup_by_key_read`.
    pub fn lookup_by_key(&mut self, access: &SlabAccess, key: &T::Key) -> (r: LookupStep<T>)
        requires
            old(self).wf(*access),
            old(self).cache_wf(),
        ensures
            final(self).wf(*access),
            final(self).cache_wf(),
            final(self).phys == old(self).phys,
            final(self).chunks == old(self).chunks,
            final(self).chunk_cache.cap == old(self).chunk_cache.cap,
            r is Absent <==> old(self).chunks@.len() == 0 || key.rank()
                < old(self).chunks@[0].first_key.rank(),
            r is Absent ==> final(self).chunk_cache == old(self).chunk_cache,
            r matches LookupStep::Cached(found) ==> exists|id: ChunkId|
                {
                    let held = old(self).chunk_cache.held();
                    &&& #[trigger] chunk_for_key(old(self).chunks@, key.rank(), id.0 as int)
                    &&& position(held, id) matches Some(i)
                    &&& searched(held[i].entries@, key.rank(), found)
                    &&& final(self).chunk_cache.held() == seq![held[i]] + held.remove(i)
                },
            r matches LookupStep::Read { chunk_id, extent } ==> {
                &&& chunk_for_key(old(self).chunks@, key.rank(), chunk_id.0 as int)
                &&& position(old(self).chunk_cache.held(), chunk_id) is None
                &&& final(self).chunk_cache.held() == old(self).chunk_cache.held()
                &&& extent.location == old(self).phys.this.spec_location(
                    *access,
                    old(self).chunks@[chunk_id.0 as int].offset.0 as int,
                )
                &&& extent.size == old(self).chunk_end(chunk_id.0 as int) - old(
                    self).chunks@[chunk_id.0 as int].offset.0
            },
    {
        let id = match self.lookup_chunk_by_key(key) {
            Some(id) => id,
            None => {
                return LookupStep::Absent;
            },
        };
        let ghost held = self.chunk_cache.held();
        proof {
            assert(chunk_for_key(self.chunks@, key.rank(), id.0 as int));
            if id.0 > 0 {
                assert(self.chunks@[0].first_key.rank() < self.chunks@[id.0 as int].first_key.rank());
            }
        }
        let slot = self.chunk_cache.get(id);
        proof {
            if let Some(i) = position(held, id) {
                let now = self.chunk_cache.held();
                assert forall|x: int| 0 <= x < now.len() implies sorted(
                    (#[trigger] now[x]).entries@,
                ) by {
                    let x0 = if x == 0 {
                        i
                    } else if x - 1 < i {
                        x - 1
                    } else {
                        x
                    };
                    assert(now[x] == held[x0]);
                }
            }
        }
        match slot {
            Some(slot) => {
                let found = search_entries(&self.chunk_cache.slots[slot].entries, key);
                LookupStep::Cached(found)
            },
            None => {
                let extent = self.chunk_extent(access, id);
                LookupStep::Read { chunk_id: id, extent }
            },
        }
    }

    /// Ends the search for a key in a chunk that was read, which is then cached.
    pub fn lookup_by_key_read(&mut self, key: &T::Key, chunk: BlockBasedLogChunk<T>) -> (r: Option<T>)
        requires
            old(self).cache_wf(),
            sorted(chunk.entries@),
        ensures
            final(self).cache_wf(),
            final(self).phys == old(self).phys,
            final(self).chunks == old(self).chunks,
            final(self).chunk_cache.cap == old(self).chunk_cache.cap,
            final(self).chunk_cache.held() == chunk_put(
                old(self).chunk_cache.held(),
                old(self).chunk_cache.cap as nat,
                chunk,
            ),
            searched(chunk.entries@, key.rank(), r),
    {
        let found = search_entries(&chunk.entries, key);
        let ghost held = self.chunk_cache.held();
        self.chunk_cache.put(chunk);
        proof {
            let now = self.chunk_cache.held();
            assert forall|x: int| 0 <= x < now.len() implies sorted(
                (#[trigger] now[x]).entries@,
            ) by {
                match position(held, chunk.id) {
                    Some(p) => {
                        if x > 0 {
                            let x0 = if x - 1 < p {
                                x - 1
                            } else {
                                x
                            };
                            assert(held[p].id == chunk.id);
                            assert(now[x] == held[x0]);
                        }
                    },
                    None => {
                        if self.chunk_cache.cap == 0 {
                            assert(now[x] == held[x]);
                        } else if x > 0 {
                            assert(now[x] == held[x - 1]);
                        }
                    },
                }
            }
        }
        found
    }
}

/// Searches the entries of a chunk for a key.
pub fn search_entries<T: SummarizedBlockBasedLogEntry>(entries: &Vec<T>, key: &T::Key) -> (r:
    Option<T>)
    requires
        sorted(entries@),
    ensures
        searched(entries@, key.rank(), r),
{
    let mut lo: usize = 0;
    let mut hi: usize = entries.len();
    while lo < hi
        invariant
            lo <= hi <= entries@.len(),
            sorted(entries@),
            forall|i: int| 0 <= i < lo ==> #[trigger] key_rank(entries@[i]) < key.rank(),
            forall|i: int|
                hi <= i < entries@.len() ==> key.rank() < #[trigger] key_rank(entries@[i]),
        decreases hi - lo,
    {
        let mid: usize = lo + (hi - lo) / 2;
        let mid_key = entries[mid].key();
        proof {
            assert(mid_key.rank() == key_rank(entries@[mid as int]));
        }
        if key.less(&mid_key) {
            proof {
                assert forall|i: int| mid <= i < entries@.len() implies key.rank()
                    < #[trigger] key_rank(entries@[i]) by {
                    if i > mid {
                        assert(key_rank(entries@[mid as int]) < key_rank(entries@[i]));
                    }
                }
            }
            hi = mid;
        } else if mid_key.less(key) {
            proof {
                assert forall|i: int| 0 <= i < mid + 1 implies #[trigger] key_rank(entries@[i])
                    < key.rank() by {
                    if i < mid {
                        assert(key_rank(entries@[i]) < key_rank(entries@[mid as int]));
                    }
                }
            }
            lo = mid + 1;
        } else {
            return Some(entries[mid]);
        }
    }
    None
}

/// Whether the chunks partition the entries of a log: chunk `i` holds those from `starts[i]` to
/// the next start, of which there is at least one, and the summary has the key of the first.
pub open spec fn summarizes<T: SummarizedBlockBasedLogEntry>(
    entries: Seq<T>,
    starts: Seq<int>,
    chunks: Seq<SummaryEntry<T::Key>>,
) -> bool {
    &&& starts.len() == chunks.len()
    &&& chunks.len() == 0 ==> entries.len() == 0
    &&& chunks.len() > 0 ==> starts[0] == 0
    &&& forall|i: int, j: int|
        0 <= i < j < starts.len() ==> (#[trigger] starts[i]) < (#[trigger] starts[j])
    &&& forall|i: int|
        0 <= i < starts.len() ==> 0 <= (#[trigger] starts[i]) < entries.len()
            && chunks[i].first_key.rank() == key_rank(entries[starts[i]])
}

/// The first entry after chunk `i`.
pub open spec fn chunk_stop(starts: Seq<int>, total: int, i: int) -> int {
    if i + 1 < starts.len() {
        starts[i + 1]
    } else {
        total
    }
}

/// A key is in a sorted log exactly if it is in the chunk that the summary names for it, and in
/// no log that the summary names no chunk for.
pub proof fn law_lookup_finds<T: SummarizedBlockBasedLogEntry>(
    entries: Seq<T>,
    starts: Seq<int>,
    chunks: Seq<SummaryEntry<T::Key>>,
    rank: int,
    found: Option<int>,
)
    requires
        sorted(entries),
        summarizes(entries, starts, chunks),
        found is None ==> chunks.len() == 0 || rank < chunks[0].first_key.rank(),
        found matches Some(i) ==> chunk_for_key(chunks, rank, i),
    ensures
        forall|k: int|
            0 <= k < entries.len() && #[trigger] key_rank(entries[k]) == rank ==> {
                &&& found is Some
                &&& starts[found->0] <= k < chunk_stop(starts, entries.len() as int, found->0)
            },
{
    assert forall|k: int|
        0 <= k < entries.len() && #[trigger] key_rank(entries[k]) == rank implies {
        &&& found is Some
        &&& starts[found->0] <= k < chunk_stop(starts, entries.len() as int, found->0)
    } by {
        match found {
            None => {
                if chunks.len() > 0 {
                    assert(starts[0] == 0);
                    if k > 0 {
                        assert(key_rank(entries[0]) < key_rank(entries[k]));
                    }
                }
            },
            Some(i) => {
                let s = starts[i];
                if k < s {
                    assert(key_rank(entries[k]) < key_rank(entries[s]));
                }
                if i + 1 < starts.len() {
                    let t = starts[i + 1];
                    if k > t {
                        assert(key_rank(entries[t]) < key_rank(entries[k]));
                    }
                }
            },
        }
    }
}

/// The chunks of a log, each with its entries.
pub open spec fn chunk_contents<T>(entries: Seq<T>, starts: Seq<int>) -> Seq<Seq<T>> {
    Seq::new(
        starts.len(),
        |i: int| entries.subrange(starts[i], chunk_stop(starts, entries.len() as int, i)),
    )
}

/// What is found in the chunk that the summary names for a key is what the whole log has for it.
pub proof fn law_lookup_by_key<T: SummarizedBlockBasedLogEntry>(
    entries: Seq<T>,
    starts: Seq<int>,
    chunks: Seq<SummaryEntry<T::Key>>,
    rank: int,
    id: int,
    found: Option<T>,
)
    requires
        sorted(entries),
        summarizes(entries, starts, chunks),
        chunk_for_key(chunks, rank, id),
        searched(chunk_contents(entries, starts)[id], rank, found),
    ensures
        searched(entries, rank, found),
{
    let c = chunk_contents(entries, starts)[id];
    let from = starts[id];
    let to = chunk_stop(starts, entries.len() as int, id);
    if id + 1 < starts.len() {
        assert(starts[id] < starts[id + 1]);
    }
    match found {
        Some(e) => {
            let i = choose|i: int| 0 <= i < c.len() && c[i] == e;
            assert(entries[from + i] == e);
        },
        None => {
            law_lookup_finds(entries, starts, chunks, rank, Some(id));
            assert forall|k: int| 0 <= k < entries.len() implies #[trigger] key_rank(entries[k])
                != rank by {
                if key_rank(entries[k]) == rank {
                    assert(c[k - from] == entries[k]);
                    assert(key_rank(c[k - from]) != rank);
                }
            }
        },
    }
}

/// A sorted log that is appended to.
pub struct SummarizedBlockBasedLog<T: SummarizedBlockBasedLogEntry> {
    pub readonly: ReadOnlySummarizedBlockBasedLog<T>,
    pub this: BlockBasedLog<T>,
    pub chunk_summary: BlockBasedLog<BlockBasedLogChunkSummaryEntry<T>>,
}

impl<T: SummarizedBlockBasedLogEntry> SummarizedBlockBasedLog<T> {
    pub fn open(
        phys: SummarizedBlockBasedLogPhys<T>,
        summary: &Vec<BlockBasedLogChunkSummaryEntry<T>>,
        chunk_cache_entries: usize,
    ) -> (r: Self)
        requires
            chunk_cache_entries <= usize::MAX / 256,
        ensures
            r.readonly.phys == phys,
            r.readonly.cache_wf(),
            r.readonly.chunk_cache.held().len() == 0,
            r.readonly.chunk_cache.cap == chunk_cache_entries,
            r.readonly.chunks@ == summary@.map_values(
                |e: BlockBasedLogChunkSummaryEntry<T>|
                    SummaryEntry { offset: e.offset, first_key: e.first_entry.spec_key() },
            ),
            r.this.phys.slabs@ == phys.this.slabs@,
            r.this.phys.next_chunk == phys.this.next_chunk,
            r.this.phys.next_chunk_offset == phys.this.next_chunk_offset,
            r.this.phys.num_entries == phys.this.num_entries,
            r.this.pending_entries@.len() == 0,
            r.chunk_summary.phys.slabs@ == phys.chunk_summary.slabs@,
            r.chunk_summary.phys.next_chunk == phys.chunk_summary.next_chunk,
            r.chunk_summary.phys.next_chunk_offset == phys.chunk_summary.next_chunk_offset,
            r.chunk_summary.phys.num_entries == phys.chunk_summary.num_entries,
            r.chunk_summary.pending_entries@.len() == 0,
    {
        let this = BlockBasedLog::open(phys.this.copy());
        let chunk_summary = BlockBasedLog::open(phys.chunk_summary.copy());
        SummarizedBlockBasedLog {
            readonly: ReadOnlySummarizedBlockBasedLog::open(phys, summary, chunk_cache_entries),
            this,
            chunk_summary,
        }
    }

    /// The delta of a flush that starts now.
    pub fn flush_begin(&self) -> (r: SummarizedBlockBasedLogFlushDelta<T>)
        ensures
            r.first_new_chunk == self.this.phys.next_chunk,
            r.new_chunks@.len() == 0,
    {
        SummarizedBlockBasedLogFlushDelta {
            first_new_chunk: self.this.phys.next_chunk,
            new_chunks: Vec::new(),
        }
    }

    /// As for a log without a summary; a chunk that is to be written is added to the summary.
    pub fn flush_step(
        &mut self,
        flush: &mut LogFlush,
        delta: &mut SummarizedBlockBasedLogFlushDelta<T>,
        slab_allocator: &mut SlabAllocator,
        super_reserved: u64,
        raw_size: u64,
    ) -> (r: ChunkPlacement)
        requires
            old(self).this.wf(*old(slab_allocator)),
            old(flush).wf(old(self).this.pending_entries@.len() as int),
            old(flush).done < old(self).this.pending_entries@.len(),
            0 < raw_size <= old(slab_allocator).access.slab_size,
            raw_size % SECTOR == 0,
            old(self).this.phys.num_entries + old(self).this.pending_entries@.len() <= u64::MAX,
            old(self).this.phys.next_chunk.0 < u64::MAX,
            super::chunk_len(
                old(self).this.pending_entries@.len() - old(flush).done,
                *old(flush),
            ) == 1 ==> (old(self).this.phys.spec_next_extent(old(slab_allocator).access) matches Some(e)
                ==> raw_size <= e.size),
            old(self).this.phys.spec_next_extent(old(slab_allocator).access) is None ==> {
                &&& old(slab_allocator).allocatable@.len() > super_reserved
                &&& (old(self).this.phys.slabs@.len() + 1) * old(slab_allocator).access.slab_size
                    <= u64::MAX
            },
        ensures
            final(self).this.wf(*final(slab_allocator)),
            final(flush).wf(final(self).this.pending_entries@.len() as int),
            final(flush).entries_per_chunk == old(flush).entries_per_chunk,
            final(self).this.pending_entries == old(self).this.pending_entries,
            final(self).readonly == old(self).readonly,
            final(self).chunk_summary.phys == old(self).chunk_summary.phys,
            final(slab_allocator).access == old(slab_allocator).access,
            old(slab_allocator).separate() ==> final(slab_allocator).separate(),
            final(delta).first_new_chunk == old(delta).first_new_chunk,
            ({
                let n = super::chunk_len(
                    old(self).this.pending_entries@.len() - old(flush).done,
                    *old(flush),
                );
                let first = old(self).this.pending_entries@[old(flush).done as int];
                &&& super::placed_chunk(
                    old(self).this.phys,
                    final(self).this.phys,
                    *old(slab_allocator),
                    *final(slab_allocator),
                    n,
                    raw_size as int,
                    r,
                )
                &&& match r {
                    ChunkPlacement::TrySmaller => {
                        &&& final(flush).done == old(flush).done
                        &&& final(flush).max_entries == Some(super::half(n) as usize)
                        &&& super::half(n) < n
                        &&& final(delta).new_chunks@ == old(delta).new_chunks@
                        &&& final(self).chunk_summary.pending_entries@
                            == old(self).chunk_summary.pending_entries@
                    },
                    ChunkPlacement::Write { offset, .. } => {
                        &&& final(flush).done == old(flush).done + n
                        &&& final(flush).max_entries is None
                        &&& final(delta).new_chunks@ == old(delta).new_chunks@.push(
                            (SummaryEntry { offset, first_key: first.spec_key() }),
                        )
                        &&& final(self).chunk_summary.pending_entries@
                            == old(self).chunk_summary.pending_entries@.push(
                            (BlockBasedLogChunkSummaryEntry { offset, first_entry: first }),
                        )
                    },
                }
            }),
    {
        let first = self.this.pending_entries[flush.done];
        let r = self.this.flush_step(flush, slab_allocator, super_reserved, raw_size);
        match r {
            ChunkPlacement::TrySmaller => {},
            ChunkPlacement::Write { offset, .. } => {
                delta.new_chunks.push(SummaryEntry { offset, first_key: first.key() });
                self.chunk_summary.push(
                    BlockBasedLogChunkSummaryEntry { offset, first_entry: first },
                );
            },
        }
        r
    }

    /// Makes the chunks of a flush visible to readers, once the entries and their summary have
    /// been written.
    pub fn flush_end(&mut self, delta: &SummarizedBlockBasedLogFlushDelta<T>)
        requires
            delta.first_new_chunk == old(self).readonly.phys.this.next_chunk,
        ensures
            final(self).this == old(self).this,
            final(self).chunk_summary == old(self).chunk_summary,
            final(self).readonly.chunks@ == old(self).readonly.chunks@ + delta.new_chunks@,
            final(self).readonly.chunk_cache == old(self).readonly.chunk_cache,
            final(self).readonly.phys.this.slabs@ == old(self).this.phys.slabs@,
            final(self).readonly.phys.this.next_chunk == old(self).this.phys.next_chunk,
            final(self).readonly.phys.this.next_chunk_offset
                == old(self).this.phys.next_chunk_offset,
            final(self).readonly.phys.this.num_entries == old(self).this.phys.num_entries,
            final(self).readonly.phys.chunk_summary.slabs@
                == old(self).chunk_summary.phys.slabs@,
            final(self).readonly.phys.chunk_summary.next_chunk
                == old(self).chunk_summary.phys.next_chunk,
            final(self).readonly.phys.chunk_summary.next_chunk_offset
                == old(self).chunk_summary.phys.next_chunk_offset,
            final(self).readonly.phys.chunk_summary.num_entries
                == old(self).chunk_summary.phys.num_entries,
    {
        let phys = SummarizedBlockBasedLogPhys {
            this: self.this.phys.copy(),
            chunk_summary: self.chunk_summary.phys.copy(),
        };
        self.readonly.update(phys, delta);
    }

    /// Works only if there are no pending entries.
    pub fn get_phys(&self) -> (r: SummarizedBlockBasedLogPhys<T>)
        requires
            self.this.pending_entries@.len() == 0,
            self.chunk_summary.pending_entries@.len() == 0,
        ensures
            r.this.slabs@ == self.readonly.phys.this.slabs@,
            r.this.next_chunk == self.readonly.phys.this.next_chunk,
            r.this.next_chunk_offset == self.readonly.phys.this.next_chunk_offset,
            r.this.num_entries == self.readonly.phys.this.num_entries,
            r.chunk_summary.slabs@ == self.readonly.phys.chunk_summary.slabs@,
            r.chunk_summary.next_chunk == self.readonly.phys.chunk_summary.next_chunk,
            r.chunk_summary.next_chunk_offset
                == self.readonly.phys.chunk_summary.next_chunk_offset,
            r.chunk_summary.num_entries == self.readonly.phys.chunk_summary.num_entries,
    {
        self.readonly.phys.copy()
    }

    pub fn append(&mut self, list: Vec<T>)
        ensures
            final(self).readonly == old(self).readonly,
            final(self).chunk_summary == old(self).chunk_summary,
            final(self).this.phys == old(self).this.phys,
            final(self).this.pending_entries@ == old(self).this.pending_entries@ + list@,
    {
        self.this.append(list);
    }

    /// Gives all slabs of the log and of its summary back.
    pub fn clear(&mut self, slab_allocator: &mut SlabAllocator)
        requires
            old(self).this.wf(*old(slab_allocator)),
            old(self).chunk_summary.wf(*old(slab_allocator)),
            forall|i: int, j: int|
                0 <= i < old(self).this.phys.slabs@.len() && 0 <= j < old(
                    self).chunk_summary.phys.slabs@.len() ==> (
                #[trigger] old(self).this.phys.slabs@[i]) != (
                #[trigger] old(self).chunk_summary.phys.slabs@[j]),
        ensures
            final(self).readonly == old(self).readonly,
            final(self).this.phys.is_new(),
            final(self).this.pending_entries@.len() == 0,
            final(self).chunk_summary.phys.is_new(),
            final(self).chunk_summary.pending_entries@.len() == 0,
            final(slab_allocator).wf(),
            final(slab_allocator).access == old(slab_allocator).access,
            final(slab_allocator).allocatable == old(slab_allocator).allocatable,
            final(slab_allocator).noalloc_state == old(slab_allocator).noalloc_state,
            final(slab_allocator).reserved_slabs == old(slab_allocator).reserved_slabs,
            old(slab_allocator).separate() ==> final(slab_allocator).separate(),
            forall|s: SlabId|
                #[trigger] final(slab_allocator).places(s) == old(slab_allocator).places(s)
                    + if old(self).this.phys.slabs@.contains(s) || old(
                    self).chunk_summary.phys.slabs@.contains(s) {
                    1nat
                } else {
                    0nat
                },
    {
        let ghost a = *slab_allocator;
        let ghost s1 = self.this.phys.slabs@;
        let ghost s2 = self.chunk_summary.phys.slabs@;
        self.this.clear(slab_allocator);
        let ghost b = *slab_allocator;
        proof {
            assert forall|s: SlabId| !(s1.contains(s) && s2.contains(s)) by {
                if s1.contains(s) && s2.contains(s) {
                    let i = choose|i: int| 0 <= i < s1.len() && s1[i] == s;
                    let j = choose|j: int| 0 <= j < s2.len() && s2[j] == s;
                    assert(s1[i] != s2[j]);
                }
            }
            assert forall|i: int| 0 <= i < s2.len() implies slab_allocator.allocated(
                #[trigger] s2[i],
            ) by {
                assert(s2.contains(s2[i]));
                assert(a.allocated(s2[i]));
                assert(b.places(s2[i]) == a.places(s2[i]) + if s1.contains(s2[i]) {
                    1nat
                } else {
                    0nat
                });
            }
        }
        self.chunk_summary.clear(slab_allocator);
        proof {
            assert forall|s: SlabId|
                #[trigger] slab_allocator.places(s) == a.places(s) + if s1.contains(s)
                    || s2.contains(s) {
                    1nat
                } else {
                    0nat
                } by {
                assert(b.places(s) == a.places(s) + if s1.contains(s) {
                    1nat
                } else {
                    0nat
                });
            }
        }
    }

    pub fn len(&self) -> (r: u64)
        ensures
            r == self.readonly.phys.this.num_entries,
    {
        self.readonly.len()
    }

    pub fn is_empty(&self) -> (r: bool)
        ensures
            r <==> self.readonly.phys.this.num_entries == 0,
    {
        self.readonly.is_empty()
    }

    /// Size of the on-disk representation
    pub fn num_bytes(&self) -> (r: u64)
        requires
            self.readonly.phys.this.next_chunk_offset.0
                + self.readonly.phys.chunk_summary.next_chunk_offset.0 <= u64::MAX,
        ensures
            r == self.readonly.phys.this.next_chunk_offset.0
                + self.readonly.phys.chunk_summary.next_chunk_offset.0,
    {
        self.readonly.num_bytes()
    }
}

} // verus!
