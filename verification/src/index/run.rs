//! Runs of the index: the entries of a merge, sorted by key.
use super::{IndexEntry, IndexKey};
use crate::atime_histogram::AtimeHistogramPhys;
use crate::base_types::Atime;
use crate::binary_index_tree::suffix;
use crate::block_based_log::summarized::{
    chunk_for_key, searched, sorted, BlockBasedLogChunkSummaryEntry, LookupStep,
    ReadOnlySummarizedBlockBasedLog, SummarizedBlockBasedLog, SummarizedBlockBasedLogFlushDelta,
    SummarizedBlockBasedLogPhys,
};
use crate::block_based_log::{distinct_slabs, BlockBasedLogChunk, ChunkId};
use crate::lru_cache::chunk_cache::{chunk_put, position};
use crate::slab_allocator::{SlabAccess, SlabAllocator, SlabAllocatorBuilder, SlabId};
use vstd::prelude::*;

verus! {

/// The bytes of the entries with an atime.
pub open spec fn sizes_at(entries: Seq<IndexEntry>, t: int) -> int
    decreases entries.len(),
{
    if entries.len() == 0 {
        0
    } else {
        sizes_at(entries.drop_last(), t) + if entries.last().value.atime.0 == t {
            entries.last().value.spec_size()
        } else {
            0
        }
    }
}

/// The bytes of the entries.
pub open spec fn sizes_of(entries: Seq<IndexEntry>) -> int
    decreases entries.len(),
{
    if entries.len() == 0 {
        0
    } else {
        sizes_of(entries.drop_last()) + entries.last().value.spec_size()
    }
}

/// The atime behind the last one of the entries, if it is not before `end`.
pub open spec fn end_after(entries: Seq<IndexEntry>, end: int) -> int
    decreases entries.len(),
{
    if entries.len() == 0 {
        end
    } else {
        let e = end_after(entries.drop_last(), end);
        if entries.last().value.atime.0 < e {
            e
        } else {
            entries.last().value.atime.0 + 1
        }
    }
}

proof fn lemma_sizes_prefix(entries: Seq<IndexEntry>, n: int)
    requires
        0 <= n <= entries.len(),
    ensures
        0 <= sizes_of(entries.take(n)) <= sizes_of(entries),
    decreases entries.len(),
{
    if n == entries.len() {
        assert(entries.take(n) =~= entries);
        if n > 0 {
            lemma_sizes_prefix(entries.drop_last(), n - 1);
        }
    } else {
        lemma_sizes_prefix(entries.drop_last(), n);
        assert(entries.drop_last().take(n) =~= entries.take(n));
    }
}

/// The atimes of the entries can be counted, and their sizes added up.
pub open spec fn counts_fit(h: AtimeHistogramPhys, entries: Seq<IndexEntry>) -> bool {
    &&& suffix(h.histogram@, 0) + sizes_of(entries) <= u64::MAX
    &&& forall|i: int|
        0 <= i < entries.len() ==> h.first_ghost.0 <= (
        #[trigger] entries[i]).value.atime.0 < u32::MAX
}

/// Counts the entries of a list.
fn insert_all(h: &mut AtimeHistogramPhys, entries: &Vec<IndexEntry>)
    requires
        old(h).wf(),
        counts_fit(*old(h), entries@),
    ensures
        final(h).wf(),
        final(h).first_ghost == old(h).first_ghost,
        final(h).first_live == old(h).first_live,
        forall|t: int| #[trigger] final(h).at(t) == old(h).at(t) + sizes_at(entries@, t),
        final(h).end() == end_after(entries@, old(h).end()),
        suffix(final(h).histogram@, 0) == suffix(old(h).histogram@, 0) + sizes_of(entries@),
{
    let ghost h0 = *h;
    let mut i: usize = 0;
    proof {
        assert(entries@.take(0).len() == 0);
    }
    while i < entries.len()
        invariant
            i <= entries@.len(),
            h.wf(),
            counts_fit(h0, entries@),
            h.first_ghost == h0.first_ghost,
            h.first_live == h0.first_live,
            forall|t: int|
                #[trigger] h.at(t) == h0.at(t) + sizes_at(entries@.take(i as int), t),
            h.end() == end_after(entries@.take(i as int), h0.end()),
            suffix(h.histogram@, 0) == suffix(h0.histogram@, 0) + sizes_of(
                entries@.take(i as int),
            ),
        decreases entries@.len() - i,
    {
        let ghost h1 = *h;
        proof {
            assert(entries@.take(i + 1).drop_last() =~= entries@.take(i as int));
            lemma_sizes_prefix(entries@, i + 1);
        }
        h.insert(entries[i].value);
        proof {
            assert forall|t: int| #[trigger] h.at(t) == h0.at(t) + sizes_at(
                entries@.take(i + 1),
                t,
            ) by {
                assert(h1.at(t) == h0.at(t) + sizes_at(entries@.take(i as int), t));
            }
        }
        i += 1;
    }
    assert(entries@.take(i as int) =~= entries@);
}

/// What is stored of a run.
#[derive(Debug)]
pub struct IndexRunPhys {
    /// Entries at and before this key are no longer part of the index, and the histogram has not
    /// their space.
    pub trim_key: Option<IndexKey>,
    pub last_key: Option<IndexKey>,
    pub atime_histogram_phys: AtimeHistogramPhys,
    pub log: SummarizedBlockBasedLogPhys<IndexEntry>,
}

impl IndexRunPhys {
    pub fn new(first_ghost_atime: Atime, first_live_atime: Atime) -> (r: Self)
        ensures
            r.trim_key is None,
            r.last_key is None,
            r.atime_histogram_phys.wf(),
            r.atime_histogram_phys.histogram@.len() == 0,
            r.atime_histogram_phys.first_ghost == first_ghost_atime,
            r.atime_histogram_phys.first_live == first_live_atime,
            r.log.is_new(),
    {
        IndexRunPhys {
            trim_key: None,
            last_key: None,
            atime_histogram_phys: AtimeHistogramPhys::new(first_ghost_atime, first_live_atime),
            log: SummarizedBlockBasedLogPhys::new(),
        }
    }

    /// Marks the slabs of the run as used.
    pub fn claim(&self, builder: &mut SlabAllocatorBuilder)
        requires
            old(builder).wf(),
            distinct_slabs(self.log.all_slabs()),
            forall|i: int|
                0 <= i < self.log.all_slabs().len() ==> old(builder).unclaimed(
                    #[trigger] self.log.all_slabs()[i],
                ),
        ensures
            final(builder).wf(),
            final(builder).access == old(builder).access,
            forall|s: SlabId|
                #[trigger] final(builder).unclaimed(s) <==> old(builder).unclaimed(s)
                    && !self.log.all_slabs().contains(s),
    {
        self.log.claim(builder);
    }

    pub fn log_bytes(&self) -> (r: u64)
        requires
            self.log.chunk_summary.next_chunk_offset.0 + self.log.this.next_chunk_offset.0
                <= u64::MAX,
        ensures
            r == self.log.chunk_summary.next_chunk_offset.0 + self.log.this.next_chunk_offset.0,
    {
        self.log.bytes()
    }

    pub fn log_capacity_bytes(&self, access: &SlabAccess) -> (r: u64)
        requires
            self.log.this.wf(access.slab_size),
            self.log.chunk_summary.wf(access.slab_size),
            self.log.chunk_summary.slabs@.len() * access.slab_size + self.log.this.slabs@.len()
                * access.slab_size <= u64::MAX,
        ensures
            r == self.log.chunk_summary.slabs@.len() * access.slab_size
                + self.log.this.slabs@.len() * access.slab_size,
    {
        self.log.capacity_bytes(access)
    }

    pub fn atime_histogram(&self) -> (r: &AtimeHistogramPhys)
        ensures
            *r == self.atime_histogram_phys,
    {
        &self.atime_histogram_phys
    }

    pub fn last_key(&self) -> (r: Option<IndexKey>)
        ensures
            r == self.last_key,
    {
        self.last_key
    }

    /// Whether the histogram is that of the entries of the run.
    pub fn verify_histogram(&self, entries: &Vec<IndexEntry>) -> (r: bool)
        requires
            self.atime_histogram_phys.first_ghost.0 < u32::MAX,
            sizes_of(entries@) <= u64::MAX,
            forall|i: int|
                0 <= i < entries@.len() ==> self.atime_histogram_phys.first_ghost.0 <= (
                #[trigger] entries@[i]).value.atime.0 < u32::MAX,
        ensures
            r <==> {
                let h = self.atime_histogram_phys;
                &&& h.end() == end_after(entries@, h.first_ghost.0 as int)
                &&& forall|t: int| #[trigger] h.at(t) == sizes_at(entries@, t)
            },
    {
        let mut h = AtimeHistogramPhys::new(
            self.atime_histogram_phys.first_ghost(),
            self.atime_histogram_phys.first_live(),
        );
        let ghost h0 = h;
        insert_all(&mut h, entries);
        proof {
            let a = h;
            let b = self.atime_histogram_phys;
            assert forall|t: int| #[trigger] a.at(t) == sizes_at(entries@, t) by {
                assert(h0.at(t) == 0);
            }
            assert(a.histogram@ == b.histogram@ <==> a.end() == b.end() && forall|t: int|
                #[trigger] b.at(t) == sizes_at(entries@, t)) by {
                if a.histogram@ == b.histogram@ {
                    assert forall|t: int| #[trigger] b.at(t) == sizes_at(entries@, t) by {
                        assert(a.at(t) == b.at(t));
                    }
                }
                if a.end() == b.end() && forall|t: int|
                    #[trigger] b.at(t) == sizes_at(entries@, t) {
                    assert forall|i: int| 0 <= i < a.histogram@.len() implies a.histogram@[i]
                        == b.histogram@[i] by {
                        let t = i + a.first_ghost.0;
                        assert(a.at(t) == sizes_at(entries@, t));
                        assert(b.at(t) == sizes_at(entries@, t));
                    }
                    assert(a.histogram@ =~= b.histogram@);
                }
            }
        }
        h.same(&self.atime_histogram_phys)
    }
}

/// A run that is written.
pub struct IndexRun {
    /// The key and all before it are logically removed from the index.
    pub trim_key: Option<IndexKey>,
    pub last_key: Option<IndexKey>,
    pub atime_histogram_phys: AtimeHistogramPhys,
    pub log: SummarizedBlockBasedLog<IndexEntry>,
}

/// What a flush added to a run.
pub struct IndexFlushDelta(pub SummarizedBlockBasedLogFlushDelta<IndexEntry>);

impl IndexFlushDelta {
    pub fn is_empty(&self) -> (r: bool)
        ensures
            r <==> self.0.new_chunks@.len() == 0,
    {
        self.0.new_chunks.len() == 0
    }
}

/// Whether the first key is not after the second. No key is before all others.
pub open spec fn not_after(a: Option<IndexKey>, b: IndexKey) -> bool {
    a matches Some(k) ==> k.place() <= b.place()
}

/// Whether the record of a log in one place is that in the other.
pub open spec fn same_log(
    a: SummarizedBlockBasedLogPhys<IndexEntry>,
    b: SummarizedBlockBasedLogPhys<IndexEntry>,
) -> bool {
    &&& a.this.slabs@ == b.this.slabs@
    &&& a.this.next_chunk == b.this.next_chunk
    &&& a.this.next_chunk_offset == b.this.next_chunk_offset
    &&& a.this.num_entries == b.this.num_entries
    &&& a.chunk_summary.slabs@ == b.chunk_summary.slabs@
    &&& a.chunk_summary.next_chunk == b.chunk_summary.next_chunk
    &&& a.chunk_summary.next_chunk_offset == b.chunk_summary.next_chunk_offset
    &&& a.chunk_summary.num_entries == b.chunk_summary.num_entries
}

impl IndexRun {
    /// The run, with the summary that was read from it, and with room for some chunks in memory.
    pub fn open(
        phys: IndexRunPhys,
        summary: &Vec<BlockBasedLogChunkSummaryEntry<IndexEntry>>,
        chunk_cache_entries: usize,
    ) -> (r: Self)
        requires
            chunk_cache_entries <= usize::MAX / 256,
        ensures
            r.trim_key == phys.trim_key,
            r.last_key == phys.last_key,
            r.atime_histogram_phys == phys.atime_histogram_phys,
            r.log.readonly.phys == phys.log,
            r.log.readonly.cache_wf(),
            r.log.readonly.chunk_cache.held().len() == 0,
            r.log.readonly.chunk_cache.cap == chunk_cache_entries,
            r.log.readonly.chunks@.len() == summary@.len(),
            forall|i: int|
                0 <= i < summary@.len() ==> {
                    &&& (#[trigger] r.log.readonly.chunks@[i]).offset == summary@[i].offset
                    &&& r.log.readonly.chunks@[i].first_key == summary@[i].first_entry.key
                },
            r.log.this.pending_entries@.len() == 0,
            r.log.chunk_summary.pending_entries@.len() == 0,
            r.log.this.phys.slabs@ == phys.log.this.slabs@,
            r.log.this.phys.next_chunk == phys.log.this.next_chunk,
            r.log.this.phys.next_chunk_offset == phys.log.this.next_chunk_offset,
            r.log.this.phys.num_entries == phys.log.this.num_entries,
            r.log.chunk_summary.phys.slabs@ == phys.log.chunk_summary.slabs@,
            r.log.chunk_summary.phys.next_chunk == phys.log.chunk_summary.next_chunk,
            r.log.chunk_summary.phys.next_chunk_offset == phys.log.chunk_summary.next_chunk_offset,
            r.log.chunk_summary.phys.num_entries == phys.log.chunk_summary.num_entries,
    {
        IndexRun {
            trim_key: phys.trim_key,
            last_key: phys.last_key,
            atime_histogram_phys: phys.atime_histogram_phys,
            log: SummarizedBlockBasedLog::open(phys.log, summary, chunk_cache_entries),
        }
    }

    /// Starts a flush. The log places the chunks; they are added to the delta.
    pub fn flush_begin(&self) -> (r: IndexFlushDelta)
        ensures
            r.0.first_new_chunk == self.log.this.phys.next_chunk,
            r.0.new_chunks@.len() == 0,
    {
        IndexFlushDelta(self.log.flush_begin())
    }

    /// Ends a flush, once all has been written. Returns what is to be stored of the run.
    pub fn flush_end(&mut self, delta: &IndexFlushDelta) -> (r: IndexRunPhys)
        requires
            delta.0.first_new_chunk == old(self).log.readonly.phys.this.next_chunk,
        ensures
            final(self).trim_key == old(self).trim_key,
            final(self).last_key == old(self).last_key,
            final(self).atime_histogram_phys == old(self).atime_histogram_phys,
            final(self).log.this == old(self).log.this,
            final(self).log.chunk_summary == old(self).log.chunk_summary,
            final(self).log.readonly.chunks@ == old(self).log.readonly.chunks@
                + delta.0.new_chunks@,
            final(self).log.readonly.chunk_cache == old(self).log.readonly.chunk_cache,
            same_log(
                final(self).log.readonly.phys,
                (SummarizedBlockBasedLogPhys {
                    this: old(self).log.this.phys,
                    chunk_summary: old(self).log.chunk_summary.phys,
                }),
            ),
            r.trim_key == old(self).trim_key,
            r.last_key == old(self).last_key,
            r.atime_histogram_phys.histogram@ == old(self).atime_histogram_phys.histogram@,
            r.atime_histogram_phys.first_ghost == old(self).atime_histogram_phys.first_ghost,
            r.atime_histogram_phys.first_live == old(self).atime_histogram_phys.first_live,
            same_log(r.log, final(self).log.readonly.phys),
    {
        self.log.flush_end(&delta.0);
        IndexRunPhys {
            trim_key: self.trim_key,
            last_key: self.last_key,
            atime_histogram_phys: self.atime_histogram_phys.copy(),
            log: self.log.readonly.phys.copy(),
        }
    }

    pub fn atime_histogram(&self) -> (r: &AtimeHistogramPhys)
        ensures
            *r == self.atime_histogram_phys,
    {
        &self.atime_histogram_phys
    }

    pub fn first_ghost_atime(&self) -> (r: Atime)
        ensures
            r == self.atime_histogram_phys.first_ghost,
    {
        self.atime_histogram_phys.first_ghost()
    }

    pub fn first_live_atime(&self) -> (r: Atime)
        ensures
            r == self.atime_histogram_phys.first_live,
    {
        self.atime_histogram_phys.first_live()
    }

    /// Notes how far the run goes; it only gets longer.
    pub fn update_last_key(&mut self, key: IndexKey)
        requires
            not_after(old(self).last_key, key),
        ensures
            *final(self) == (IndexRun { last_key: Some(key), ..*old(self) }),
    {
        self.last_key = Some(key);
    }

    /// Adds entries at the end.
    pub fn append(&mut self, list: Vec<IndexEntry>)
        requires
            list@.len() > 0 ==> not_after(old(self).last_key, list@.last().key),
            old(self).atime_histogram_phys.wf(),
            counts_fit(old(self).atime_histogram_phys, list@),
        ensures
            final(self).trim_key == old(self).trim_key,
            final(self).last_key == if list@.len() > 0 {
                Some(list@.last().key)
            } else {
                old(self).last_key
            },
            final(self).atime_histogram_phys.wf(),
            final(self).atime_histogram_phys.first_ghost
                == old(self).atime_histogram_phys.first_ghost,
            final(self).atime_histogram_phys.first_live
                == old(self).atime_histogram_phys.first_live,
            forall|t: int|
                #[trigger] final(self).atime_histogram_phys.at(t) == old(
                    self).atime_histogram_phys.at(t) + sizes_at(list@, t),
            final(self).atime_histogram_phys.end() == end_after(
                list@,
                old(self).atime_histogram_phys.end(),
            ),
            final(self).log.readonly == old(self).log.readonly,
            final(self).log.chunk_summary == old(self).log.chunk_summary,
            final(self).log.this.phys == old(self).log.this.phys,
            final(self).log.this.pending_entries@ == old(self).log.this.pending_entries@ + list@,
    {
        if list.len() > 0 {
            let last = list[list.len() - 1];
            self.update_last_key(last.key);
        }
        insert_all(&mut self.atime_histogram_phys, &list);
        self.log.append(list);
    }

    /// Removes all entries and gives the slabs back.
    pub fn clear(&mut self, slab_allocator: &mut SlabAllocator)
        requires
            old(self).atime_histogram_phys.wf(),
            old(self).log.this.wf(*old(slab_allocator)),
            old(self).log.chunk_summary.wf(*old(slab_allocator)),
            forall|i: int, j: int|
                0 <= i < old(self).log.this.phys.slabs@.len() && 0 <= j < old(
                    self).log.chunk_summary.phys.slabs@.len() ==> (
                #[trigger] old(self).log.this.phys.slabs@[i]) != (
                #[trigger] old(self).log.chunk_summary.phys.slabs@[j]),
        ensures
            final(self).trim_key == old(self).trim_key,
            final(self).last_key is None,
            final(self).atime_histogram_phys.wf(),
            final(self).atime_histogram_phys.histogram@.len() == 0,
            final(self).atime_histogram_phys.first_ghost
                == old(self).atime_histogram_phys.first_ghost,
            final(self).atime_histogram_phys.first_live
                == old(self).atime_histogram_phys.first_live,
            final(self).log.this.phys.is_new(),
            final(self).log.this.pending_entries@.len() == 0,
            final(self).log.chunk_summary.phys.is_new(),
            final(self).log.chunk_summary.pending_entries@.len() == 0,
            final(self).log.readonly == old(self).log.readonly,
            final(slab_allocator).wf(),
            final(slab_allocator).access == old(slab_allocator).access,
            final(slab_allocator).allocatable == old(slab_allocator).allocatable,
            final(slab_allocator).noalloc_state == old(slab_allocator).noalloc_state,
            final(slab_allocator).reserved_slabs == old(slab_allocator).reserved_slabs,
            old(slab_allocator).separate() ==> final(slab_allocator).separate(),
            forall|s: SlabId|
                #[trigger] final(slab_allocator).places(s) == old(slab_allocator).places(s)
                    + if old(self).log.this.phys.slabs@.contains(s) || old(
                    self).log.chunk_summary.phys.slabs@.contains(s) {
                    1nat
                } else {
                    0nat
                },
    {
        self.last_key = None;
        self.atime_histogram_phys.clear();
        self.log.clear(slab_allocator);
    }

    /// Logically removes the entries at and before a key, which is not before the last one that
    /// was trimmed to. `obsoleted` is the histogram of the entries that go.
    pub fn trim(&mut self, trim_key: IndexKey, obsoleted: &AtimeHistogramPhys)
        requires
            not_after(old(self).trim_key, trim_key),
            old(self).atime_histogram_phys.wf(),
            old(self).atime_histogram_phys.first_ghost.0 <= obsoleted.first_ghost.0,
            obsoleted.end() <= old(self).atime_histogram_phys.end(),
            forall|t: int| #[trigger] obsoleted.at(t) <= old(self).atime_histogram_phys.at(t),
        ensures
            final(self).trim_key == Some(trim_key),
            final(self).last_key == match old(self).last_key {
                Some(last) => if last.place() > trim_key.place() {
                    Some(last)
                } else {
                    Some(trim_key)
                },
                None => Some(trim_key),
            },
            final(self).log == old(self).log,
            final(self).atime_histogram_phys.wf(),
            final(self).atime_histogram_phys.first_ghost
                == old(self).atime_histogram_phys.first_ghost,
            final(self).atime_histogram_phys.first_live
                == old(self).atime_histogram_phys.first_live,
            final(self).atime_histogram_phys.end() == old(self).atime_histogram_phys.end(),
            forall|t: int|
                #[trigger] final(self).atime_histogram_phys.at(t) == old(
                    self).atime_histogram_phys.at(t) - obsoleted.at(t),
    {
        let last_key = match self.last_key {
            Some(last) => if trim_key.before(&last) {
                last
            } else {
                trim_key
            },
            None => trim_key,
        };
        self.last_key = Some(last_key);
        self.trim_key = Some(trim_key);
        self.atime_histogram_phys.subtract(obsoleted);
    }

    pub fn len(&self) -> (r: u64)
        ensures
            r == self.log.readonly.phys.this.num_entries,
    {
        self.log.len()
    }

    pub fn num_bytes(&self) -> (r: u64)
        requires
            self.log.readonly.phys.this.next_chunk_offset.0
                + self.log.readonly.phys.chunk_summary.next_chunk_offset.0 <= u64::MAX,
        ensures
            r == self.log.readonly.phys.this.next_chunk_offset.0
                + self.log.readonly.phys.chunk_summary.next_chunk_offset.0,
    {
        self.log.num_bytes()
    }

    pub fn trim_key(&self) -> (r: Option<IndexKey>)
        ensures
            r == self.trim_key,
    {
        self.trim_key
    }

    pub fn last_key(&self) -> (r: Option<IndexKey>)
        ensures
            r == self.last_key,
    {
        self.last_key
    }

    /// Starts to look for a key, which has not been trimmed. Says what the cached chunk has, or
    /// which chunk has to be read.
    pub fn lookup(&mut self, access: &SlabAccess, key: IndexKey) -> (r: LookupStep<IndexEntry>)
        requires
            old(self).trim_key matches Some(k) ==> k.place() < key.place(),
            old(self).log.readonly.wf(*access),
            old(self).log.readonly.cache_wf(),
        ensures
            final(self).trim_key == old(self).trim_key,
            final(self).last_key == old(self).last_key,
            final(self).atime_histogram_phys == old(self).atime_histogram_phys,
            final(self).log.this == old(self).log.this,
            final(self).log.chunk_summary == old(self).log.chunk_summary,
            final(self).log.readonly.wf(*access),
            final(self).log.readonly.cache_wf(),
            final(self).log.readonly.phys == old(self).log.readonly.phys,
            final(self).log.readonly.chunks == old(self).log.readonly.chunks,
            final(self).log.readonly.chunk_cache.cap == old(self).log.readonly.chunk_cache.cap,
            r is Absent <==> old(self).log.readonly.chunks@.len() == 0 || key.place()
                < old(self).log.readonly.chunks@[0].first_key.place(),
            r is Absent ==> final(self).log.readonly.chunk_cache == old(self).log.readonly.chunk_cache,
            r matches LookupStep::Cached(found) ==> exists|id: ChunkId|
                {
                    let held = old(self).log.readonly.chunk_cache.held();
                    &&& #[trigger] chunk_for_key(old(self).log.readonly.chunks@, key.place(), id.0 as int)
                    &&& position(held, id) matches Some(i)
                    &&& searched(held[i].entries@, key.place(), found)
                    &&& final(self).log.readonly.chunk_cache.held() == seq![held[i]] + held.remove(i)
                },
            r matches LookupStep::Read { chunk_id, extent } ==> {
                &&& chunk_for_key(old(self).log.readonly.chunks@, key.place(), chunk_id.0 as int)
                &&& position(old(self).log.readonly.chunk_cache.held(), chunk_id) is None
                &&& final(self).log.readonly.chunk_cache.held() == old(self).log.readonly.chunk_cache.held()
                &&& extent.location == old(self).log.readonly.phys.this.spec_location(
                    *access,
                    old(self).log.readonly.chunks@[chunk_id.0 as int].offset.0 as int,
                )
                &&& extent.size == old(self).log.readonly.chunk_end(chunk_id.0 as int) - old(
                    self).log.readonly.chunks@[chunk_id.0 as int].offset.0
            },
    {
        self.log.readonly.lookup_by_key(access, &key)
    }

    /// Ends the search for a key in the chunk that was read.
    pub fn lookup_read(&mut self, key: IndexKey, chunk: BlockBasedLogChunk<IndexEntry>) -> (r:
        Option<IndexEntry>)
        requires
            old(self).log.readonly.cache_wf(),
            sorted(chunk.entries@),
        ensures
            final(self).trim_key == old(self).trim_key,
            final(self).last_key == old(self).last_key,
            final(self).atime_histogram_phys == old(self).atime_histogram_phys,
            final(self).log.this == old(self).log.this,
            final(self).log.chunk_summary == old(self).log.chunk_summary,
            final(self).log.readonly.cache_wf(),
            final(self).log.readonly.phys == old(self).log.readonly.phys,
            final(self).log.readonly.chunks == old(self).log.readonly.chunks,
            final(self).log.readonly.chunk_cache.cap == old(self).log.readonly.chunk_cache.cap,
            final(self).log.readonly.chunk_cache.held() == chunk_put(
                old(self).log.readonly.chunk_cache.held(),
                old(self).log.readonly.chunk_cache.cap as nat,
                chunk,
            ),
            searched(chunk.entries@, key.place(), r),
    {
        self.log.readonly.lookup_by_key_read(&key, chunk)
    }
}

/// A run that is only read.
pub struct ReadOnlyIndexRun {
    pub trim_key: Option<IndexKey>,
    pub last_key: Option<IndexKey>,
    pub log: ReadOnlySummarizedBlockBasedLog<IndexEntry>,
}

impl ReadOnlyIndexRun {
    /// The run, with the summary that was read from it, and with room for some chunks in memory.
    pub fn open(
        phys: IndexRunPhys,
        summary: &Vec<BlockBasedLogChunkSummaryEntry<IndexEntry>>,
        chunk_cache_entries: usize,
    ) -> (r: Self)
        requires
            chunk_cache_entries <= usize::MAX / 256,
        ensures
            r.trim_key == phys.trim_key,
            r.last_key == phys.last_key,
            r.log.phys == phys.log,
            r.log.cache_wf(),
            r.log.chunk_cache.held().len() == 0,
            r.log.chunk_cache.cap == chunk_cache_entries,
            r.log.chunks@.len() == summary@.len(),
            forall|i: int|
                0 <= i < summary@.len() ==> {
                    &&& (#[trigger] r.log.chunks@[i]).offset == summary@[i].offset
                    &&& r.log.chunks@[i].first_key == summary@[i].first_entry.key
                },
    {
        ReadOnlyIndexRun {
            trim_key: phys.trim_key,
            last_key: phys.last_key,
            log: ReadOnlySummarizedBlockBasedLog::open(phys.log, summary, chunk_cache_entries),
        }
    }

    pub fn last_key(&self) -> (r: Option<IndexKey>)
        ensures
            r == self.last_key,
    {
        self.last_key
    }

    /// Starts to look for a key, which has not been trimmed. Says what the cached chunk has, or
    /// which chunk has to be read.
    pub fn lookup(&mut self, access: &SlabAccess, key: IndexKey) -> (r: LookupStep<IndexEntry>)
        requires
            old(self).trim_key matches Some(k) ==> k.place() < key.place(),
            old(self).log.wf(*access),
            old(self).log.cache_wf(),
        ensures
            final(self).trim_key == old(self).trim_key,
            final(self).last_key == old(self).last_key,
            final(self).log.wf(*access),
            final(self).log.cache_wf(),
            final(self).log.phys == old(self).log.phys,
            final(self).log.chunks == old(self).log.chunks,
            final(self).log.chunk_cache.cap == old(self).log.chunk_cache.cap,
            r is Absent <==> old(self).log.chunks@.len() == 0 || key.place()
                < old(self).log.chunks@[0].first_key.place(),
            r is Absent ==> final(self).log.chunk_cache == old(self).log.chunk_cache,
            r matches LookupStep::Cached(found) ==> exists|id: ChunkId|
                {
                    let held = old(self).log.chunk_cache.held();
                    &&& #[trigger] chunk_for_key(old(self).log.chunks@, key.place(), id.0 as int)
                    &&& position(held, id) matches Some(i)
                    &&& searched(held[i].entries@, key.place(), found)
                    &&& final(self).log.chunk_cache.held() == seq![held[i]] + held.remove(i)
                },
            r matches LookupStep::Read { chunk_id, extent } ==> {
                &&& chunk_for_key(old(self).log.chunks@, key.place(), chunk_id.0 as int)
                &&& position(old(self).log.chunk_cache.held(), chunk_id) is None
                &&& final(self).log.chunk_cache.held() == old(self).log.chunk_cache.held()
                &&& extent.location == old(self).log.phys.this.spec_location(
                    *access,
                    old(self).log.chunks@[chunk_id.0 as int].offset.0 as int,
                )
                &&& extent.size == old(self).log.chunk_end(chunk_id.0 as int) - old(
                    self).log.chunks@[chunk_id.0 as int].offset.0
            },
    {
        self.log.lookup_by_key(access, &key)
    }

    /// Ends the search for a key in the chunk that was read.
    pub fn lookup_read(&mut self, key: IndexKey, chunk: BlockBasedLogChunk<IndexEntry>) -> (r:
        Option<IndexEntry>)
        requires
            old(self).log.cache_wf(),
            sorted(chunk.entries@),
        ensures
            final(self).trim_key == old(self).trim_key,
            final(self).last_key == old(self).last_key,
            final(self).log.cache_wf(),
            final(self).log.phys == old(self).log.phys,
            final(self).log.chunks == old(self).log.chunks,
            final(self).log.chunk_cache.cap == old(self).log.chunk_cache.cap,
            final(self).log.chunk_cache.held() == chunk_put(
                old(self).log.chunk_cache.held(),
                old(self).log.chunk_cache.cap as nat,
                chunk,
            ),
            searched(chunk.entries@, key.place(), r),
    {
        self.log.lookup_by_key_read(&key, chunk)
    }

    /// Updates this readonly view to reflect newly-appended chunks.
    pub fn update(&mut self, phys: IndexRunPhys, new_chunks: &IndexFlushDelta)
        requires
            new_chunks.0.first_new_chunk == old(self).log.phys.this.next_chunk,
        ensures
            final(self).trim_key == phys.trim_key,
            final(self).last_key == phys.last_key,
            final(self).log.phys == phys.log,
            final(self).log.chunks@ == old(self).log.chunks@ + new_chunks.0.new_chunks@,
            final(self).log.chunk_cache == old(self).log.chunk_cache,
    {
        self.trim_key = phys.trim_key;
        self.last_key = phys.last_key;
        self.log.update(phys.log, &new_chunks.0);
    }
}

/// The histogram of a run stays that of its entries: what is appended is added to it, and what is
/// trimmed is taken from it.
pub proof fn law_run_histogram(
    before: Seq<IndexEntry>,
    appended: Seq<IndexEntry>,
    trimmed: int,
    h0: AtimeHistogramPhys,
    h1: AtimeHistogramPhys,
    obsoleted: AtimeHistogramPhys,
    h2: AtimeHistogramPhys,
)
    requires
        forall|t: int| #[trigger] h0.at(t) == sizes_at(before, t),
        forall|t: int| #[trigger] h1.at(t) == h0.at(t) + sizes_at(appended, t),
        0 <= trimmed <= (before + appended).len(),
        forall|t: int|
            #[trigger] obsoleted.at(t) == sizes_at((before + appended).take(trimmed), t),
        forall|t: int| #[trigger] h2.at(t) == h1.at(t) - obsoleted.at(t),
    ensures
        forall|t: int| #[trigger] h1.at(t) == sizes_at(before + appended, t),
        forall|t: int| #[trigger] h2.at(t) == sizes_at((before + appended).skip(trimmed), t),
{
    let all = before + appended;
    assert forall|t: int| #[trigger] h1.at(t) == sizes_at(all, t) by {
        assert(h0.at(t) == sizes_at(before, t));
        lemma_sizes_joined(before, appended, t);
    }
    assert forall|t: int| #[trigger] h2.at(t) == sizes_at(all.skip(trimmed), t) by {
        assert(h1.at(t) == sizes_at(all, t));
        assert(obsoleted.at(t) == sizes_at(all.take(trimmed), t));
        lemma_sizes_joined(all.take(trimmed), all.skip(trimmed), t);
        assert(all.take(trimmed) + all.skip(trimmed) =~= all);
    }
}

proof fn lemma_sizes_joined(a: Seq<IndexEntry>, b: Seq<IndexEntry>, t: int)
    ensures
        sizes_at(a + b, t) == sizes_at(a, t) + sizes_at(b, t),
    decreases b.len(),
{
    if b.len() == 0 {
        assert(a + b =~= a);
    } else {
        lemma_sizes_joined(a, b.drop_last(), t);
        assert((a + b).drop_last() =~= a + b.drop_last());
    }
}

/// The bytes of an entry are counted for when it was accessed, and the atimes go as far as that.
pub proof fn law_entry_is_counted(entries: Seq<IndexEntry>, e: IndexEntry, end: int, t: int)
    ensures
        sizes_at(entries.push(e), t) == sizes_at(entries, t) + if t == e.value.atime.0 {
            e.value.sectors * 512
        } else {
            0
        },
        sizes_at(Seq::empty(), t) == 0,
        end_after(entries.push(e), end) > e.value.atime.0,
        end_after(entries.push(e), end) >= end_after(entries, end),
        end_after(entries.push(e), end) == end_after(entries, end) || end_after(
            entries.push(e),
            end,
        ) == e.value.atime.0 + 1,
        end_after(Seq::empty(), end) == end,
{
    assert(entries.push(e).drop_last() =~= entries);
}

} // verus!
