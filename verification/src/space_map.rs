//! The log of allocations and frees from which the state of the slabs is rebuilt.
use crate::base_types::{Extent, SECTOR};
use crate::block_allocator::SlabPhysType;
use crate::block_based_log::{
    chunk_len, half, placed_chunk, BlockBasedLog, BlockBasedLogPhys, ChunkPlacement, LogFlush,
};
use crate::range_tree::span;
use crate::slab_allocator::{SlabAllocator, SlabAllocatorBuilder, SlabId};
use vstd::prelude::*;

verus! {

#[derive(Debug, Clone, Copy, PartialEq, Eq, Structural)]
pub enum SpaceMapEntry {
    Alloc(Extent),
    Free(Extent),
    SlabInfo(SlabId, SlabPhysType),
}

#[derive(Debug)]
pub struct SpaceMapPhys {
    pub log: BlockBasedLogPhys<SpaceMapEntry>,
    pub alloc_entries: u64,
}

impl SpaceMapPhys {
    pub fn new() -> (r: SpaceMapPhys)
        ensures
            r.log.is_new(),
            r.alloc_entries == 0,
    {
        SpaceMapPhys { log: BlockBasedLogPhys::new(), alloc_entries: 0 }
    }

    pub fn claim(&self, builder: &mut SlabAllocatorBuilder)
        requires
            old(builder).wf(),
            crate::block_based_log::distinct_slabs(self.log.slabs@),
            forall|i: int|
                0 <= i < self.log.slabs@.len() ==> old(builder).unclaimed(
                    #[trigger] self.log.slabs@[i],
                ),
        ensures
            final(builder).wf(),
            final(builder).access == old(builder).access,
            forall|s: SlabId|
                #[trigger] final(builder).unclaimed(s) <==> old(builder).unclaimed(s)
                    && !self.log.slabs@.contains(s),
    {
        self.log.claim(builder);
    }

    pub fn bytes(&self) -> (r: u64)
        ensures
            r == self.log.next_chunk_offset.0,
    {
        self.log.bytes()
    }

    pub fn total_entries(&self) -> (r: u64)
        ensures
            r == self.log.num_entries,
    {
        self.log.len()
    }
}

/// The number of allocations that have been recorded, after some more entries.
pub open spec fn allocs_after(n: u64, entries: Seq<SpaceMapEntry>) -> u64
    decreases entries.len(),
{
    if entries.len() == 0 {
        n
    } else {
        let before = allocs_after(n, entries.drop_last());
        if entries.last() is Alloc {
            before.wrapping_add(1)
        } else {
            before
        }
    }
}

pub proof fn lemma_allocs_append(n: u64, a: Seq<SpaceMapEntry>, b: Seq<SpaceMapEntry>)
    ensures
        allocs_after(n, a + b) == allocs_after(allocs_after(n, a), b),
    decreases b.len(),
{
    if b.len() == 0 {
        assert(a + b =~= a);
    } else {
        assert((a + b).drop_last() =~= a + b.drop_last());
        assert((a + b).last() == b.last());
        lemma_allocs_append(n, a, b.drop_last());
    }
}

/// The map has been continued with some entries, which are still to be written. What is stored
/// of it is as before.
pub open spec fn continued(a: SpaceMap, b: SpaceMap, entries: Seq<SpaceMapEntry>) -> bool {
    &&& b.log.phys == a.log.phys
    &&& b.written == a.written
    &&& b.all() == a.all() + entries
    &&& b.alloc_entries == allocs_after(a.alloc_entries, entries)
}

pub proof fn lemma_continued(
    a: SpaceMap,
    b: SpaceMap,
    c: SpaceMap,
    x: Seq<SpaceMapEntry>,
    y: Seq<SpaceMapEntry>,
)
    requires
        continued(a, b, x),
        continued(b, c, y),
    ensures
        continued(a, c, x + y),
{
    lemma_allocs_append(a.alloc_entries, x, y);
    assert(a.all() + x + y =~= a.all() + (x + y));
}

/// What a slab is used for is one entry, and no allocation.
pub proof fn lemma_continued_by_info(a: SpaceMap, b: SpaceMap, id: SlabId, slab_type: SlabPhysType)
    requires
        b.log.phys == a.log.phys,
        b.written == a.written,
        b.all() == a.all().push(SpaceMapEntry::SlabInfo(id, slab_type)),
        b.alloc_entries == a.alloc_entries,
    ensures
        continued(a, b, seq![SpaceMapEntry::SlabInfo(id, slab_type)]),
{
    let entries = seq![SpaceMapEntry::SlabInfo(id, slab_type)];
    assert(a.all() + entries =~= b.all());
    assert(entries.drop_last() =~= Seq::<SpaceMapEntry>::empty());
    assert(entries.last() == SpaceMapEntry::SlabInfo(id, slab_type));
    reveal_with_fuel(allocs_after, 2);
}

pub proof fn lemma_continued_by_none(a: SpaceMap, entries: Seq<SpaceMapEntry>)
    requires
        entries.len() == 0,
    ensures
        continued(a, a, entries),
{
    assert(a.all() + entries =~= a.all());
}

/// A space map that is written to.
pub struct SpaceMap {
    pub log: BlockBasedLog<SpaceMapEntry>,
    /// This is only used for printing out the size that the map would have if it was condensed.
    pub alloc_entries: u64,
    /// The entries that have been written.
    pub written: Ghost<Seq<SpaceMapEntry>>,
}

impl SpaceMap {
    /// All entries, written or pending.
    pub open spec fn all(&self) -> Seq<SpaceMapEntry> {
        self.written@ + self.log.pending_entries@
    }

    /// Opens a map whose log holds the entries `written`.
    pub fn open(phys: SpaceMapPhys, written: Ghost<Seq<SpaceMapEntry>>) -> (r: SpaceMap)
        ensures
            r.log.phys == phys.log,
            r.log.pending_entries@.len() == 0,
            r.alloc_entries == phys.alloc_entries,
            r.all() == written@,
    {
        let r = SpaceMap {
            log: BlockBasedLog::open(phys.log),
            alloc_entries: phys.alloc_entries,
            written,
        };
        assert(r.all() =~= written@);
        r
    }

    /// Opens an empty map.
    pub fn open_new() -> (r: SpaceMap)
        ensures
            r.log.phys.is_new(),
            r.log.pending_entries@.len() == 0,
            r.alloc_entries == 0,
            r.all().len() == 0,
    {
        SpaceMap::open(SpaceMapPhys::new(), Ghost(Seq::empty()))
    }

    pub fn alloc_extent(&mut self, extent: Extent)
        ensures
            final(self).log.phys == old(self).log.phys,
            final(self).written == old(self).written,
            final(self).all() == if extent.size != 0 {
                old(self).all().push(SpaceMapEntry::Alloc(extent))
            } else {
                old(self).all()
            },
            final(self).alloc_entries == if extent.size != 0 {
                old(self).alloc_entries.wrapping_add(1)
            } else {
                old(self).alloc_entries
            },
    {
        let ghost a = self.all();
        if extent.size != 0 {
            self.log.push(SpaceMapEntry::Alloc(extent));
            self.alloc_entries = self.alloc_entries.wrapping_add(1);
            assert(self.all() =~= a.push(SpaceMapEntry::Alloc(extent)));
        }
    }

    pub fn free(&mut self, extent: Extent)
        ensures
            final(self).log.phys == old(self).log.phys,
            final(self).written == old(self).written,
            final(self).all() == if extent.size != 0 {
                old(self).all().push(SpaceMapEntry::Free(extent))
            } else {
                old(self).all()
            },
            final(self).alloc_entries == old(self).alloc_entries,
    {
        let ghost a = self.all();
        if extent.size != 0 {
            self.log.push(SpaceMapEntry::Free(extent));
            assert(self.all() =~= a.push(SpaceMapEntry::Free(extent)));
        }
    }

    pub fn mark_slab_info(&mut self, slab_id: SlabId, slab_type: SlabPhysType)
        ensures
            final(self).log.phys == old(self).log.phys,
            final(self).written == old(self).written,
            final(self).all() == old(self).all().push(SpaceMapEntry::SlabInfo(slab_id, slab_type)),
            final(self).alloc_entries == old(self).alloc_entries,
    {
        let ghost a = self.all();
        self.log.push(SpaceMapEntry::SlabInfo(slab_id, slab_type));
        assert(self.all() =~= a.push(SpaceMapEntry::SlabInfo(slab_id, slab_type)));
    }

    /// Places the next chunk of pending entries.
    pub fn flush_step(
        &mut self,
        flush: &mut LogFlush,
        slab_allocator: &mut SlabAllocator,
        super_reserved: u64,
        raw_size: u64,
    ) -> (r: ChunkPlacement)
        requires
            old(self).log.wf(*old(slab_allocator)),
            old(flush).wf(old(self).log.pending_entries@.len() as int),
            old(flush).done < old(self).log.pending_entries@.len(),
            0 < raw_size <= old(slab_allocator).access.slab_size,
            raw_size % SECTOR == 0,
            old(self).log.phys.num_entries + old(self).log.pending_entries@.len() <= u64::MAX,
            old(self).log.phys.next_chunk.0 < u64::MAX,
            chunk_len(
                old(self).log.pending_entries@.len() - old(flush).done,
                *old(flush),
            ) == 1 ==> (old(self).log.phys.spec_next_extent(old(slab_allocator).access) matches Some(e)
                ==> raw_size <= e.size),
            old(self).log.phys.spec_next_extent(old(slab_allocator).access) is None ==> {
                &&& old(slab_allocator).allocatable@.len() > super_reserved
                &&& (old(self).log.phys.slabs@.len() + 1) * old(slab_allocator).access.slab_size
                    <= u64::MAX
            },
        ensures
            final(self).log.wf(*final(slab_allocator)),
            final(flush).wf(final(self).log.pending_entries@.len() as int),
            final(flush).entries_per_chunk == old(flush).entries_per_chunk,
            final(self).all() == old(self).all(),
            final(self).log.pending_entries == old(self).log.pending_entries,
            final(self).alloc_entries == old(self).alloc_entries,
            final(slab_allocator).access == old(slab_allocator).access,
            old(slab_allocator).separate() ==> final(slab_allocator).separate(),
            ({
                let n = chunk_len(
                    old(self).log.pending_entries@.len() - old(flush).done,
                    *old(flush),
                );
                &&& placed_chunk(
                    old(self).log.phys,
                    final(self).log.phys,
                    *old(slab_allocator),
                    *final(slab_allocator),
                    n,
                    raw_size as int,
                    r,
                )
                &&& match r {
                    ChunkPlacement::TrySmaller => {
                        &&& final(flush).done == old(flush).done
                        &&& final(flush).max_entries == Some(half(n) as usize)
                        &&& half(n) < n
                    },
                    ChunkPlacement::Write { .. } => {
                        &&& final(flush).done == old(flush).done + n
                        &&& final(flush).max_entries is None
                    },
                }
            }),
    {
        self.log.flush_step(flush, slab_allocator, super_reserved, raw_size)
    }

    /// Takes note that the pending entries have been written, as the chunks of the log.
    pub fn flush_end(&mut self, flush: &LogFlush) -> (r: SpaceMapPhys)
        requires
            flush.done == old(self).log.pending_entries@.len(),
        ensures
            final(self).log.phys == old(self).log.phys,
            final(self).log.pending_entries@.len() == 0,
            final(self).all() == old(self).all(),
            final(self).alloc_entries == old(self).alloc_entries,
            r.log.slabs@ == old(self).log.phys.slabs@,
            r.log.next_chunk == old(self).log.phys.next_chunk,
            r.log.next_chunk_offset == old(self).log.phys.next_chunk_offset,
            r.log.num_entries == old(self).log.phys.num_entries,
            r.alloc_entries == old(self).alloc_entries,
    {
        let ghost a = self.all();
        self.log.flush_end(flush);
        self.written = Ghost(a);
        assert(self.all() =~= a);
        SpaceMapPhys { log: self.log.phys.copy(), alloc_entries: self.alloc_entries }
    }

    pub fn total_entries(&self) -> (r: u64)
        requires
            self.log.phys.num_entries + self.log.pending_entries@.len() <= u64::MAX,
        ensures
            r == self.log.phys.num_entries + self.log.pending_entries@.len(),
    {
        self.log.len()
    }

    pub fn alloc_entries(&self) -> (r: u64)
        ensures
            r == self.alloc_entries,
    {
        self.alloc_entries
    }

    pub fn pending_len(&self) -> (r: u64)
        ensures
            r == self.log.pending_entries@.len(),
    {
        self.log.pending_len()
    }

    pub fn bytes(&self) -> (r: u64)
        ensures
            r == self.log.phys.next_chunk_offset.0,
    {
        self.log.num_bytes()
    }

    /// Forgets all entries and gives the slabs of the log back.
    pub fn clear(&mut self, slab_allocator: &mut SlabAllocator)
        requires
            old(self).log.wf(*old(slab_allocator)),
        ensures
            final(self).log.phys.is_new(),
            final(self).log.wf(*final(slab_allocator)),
            final(self).all().len() == 0,
            final(self).log.pending_entries@.len() == 0,
            final(self).alloc_entries == 0,
            final(slab_allocator).access == old(slab_allocator).access,
            final(slab_allocator).allocatable == old(slab_allocator).allocatable,
            final(slab_allocator).noalloc_state == old(slab_allocator).noalloc_state,
            final(slab_allocator).reserved_slabs == old(slab_allocator).reserved_slabs,
            old(slab_allocator).separate() ==> final(slab_allocator).separate(),
            forall|s: SlabId|
                #[trigger] final(slab_allocator).places(s) == old(slab_allocator).places(s)
                    + if old(self).log.phys.slabs@.contains(s) {
                    1nat
                } else {
                    0nat
                },
    {
        self.log.clear(slab_allocator);
        self.alloc_entries = 0;
        self.written = Ghost(Seq::empty());
    }
}

/// The bytes of an extent, as offsets on its disk.
pub open spec fn extent_bytes(e: Extent) -> Set<int> {
    span(e.start(), e.size as int)
}

/// The extent that an entry allocates or frees.
pub open spec fn changed_extent(entry: SpaceMapEntry) -> Option<Extent> {
    match entry {
        SpaceMapEntry::Alloc(e) => Some(e),
        SpaceMapEntry::Free(e) => Some(e),
        SpaceMapEntry::SlabInfo(_, _) => None,
    }
}

/// What is free after one entry about the slab has been applied. An entry that says what the
/// slab is does not belong here.
pub open spec fn apply_entry(free: Set<int>, entry: SpaceMapEntry) -> Set<int> {
    match entry {
        SpaceMapEntry::Alloc(e) => free.difference(extent_bytes(e)),
        SpaceMapEntry::Free(e) => free.union(extent_bytes(e)),
        SpaceMapEntry::SlabInfo(_, _) => free,
    }
}

/// Whether an entry allocates only what is free, or frees only what is not.
pub open spec fn entry_fits(free: Set<int>, entry: SpaceMapEntry) -> bool {
    match entry {
        SpaceMapEntry::Alloc(e) => extent_bytes(e).subset_of(free),
        SpaceMapEntry::Free(e) => extent_bytes(e).disjoint(free),
        SpaceMapEntry::SlabInfo(_, _) => false,
    }
}

/// What is free after the entries have been applied in their order.
pub open spec fn replay(free: Set<int>, entries: Seq<SpaceMapEntry>) -> Set<int>
    decreases entries.len(),
{
    if entries.len() == 0 {
        free
    } else {
        apply_entry(replay(free, entries.drop_last()), entries.last())
    }
}

/// Whether every entry fits when its turn comes.
pub open spec fn replayable(free: Set<int>, entries: Seq<SpaceMapEntry>) -> bool
    decreases entries.len(),
{
    entries.len() > 0 ==> replayable(free, entries.drop_last()) && entry_fits(
        replay(free, entries.drop_last()),
        entries.last(),
    )
}

pub proof fn lemma_replay_push(free: Set<int>, entries: Seq<SpaceMapEntry>, entry: SpaceMapEntry)
    ensures
        replay(free, entries.push(entry)) == apply_entry(replay(free, entries), entry),
        replayable(free, entries.push(entry)) <==> replayable(free, entries) && entry_fits(
            replay(free, entries),
            entry,
        ),
{
    assert(entries.push(entry).drop_last() =~= entries);
}

/// Entries can be applied in two goes.
pub proof fn law_replay_append(free: Set<int>, a: Seq<SpaceMapEntry>, b: Seq<SpaceMapEntry>)
    ensures
        replay(free, a + b) == replay(replay(free, a), b),
        replayable(free, a + b) <==> replayable(free, a) && replayable(replay(free, a), b),
    decreases b.len(),
{
    if b.len() == 0 {
        assert(a + b =~= a);
    } else {
        law_replay_append(free, a, b.drop_last());
        assert((a + b).drop_last() =~= a + b.drop_last());
    }
}

/// The entry is an allocation or a release of the byte.
pub open spec fn is_about(entry: SpaceMapEntry, o: int) -> bool {
    match entry {
        SpaceMapEntry::Alloc(e) => e.start() <= o < e.end(),
        SpaceMapEntry::Free(e) => e.start() <= o < e.end(),
        SpaceMapEntry::SlabInfo(_, _) => false,
    }
}

/// The last entry about a byte counts: it is free if it was released, and not if it was
/// allocated. A byte that no entry is about is as before.
pub proof fn law_last_entry_counts(free: Set<int>, entries: Seq<SpaceMapEntry>, i: int, o: int)
    requires
        -1 <= i < entries.len(),
        i >= 0 ==> is_about(entries[i], o),
        forall|j: int| i < j < entries.len() ==> !is_about(#[trigger] entries[j], o),
    ensures
        i >= 0 ==> (replay(free, entries).contains(o) <==> entries[i] is Free),
        i < 0 ==> (replay(free, entries).contains(o) <==> free.contains(o)),
    decreases entries.len(),
{
    if entries.len() > 0 {
        let p = entries.drop_last();
        let n = entries.len() - 1;
        if i < n {
            assert(!is_about(entries[n], o));
            assert forall|j: int| i < j < p.len() implies !is_about(#[trigger] p[j], o) by {
                assert(p[j] == entries[j]);
            }
            law_last_entry_counts(free, p, i, o);
        }
    }
}

/// What is replayed without a fault: only what is free is allocated, and only what is not is
/// released.
pub proof fn law_replayable(free: Set<int>, entries: Seq<SpaceMapEntry>, entry: SpaceMapEntry, o: int)
    requires
        replayable(free, entries.push(entry)),
        is_about(entry, o),
    ensures
        entry is Alloc ==> replay(free, entries).contains(o) && !replay(
            free,
            entries.push(entry),
        ).contains(o),
        entry is Free ==> !replay(free, entries).contains(o) && replay(
            free,
            entries.push(entry),
        ).contains(o),
        replayable(free, entries),
{
    assert(entries.push(entry).drop_last() =~= entries);
    match entry {
        SpaceMapEntry::Alloc(e) => {
            assert(extent_bytes(e).contains(o));
        },
        SpaceMapEntry::Free(e) => {
            assert(extent_bytes(e).contains(o));
        },
        SpaceMapEntry::SlabInfo(_, _) => {},
    }
}

/// Each allocation is counted, and nothing else is.
pub proof fn law_allocs_counted(n: u64, entries: Seq<SpaceMapEntry>, entry: SpaceMapEntry)
    ensures
        allocs_after(n, Seq::empty()) == n,
        entry is Alloc && allocs_after(n, entries) < u64::MAX ==> allocs_after(
            n,
            entries.push(entry),
        ) == allocs_after(n, entries) + 1,
        !(entry is Alloc) ==> allocs_after(n, entries.push(entry)) == allocs_after(n, entries),
{
    assert(entries.push(entry).drop_last() =~= entries);
}

} // verus!
