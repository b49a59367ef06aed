//! Inserting blocks.
use super::{is_counted, InsertSource, ZettaCacheState};
use crate::atime_histogram::AtimeHistogramPhys;
use crate::base_types::{Atime, DiskLocation, Extent};
use crate::binary_index_tree::suffix;
use crate::block_allocator::rebalance::{lemma_allocation_effect, slab_grown};
use crate::block_allocator::{allocation, freed_block, BlockAllocator};
use crate::index::{IndexKey, IndexValue};
use crate::merge::OperationLogEntry;
use crate::pending_changes::{
    change_bytes, key_at, lemma_bytes_of_one, value_bytes, PendingChange, PendingChanges,
    UpdateAtime,
};
use crate::slab_allocator::{SlabAllocator, SlabId};
use vstd::prelude::*;

verus! {

/// What a new value of a key changes in the histogram: the bytes of its change so far are no
/// longer counted, and those of a block of the index that was accessed count as before the
/// access.
pub open spec fn replaced_bytes(change: Option<PendingChange>, t: int) -> int {
    match change {
        None => 0,
        Some(PendingChange::Insert(v)) => -value_bytes(v, t),
        Some(PendingChange::UpdateAtime(u)) => value_bytes(IndexValue { atime: u.1, ..u.0 }, t)
            - value_bytes(u.0, t),
    }
}

/// Where a histogram ends that counts bytes of an atime too.
pub open spec fn ends_after(end: int, atime: Atime) -> int {
    if atime.0 < end {
        end
    } else {
        atime.0 + 1
    }
}

/// The change of a key, if there is one.
pub open spec fn change_of(changes: PendingChanges, key: IndexKey) -> Option<PendingChange> {
    if changes@.contains_key(key) {
        Some(changes@[key])
    } else {
        None
    }
}

/// The buffers for blocks that wait to be written.
#[derive(Debug, Clone, Copy, PartialEq, Eq, Structural)]
pub enum InsertBuffer {
    /// For blocks that were missed by a read.
    Demand,
    /// For all others.
    Speculative,
}

/// Which buffer a block takes room in.
pub fn insert_buffer(source: InsertSource) -> (r: InsertBuffer)
    ensures
        r == if source == InsertSource::Read {
            InsertBuffer::Demand
        } else {
            InsertBuffer::Speculative
        },
{
    match source {
        InsertSource::Read => InsertBuffer::Demand,
        InsertSource::Heal | InsertSource::SpeculativeRead | InsertSource::Write => {
            InsertBuffer::Speculative
        },
    }
}

/// Whether an insertion waits for room; others are dropped when there is none.
pub fn waits_for_buffer(source: InsertSource, wait_insert: bool) -> (r: bool)
    ensures
        r == (source == InsertSource::Read && wait_insert),
{
    match source {
        InsertSource::Read => wait_insert,
        _ => false,
    }
}

impl ZettaCacheState {
    /// The value of a block of the given size that is inserted now.
    pub open spec fn new_value(&self, location: DiskLocation, size: u32) -> IndexValue {
        IndexValue { location: Some(location), sectors: (size / 512) as u16, atime: self.atime }
    }

    /// The change that a key has so far can be replaced.
    pub open spec fn can_replace(&self, key: IndexKey, size: u32) -> bool {
        let h = self.atime_histogram.phys;
        &&& size % 512 == 0
        &&& size / 512 <= u16::MAX
        &&& h.first_ghost.0 <= self.atime.0 < u32::MAX
        &&& self.atime.0 - h.first_ghost.0 + 11 <= usize::MAX
        &&& match change_of(self.pending_changes, key) {
            None => suffix(h.histogram@, 0) + size <= u64::MAX,
            Some(PendingChange::Insert(v)) => {
                &&& is_counted(self.atime_histogram, v)
                &&& v.location is Some
                &&& suffix(h.histogram@, 0) + size <= u64::MAX
            },
            Some(PendingChange::UpdateAtime(u)) => {
                &&& is_counted(self.atime_histogram, u.0)
                &&& h.first_ghost.0 <= u.1.0 < u32::MAX
                &&& u.1.0 - h.first_ghost.0 + 11 <= usize::MAX
                &&& suffix(h.histogram@, 0) + size + u.0.spec_size() <= u64::MAX
            },
        }
    }

    /// What the state becomes when a block is inserted at a location.
    pub open spec fn inserted(
        &self,
        key: IndexKey,
        location: DiskLocation,
        size: u32,
        after: ZettaCacheState,
    ) -> bool {
        let value = self.new_value(location, size);
        &&& after == (ZettaCacheState {
            pending_changes: after.pending_changes,
            atime_histogram: after.atime_histogram,
            operation_log: after.operation_log,
            ..*self
        })
        &&& after.pending_changes@ == self.pending_changes@.insert(
            key,
            PendingChange::Insert(value),
        )
        &&& after.operation_log.phys == self.operation_log.phys
        &&& after.operation_log.pending_entries@ == self.operation_log.pending_entries@.push(
            OperationLogEntry::Insert(key, value),
        )
        &&& after.atime_histogram.phys.first_ghost == self.atime_histogram.phys.first_ghost
        &&& after.atime_histogram.phys.first_live == self.atime_histogram.phys.first_live
        &&& after.atime_histogram.phys.end() == ends_after(
            match change_of(self.pending_changes, key) {
                Some(PendingChange::UpdateAtime(u)) => ends_after(
                    self.atime_histogram.phys.end(),
                    u.1,
                ),
                _ => self.atime_histogram.phys.end(),
            },
            self.atime,
        )
        &&& forall|t: int|
            #[trigger] after.atime_histogram.phys.at(t) == self.atime_histogram.phys.at(t)
                + value_bytes(value, t) + replaced_bytes(change_of(self.pending_changes, key), t)
    }

    /// A block is inserted at a location. Returns the extent of the block that it replaces, if
    /// that was inserted since the last merge: it is in no index, and can be freed.
    pub fn insert_at(&mut self, key: IndexKey, location: DiskLocation, size: u32) -> (r: Option<
        Extent,
    >)
        requires
            old(self).wf(),
            old(self).can_replace(key, size),
        ensures
            final(self).wf(),
            old(self).inserted(key, location, size, *final(self)),
            r == match change_of(old(self).pending_changes, key) {
                Some(PendingChange::Insert(v)) => Some(
                    Extent { location: v.location->0, size: v.spec_size() as u64 },
                ),
                _ => None,
            },
            // a block that was inserted before is given up
            old(self).pending_changes@.contains_key(key) && old(self).pending_changes@[key]
                is Insert ==> (r matches Some(e) && Some(e.location) == old(
                self).pending_changes@[key]->Insert_0.location && e.size == old(
                self).pending_changes@[key]->Insert_0.sectors * 512),
            !(old(self).pending_changes@.contains_key(key) && old(self).pending_changes@[key]
                is Insert) ==> r is None,
    {
        let ghost a = *self;
        let value = IndexValue::new(Some(location), size, self.atime);
        let before = self.pending_changes.insert(key, PendingChange::Insert(value));
        let mut freed: Option<Extent> = None;
        match before {
            Some(PendingChange::Insert(old_value)) => {
                freed = old_value.extent();
                self.atime_histogram.remove(old_value);
            },
            // what the access changed in the histogram is undone
            Some(PendingChange::UpdateAtime(update)) => {
                let old_value = update.0;
                let index_value = IndexValue {
                    location: old_value.location,
                    sectors: old_value.sectors,
                    atime: update.1,
                };
                self.atime_histogram.insert(index_value);
                self.atime_histogram.remove(old_value);
            },
            None => {},
        }
        self.atime_histogram.insert(value);
        self.operation_log.push(OperationLogEntry::Insert(key, value));
        proof {
            assert forall|t: int|
                #[trigger] self.atime_histogram.phys.at(t) == a.atime_histogram.phys.at(t)
                    + value_bytes(value, t) + replaced_bytes(
                    change_of(a.pending_changes, key),
                    t,
                ) by {}
        }
        freed
    }

    /// Inserts a block, if there is room for one more change and a place for the block. Returns
    /// where it is to be written.
    pub fn insert(
        &mut self,
        allocator: &mut BlockAllocator,
        sa: &mut SlabAllocator,
        key: IndexKey,
        size: u32,
    ) -> (r: Option<DiskLocation>)
        requires
            old(self).wf(),
            old(self).can_replace(key, size),
            old(allocator).wf(*old(sa)),
            old(allocator).ready(*old(sa)),
            0 < size <= old(allocator).slab_size,
            exists|i: int|
                0 <= i < old(allocator).slab_buckets.len() && #[trigger] old(
                    allocator).slab_buckets.size(i) >= size,
            change_of(old(self).pending_changes, key) matches Some(PendingChange::Insert(v))
                ==> exists|id: SlabId| #[trigger]
                old(allocator).is_allocated_block(
                    id,
                    Extent { location: v.location->0, size: v.spec_size() as u64 },
                ),
        ensures
            final(self).wf(),
            final(allocator).wf(*final(sa)),
            final(allocator).ready(*final(sa)),
            final(sa).access == old(sa).access,
            old(sa).separate() ==> final(sa).separate(),
            old(self).spec_pending_len() >= old(self).pending_changes_cap ==> {
                &&& r is None
                &&& *final(allocator) == *old(allocator)
                &&& *final(sa) == *old(sa)
            },
            match r {
                None => *final(self) == *old(self),
                Some(location) => old(self).inserted(key, location, size, *final(self)),
            },
            // there is a place unless the block allocator has none; a block that is replaced is
            // freed
            old(self).spec_pending_len() < old(self).pending_changes_cap ==> exists|
                allocator2: BlockAllocator,
                sa2: SlabAllocator,
                index: int,
                extent: Option<Extent>,
            | #[trigger]
                allocation(
                    *old(allocator),
                    allocator2,
                    *old(sa),
                    sa2,
                    index,
                    size,
                    extent,
                ) && old(allocator).slab_buckets.serves(index, size as int) && r == (match extent {
                    Some(e) => Some(e.location),
                    None => None,
                }) && *final(sa) == sa2 && match change_of(old(self).pending_changes, key) {
                    Some(PendingChange::Insert(v)) if extent is Some => freed_block(
                        allocator2,
                        *final(allocator),
                        Extent { location: v.location->0, size: v.spec_size() as u64 },
                    ),
                    _ => *final(allocator) == allocator2,
                },
    {
        if !self.has_room() {
            return None;
        }
        let ghost a0 = *allocator;
        let ghost s0 = *sa;
        let ghost state0 = *self;
        let extent = allocator.allocate(sa, size);
        let ghost a1 = *allocator;
        let ghost s1 = *sa;
        proof {
            let index = choose|index: int|
                #[trigger] a0.slab_buckets.serves(index, size as int) && allocation(
                    a0,
                    a1,
                    s0,
                    s1,
                    index,
                    size,
                    extent,
                );
            assert(a0.slab_buckets.serves(index, size as int));
            assert(allocation(a0, a1, s0, s1, index, size, extent));
            lemma_allocation_effect(a0, a1, s0, s1, index, size, extent);
        }
        let location = match extent {
            Some(extent) => extent.location,
            None => {
                return None;
            },
        };
        let freed = self.insert_at(key, location, size);
        if let Some(old_extent) = freed {
            proof {
                let id = choose|id: SlabId| #[trigger] a0.is_allocated_block(id, old_extent);
                assert(a0.slabs@.contains_key(id.0 as int));
                assert(slab_grown(a0.slabs@[id.0 as int], a1.slabs@[id.0 as int]));
                assert(a1.is_allocated_block(id, old_extent));
            }
            allocator.free(sa, old_extent);
        }
        Some(location)
    }
}

/// The total of the sizes of the logged insertions.
pub open spec fn logged_bytes(entries: Seq<OperationLogEntry>) -> int
    decreases entries.len(),
{
    if entries.len() == 0 {
        0
    } else {
        logged_bytes(entries.drop_last()) + match entries.last() {
            OperationLogEntry::Insert(_, v) => v.spec_size(),
        }
    }
}

/// Where a histogram ends that counts the logged insertions too.
pub open spec fn logged_end(entries: Seq<OperationLogEntry>, end: int) -> int
    decreases entries.len(),
{
    if entries.len() == 0 {
        end
    } else {
        let OperationLogEntry::Insert(_, v) = entries.last();
        ends_after(logged_end(entries.drop_last(), end), v.atime)
    }
}

/// Counting more never makes a histogram shorter.
pub proof fn lemma_logged_end(entries: Seq<OperationLogEntry>, end: int)
    ensures
        logged_end(entries, end) >= end,
    decreases entries.len(),
{
    if entries.len() > 0 {
        lemma_logged_end(entries.drop_last(), end);
    }
}

/// The changes that a log of insertions makes: of each key the last one counts.
pub open spec fn logged_changes(entries: Seq<OperationLogEntry>) -> Map<IndexKey, PendingChange>
    decreases entries.len(),
{
    if entries.len() == 0 {
        Map::empty()
    } else {
        match entries.last() {
            OperationLogEntry::Insert(k, v) => logged_changes(entries.drop_last()).insert(
                k,
                PendingChange::Insert(v),
            ),
        }
    }
}

/// The log can be counted in the histogram.
pub open spec fn loadable(entries: Seq<OperationLogEntry>, h: AtimeHistogramPhys) -> bool {
    &&& suffix(h.histogram@, 0) + logged_bytes(entries) <= u64::MAX
    &&& forall|i: int|
        0 <= i < entries.len() ==> match #[trigger] entries[i] {
            OperationLogEntry::Insert(_, v) => h.first_ghost.0 <= v.atime.0 < u32::MAX,
        }
}

/// Each part of the log has at most the bytes of the log.
pub proof fn lemma_logged_bytes(entries: Seq<OperationLogEntry>, k: int)
    requires
        0 <= k <= entries.len(),
    ensures
        0 <= logged_bytes(entries.take(k)) <= logged_bytes(entries),
    decreases entries.len(),
{
    if k == entries.len() {
        assert(entries.take(k) =~= entries);
        if k > 0 {
            lemma_logged_bytes(entries.drop_last(), k - 1);
        }
    } else {
        lemma_logged_bytes(entries.drop_last(), k);
        assert(entries.drop_last().take(k) =~= entries.take(k));
    }
}

/// The changes of a log of insertions, which are counted in the histogram.
pub fn load_operation_log(
    entries: &Vec<OperationLogEntry>,
    atime_histogram: &mut AtimeHistogramPhys,
) -> (r: PendingChanges)
    requires
        old(atime_histogram).wf(),
        loadable(entries@, *old(atime_histogram)),
    ensures
        r.wf(),
        r@ == logged_changes(entries@),
        final(atime_histogram).wf(),
        final(atime_histogram).first_ghost == old(atime_histogram).first_ghost,
        final(atime_histogram).first_live == old(atime_histogram).first_live,
        final(atime_histogram).end() == logged_end(entries@, old(atime_histogram).end()),
        suffix(final(atime_histogram).histogram@, 0) <= suffix(old(atime_histogram).histogram@, 0)
            + logged_bytes(entries@),
        forall|t: int|
            #[trigger] final(atime_histogram).at(t) == old(atime_histogram).at(t)
                + change_bytes(r.entries@, t),
{
    let ghost h0 = *atime_histogram;
    let mut r = PendingChanges::new();
    let mut i: usize = 0;
    assert(entries@.take(0) =~= Seq::<OperationLogEntry>::empty());
    while i < entries.len()
        invariant
            i <= entries@.len(),
            loadable(entries@, h0),
            r.wf(),
            r@ == logged_changes(entries@.take(i as int)),
            forall|k: IndexKey|
                #[trigger] r@.contains_key(k) ==> r@[k] is Insert,
            forall|k: IndexKey|
                #[trigger] r@.contains_key(k) ==> h0.first_ghost.0
                    <= r@[k].spec_value().atime.0 < atime_histogram.end(),
            atime_histogram.wf(),
            atime_histogram.first_ghost == h0.first_ghost,
            atime_histogram.first_live == h0.first_live,
            atime_histogram.end() == logged_end(entries@.take(i as int), h0.end()),
            suffix(atime_histogram.histogram@, 0) <= suffix(h0.histogram@, 0) + logged_bytes(
                entries@.take(i as int),
            ),
            forall|t: int|
                #[trigger] atime_histogram.at(t) == h0.at(t) + change_bytes(r.entries@, t),
        decreases entries@.len() - i,
    {
        let OperationLogEntry::Insert(key, value) = entries[i];
        let ghost r0 = r;
        let ghost h1 = *atime_histogram;
        proof {
            lemma_logged_bytes(entries@, i as int);
            lemma_logged_bytes(entries@, i + 1);
            assert(entries@.take(i + 1).drop_last() =~= entries@.take(i as int));
            assert(entries@.take(i + 1).last() == entries@[i as int]);
            assert(entries@[i as int] == OperationLogEntry::Insert(key, value));
        }
        if let Some(before) = r.insert(key, PendingChange::Insert(value)) {
            // the value that is replaced is no longer counted
            let old_value = before.value();
            proof {
                let j = key_at(r0.entries@, key);
                assert(r0.entries@[j].0 == key);
                let t = old_value.atime.0 as int;
                lemma_bytes_of_one(r0.entries@, j, t);
                assert(h1.at(t) == h0.at(t) + change_bytes(r0.entries@, t));
            }
            atime_histogram.remove(old_value);
        }
        atime_histogram.insert(value);
        proof {
            assert forall|t: int|
                #[trigger] atime_histogram.at(t) == h0.at(t) + change_bytes(r.entries@, t) by {
                assert(h1.at(t) == h0.at(t) + change_bytes(r0.entries@, t));
                assert(change_bytes(r.entries@, t) == change_bytes(r0.entries@, t) + value_bytes(
                    value,
                    t,
                ) - if r0@.contains_key(key) {
                    value_bytes(r0@[key].spec_value(), t)
                } else {
                    0
                });
            }
        }
        i += 1;
    }
    assert(entries@.take(i as int) =~= entries@);
    r
}

} // verus!
