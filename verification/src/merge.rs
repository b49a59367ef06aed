//! Merging pending changes into the index.
use crate::atime_histogram::AtimeHistogramPhys;
use crate::base_types::{law_location_order, Atime, DiskLocation, Extent};
use crate::binary_index_tree::{lemma_suffix_nonneg, suffix};
use crate::block_allocator::rebalance::{extent_before, RemapTable};
use crate::block_based_log::BlockBasedLogPhys;
use crate::index::{law_key_order, IndexEntry, IndexKey, IndexValue};
use crate::pending_changes::{
    ascending, has_key, key_at, lemma_key_at, PendingChange, PendingChanges,
};
use vstd::prelude::*;

pub mod laws;
pub mod outcome;
pub mod resume;

verus! {

/// An insertion into the cache, as logged.
#[derive(Debug, Clone, Copy)]
pub enum OperationLogEntry {
    Insert(IndexKey, IndexValue),
}

/// Where an extent goes, as logged.
#[derive(Debug, Clone, Copy)]
pub struct RebalanceLogEntry {
    pub old: Extent,
    pub new: Option<DiskLocation>,
}

/// Entry `i` is the last one that does not start behind `raw`.
pub open spec fn is_floor(t: RemapTable, raw: u64, i: int) -> bool {
    &&& 0 <= i < t.entries@.len()
    &&& t.entries@[i].0.location.raw <= raw
    &&& forall|j: int|
        i < j < t.entries@.len() ==> (#[trigger] t.entries@[j]).0.location.raw > raw
}

/// Where the entry says that an extent inside of it goes.
pub open spec fn moved_to(entry: (Extent, Option<DiskLocation>), e: Extent) -> Option<
    DiskLocation,
> {
    match entry.1 {
        Some(new) => Some(
            DiskLocation::at(new.disk_no(), new.off() + (e.start() - entry.0.start())),
        ),
        None => None,
    }
}

/// Where an extent goes. One that is in no entry stays; one for which no place was found goes
/// nowhere.
pub open spec fn remap_of(t: RemapTable, e: Extent) -> Option<DiskLocation> {
    if exists|i: int| #[trigger]
        is_floor(t, e.location.raw, i) && t.entries@[i].0.spec_contains(e) {
        let i = choose|i: int| #[trigger]
            is_floor(t, e.location.raw, i) && t.entries@[i].0.spec_contains(e);
        moved_to(t.entries@[i], e)
    } else {
        Some(e.location)
    }
}

/// The entries are extents, and so is where they go.
pub open spec fn table_ok(t: RemapTable) -> bool {
    &&& t.wf()
    &&& forall|i: int|
        0 <= i < t.entries@.len() ==> {
            &&& (#[trigger] t.entries@[i]).0.wf()
            &&& t.entries@[i].1 matches Some(new) ==> new.wf() && new.off() + t.entries@[i].0.size
                <= u64::MAX
        }
}

/// If no two entries overlap, an extent that is inside of one goes where that one says.
pub proof fn law_remap_inside(t: RemapTable, e: Extent, i: int)
    requires
        table_ok(t),
        e.wf(),
        e.size > 0,
        0 <= i < t.entries@.len(),
        t.entries@[i].0.spec_contains(e),
        forall|j: int|
            0 <= j < t.entries@.len() && j != i ==> !(#[trigger] t.entries@[j]).0.overlaps(
                t.entries@[i].0,
            ),
    ensures
        remap_of(t, e) == moved_to(t.entries@[i], e),
{
    let s = t.entries@;
    law_location_order(s[i].0.location, e.location);
    assert(is_floor(t, e.location.raw, i)) by {
        assert forall|j: int| i < j < s.len() implies (#[trigger] s[j]).0.location.raw
            > e.location.raw by {
            assert(extent_before(s[i].0, s[j].0));
            law_location_order(s[j].0.location, e.location);
            law_location_order(s[i].0.location, s[j].0.location);
            if s[j].0.location.raw <= e.location.raw {
                // it starts inside of entry i
                assert(s[j].0.disk_no() == s[i].0.disk_no());
                if s[j].0.size > 0 {
                    assert(s[j].0.overlaps(s[i].0));
                } else {
                    assert(s[i].0.location.raw <= s[j].0.location.raw);
                    if s[i].0.location.raw == s[j].0.location.raw {
                        assert(s[i].0.size < s[j].0.size);
                    }
                    assert(s[j].0.overlaps(s[i].0));
                }
            }
        }
    }
    let k = choose|k: int| #[trigger]
        is_floor(t, e.location.raw, k) && s[k].0.spec_contains(e);
    if k < i {
        assert(s[i].0.location.raw > e.location.raw);
    } else if i < k {
        assert(s[k].0.location.raw > e.location.raw);
    }
}

/// The moves of a rebalance that goes on, and the log that they were written to.
pub struct RebalanceState {
    pub map: RemapTable,
    pub log_phys: BlockBasedLogPhys<RebalanceLogEntry>,
}

impl RebalanceState {
    /// Where the extent has been moved to. That is where it was, if it was not moved; and
    /// nowhere, if no place was found for it.
    pub fn remap(&self, extent: Extent) -> (r: Option<DiskLocation>)
        requires
            table_ok(self.map),
            extent.wf(),
        ensures
            r == remap_of(self.map, extent),
            r matches Some(location) ==> location.wf(),
    {
        let ghost t = self.map;
        let ghost s = self.map.entries@;
        let mut lo: usize = 0;
        let mut hi: usize = self.map.entries.len();
        while lo < hi
            invariant
                table_ok(t),
                t == self.map,
                s == t.entries@,
                0 <= lo <= hi <= s.len(),
                forall|i: int|
                    0 <= i < lo ==> (#[trigger] s[i]).0.location.raw <= extent.location.raw,
                forall|i: int|
                    hi <= i < s.len() ==> (#[trigger] s[i]).0.location.raw > extent.location.raw,
            decreases hi - lo,
        {
            let mid: usize = lo + (hi - lo) / 2;
            if self.map.entries[mid].0.location.raw <= extent.location.raw {
                proof {
                    assert forall|i: int| 0 <= i < mid + 1 implies (
                    #[trigger] s[i]).0.location.raw <= extent.location.raw by {
                        if i < mid {
                            assert(extent_before(s[i].0, s[mid as int].0));
                        }
                    }
                }
                lo = mid + 1;
            } else {
                proof {
                    assert forall|i: int| mid <= i < s.len() implies (
                    #[trigger] s[i]).0.location.raw > extent.location.raw by {
                        if i > mid {
                            assert(extent_before(s[mid as int].0, s[i].0));
                        }
                    }
                }
                hi = mid;
            }
        }
        proof {
            assert forall|k: int| is_floor(t, extent.location.raw, k) implies k == lo - 1 by {
                if k > lo - 1 {
                    assert(s[k].0.location.raw > extent.location.raw);
                } else if k < lo - 1 {
                    assert(s[lo - 1].0.location.raw > extent.location.raw);
                }
            }
        }
        if lo > 0 {
            let (old, new) = self.map.entries[lo - 1];
            proof {
                assert(is_floor(t, extent.location.raw, lo - 1));
                assert(s[lo - 1].0.wf());
            }
            if old.contains(&extent) {
                return match new {
                    Some(new_location) => {
                        let offset: u64 = extent.location - old.location;
                        Some(
                            DiskLocation::new(
                                new_location.disk(),
                                new_location.offset() + offset,
                            ),
                        )
                    },
                    None => None,
                };
            }
        }
        Some(extent.location)
    }
}

/// A merge that goes on.
pub struct MergeState {
    pub rebalance: Option<RebalanceState>,
    pub old_pending_changes: PendingChanges,
    pub old_operation_log_phys: BlockBasedLogPhys<OperationLogEntry>,
    pub eviction_cutoff: Atime,
    pub ghost_cutoff: Atime,
}

/// The value has a location that can be one, if it has one.
pub open spec fn located(value: IndexValue) -> bool {
    value.location matches Some(location) ==> (Extent {
        location,
        size: value.spec_size() as u64,
    }).wf()
}

impl MergeState {
    pub open spec fn wf(&self) -> bool {
        &&& self.old_pending_changes.wf()
        &&& self.rebalance matches Some(r) ==> table_ok(r.map)
        &&& forall|i: int|
            0 <= i < self.old_pending_changes.entries@.len() ==> located(
                (#[trigger] self.old_pending_changes.entries@[i]).1.spec_value(),
            )
    }

    /// Where the block of an entry is after the rebalance.
    pub open spec fn location_after(&self, e: IndexEntry) -> Option<DiskLocation> {
        match (e.value.location, self.rebalance) {
            (Some(location), Some(r)) => remap_of(
                r.map,
                Extent { location, size: e.value.spec_size() as u64 },
            ),
            _ => e.value.location,
        }
    }

    /// The entry with the location of its block after the rebalance.
    pub open spec fn moved(&self, e: IndexEntry) -> IndexEntry {
        IndexEntry {
            key: e.key,
            value: IndexValue { location: self.location_after(e), ..e.value },
        }
    }

    /// What the new index holds of an entry. What was last accessed before the eviction cutoff
    /// has no location any more, and is forgotten if that was before the ghost cutoff.
    pub open spec fn kept(&self, e: IndexEntry) -> Option<IndexEntry> {
        let m = self.moved(e);
        if e.value.atime.0 >= self.eviction_cutoff.0 {
            if m.value.location is Some {
                Some(m)
            } else {
                None
            }
        } else if e.value.atime.0 >= self.ghost_cutoff.0 {
            Some(IndexEntry { key: e.key, value: IndexValue { location: None, ..e.value } })
        } else {
            None
        }
    }

    /// What an entry leaves free.
    pub open spec fn freed(&self, e: IndexEntry) -> Option<Extent> {
        let m = self.moved(e);
        if e.value.atime.0 >= self.eviction_cutoff.0 {
            None
        } else {
            match m.value.location {
                Some(location) => Some(Extent { location, size: e.value.spec_size() as u64 }),
                None => None,
            }
        }
    }
}

/// What happens to the entries of the index in a merge.
pub enum MergeEvent {
    /// The entry is replaced, and its block is given up.
    Evict(IndexEntry),
    /// The entry belongs to the new index, if it is recent enough.
    Ingest(IndexEntry),
}

pub open spec fn opt_seq<A>(o: Option<A>) -> Seq<A> {
    match o {
        Some(a) => seq![a],
        None => Seq::empty(),
    }
}

/// The entries of the new index that the events give.
pub open spec fn entries_of(m: MergeState, events: Seq<MergeEvent>) -> Seq<IndexEntry>
    decreases events.len(),
{
    if events.len() == 0 {
        Seq::empty()
    } else {
        entries_of(m, events.drop_last()) + match events.last() {
            MergeEvent::Evict(_) => Seq::empty(),
            MergeEvent::Ingest(e) => opt_seq(m.kept(e)),
        }
    }
}

/// The extents that the events leave free.
pub open spec fn frees_of(m: MergeState, events: Seq<MergeEvent>) -> Seq<Extent>
    decreases events.len(),
{
    if events.len() == 0 {
        Seq::empty()
    } else {
        frees_of(m, events.drop_last()) + match events.last() {
            MergeEvent::Evict(e) => match e.value.location {
                Some(location) => seq![Extent { location, size: e.value.spec_size() as u64 }],
                None => Seq::empty(),
            },
            MergeEvent::Ingest(e) => opt_seq(m.freed(e)),
        }
    }
}

/// The entries whose blocks have been moved, or have lost their place.
pub open spec fn remaps_of(m: MergeState, events: Seq<MergeEvent>) -> Seq<IndexEntry>
    decreases events.len(),
{
    if events.len() == 0 {
        Seq::empty()
    } else {
        remaps_of(m, events.drop_last()) + match events.last() {
            MergeEvent::Evict(_) => Seq::empty(),
            MergeEvent::Ingest(e) => if m.location_after(e) != e.value.location {
                seq![m.moved(e)]
            } else {
                Seq::empty()
            },
        }
    }
}

/// The entries that are added to the new index, if they are recent enough.
pub open spec fn ingested(events: Seq<MergeEvent>) -> Seq<IndexEntry>
    decreases events.len(),
{
    if events.len() == 0 {
        Seq::empty()
    } else {
        match events.last() {
            MergeEvent::Evict(_) => ingested(events.drop_last()),
            MergeEvent::Ingest(e) => ingested(events.drop_last()).push(e),
        }
    }
}

/// The key of the last entry that was added.
pub open spec fn last_key_of(events: Seq<MergeEvent>) -> Option<IndexKey> {
    if ingested(events).len() == 0 {
        None
    } else {
        Some(ingested(events).last().key)
    }
}

/// The bytes of the entries with an atime.
pub open spec fn bytes_at(entries: Seq<IndexEntry>, t: int) -> int
    decreases entries.len(),
{
    if entries.len() == 0 {
        0
    } else {
        bytes_at(entries.drop_last(), t) + if entries.last().value.atime.0 == t {
            entries.last().value.spec_size()
        } else {
            0
        }
    }
}

/// What a merge tells the checkpoint task since the last message.
pub struct IndexMessage {
    /// The last key that was processed.
    pub last_key: IndexKey,
    /// The entries to append to the new index.
    pub entries: Vec<IndexEntry>,
    /// The extents to free.
    pub frees: Vec<Extent>,
    /// The entries whose blocks have been moved or lost their place.
    pub remaps: Vec<IndexEntry>,
    /// The entries of the old index that are obsolete.
    pub obsoleted: AtimeHistogramPhys,
}

/// What the messages append to the new index.
pub open spec fn sent_entries(messages: Seq<IndexMessage>) -> Seq<IndexEntry>
    decreases messages.len(),
{
    if messages.len() == 0 {
        Seq::empty()
    } else {
        sent_entries(messages.drop_last()) + messages.last().entries@
    }
}

pub open spec fn sent_frees(messages: Seq<IndexMessage>) -> Seq<Extent>
    decreases messages.len(),
{
    if messages.len() == 0 {
        Seq::empty()
    } else {
        sent_frees(messages.drop_last()) + messages.last().frees@
    }
}

pub open spec fn sent_remaps(messages: Seq<IndexMessage>) -> Seq<IndexEntry>
    decreases messages.len(),
{
    if messages.len() == 0 {
        Seq::empty()
    } else {
        sent_remaps(messages.drop_last()) + messages.last().remaps@
    }
}

/// The obsolete bytes of an atime that the messages report.
pub open spec fn sent_obsolete(messages: Seq<IndexMessage>, t: int) -> int
    decreases messages.len(),
{
    if messages.len() == 0 {
        0
    } else {
        sent_obsolete(messages.drop_last(), t) + messages.last().obsoleted.at(t)
    }
}

/// The messages up to `k` hold exactly what the first `n` events give, and message `k` names the
/// last key that was added by then.
pub open spec fn cut_at(
    m: MergeState,
    messages: Seq<IndexMessage>,
    events: Seq<MergeEvent>,
    k: int,
    n: int,
) -> bool {
    &&& 0 <= n <= events.len()
    &&& sent_entries(messages.take(k + 1)) == entries_of(m, events.take(n))
    &&& sent_frees(messages.take(k + 1)) == frees_of(m, events.take(n))
    &&& sent_remaps(messages.take(k + 1)) == remaps_of(m, events.take(n))
    &&& last_key_of(events.take(n)) == Some(messages[k].last_key)
}

pub open spec fn is_cut(
    m: MergeState,
    messages: Seq<IndexMessage>,
    events: Seq<MergeEvent>,
    k: int,
) -> bool {
    exists|n: int| #[trigger] cut_at(m, messages, events, k, n)
}

/// Each message cuts the events in two: those that it and the messages before it tell of, and
/// those that come later.
#[verifier::opaque]
pub open spec fn all_cuts(
    m: MergeState,
    messages: Seq<IndexMessage>,
    events: Seq<MergeEvent>,
) -> bool {
    forall|k: int| 0 <= k < messages.len() ==> #[trigger] is_cut(m, messages, events, k)
}

proof fn lemma_cuts_event(
    m: MergeState,
    messages: Seq<IndexMessage>,
    events: Seq<MergeEvent>,
    event: MergeEvent,
)
    requires
        all_cuts(m, messages, events),
    ensures
        all_cuts(m, messages, events.push(event)),
{
    reveal(all_cuts);
    assert forall|k: int| 0 <= k < messages.len() implies #[trigger] is_cut(
        m,
        messages,
        events.push(event),
        k,
    ) by {
        assert(is_cut(m, messages, events, k));
        let n = choose|n: int| #[trigger] cut_at(m, messages, events, k, n);
        assert(events.push(event).take(n) =~= events.take(n));
        assert(cut_at(m, messages, events.push(event), k, n));
    }
}

proof fn lemma_cuts_message(
    m: MergeState,
    messages: Seq<IndexMessage>,
    events: Seq<MergeEvent>,
    message: IndexMessage,
)
    requires
        all_cuts(m, messages, events),
        sent_entries(messages) + message.entries@ == entries_of(m, events),
        sent_frees(messages) + message.frees@ == frees_of(m, events),
        sent_remaps(messages) + message.remaps@ == remaps_of(m, events),
        last_key_of(events) == Some(message.last_key),
    ensures
        all_cuts(m, messages.push(message), events),
{
    reveal(all_cuts);
    let messages2 = messages.push(message);
    assert forall|k: int| 0 <= k < messages2.len() implies #[trigger] is_cut(
        m,
        messages2,
        events,
        k,
    ) by {
        if k < messages.len() {
            assert(is_cut(m, messages, events, k));
            let n = choose|n: int| #[trigger] cut_at(m, messages, events, k, n);
            assert(messages2.take(k + 1) =~= messages.take(k + 1));
            assert(cut_at(m, messages2, events, k, n));
        } else {
            assert(messages2.take(k + 1) =~= messages2);
            assert(messages2.drop_last() =~= messages);
            assert(events.take(events.len() as int) =~= events);
            assert(cut_at(m, messages2, events, k, events.len() as int));
        }
    }
}

/// What has been collected since the last message.
pub struct Progress {
    pub last_key: Option<IndexKey>,
    pub entries: Vec<IndexEntry>,
    pub frees: Vec<Extent>,
    pub remaps: Vec<IndexEntry>,
    pub obsoleted: AtimeHistogramPhys,
    /// The size at which a message is sent.
    pub chunk: usize,
    /// All messages so far.
    pub messages: Ghost<Seq<IndexMessage>>,
    /// All events so far.
    pub events: Ghost<Seq<MergeEvent>>,
    /// All entries of the old index so far.
    pub old: Ghost<Seq<IndexEntry>>,
}

impl Progress {
    /// What was sent and what is still to be sent is what the events give. The last key is that
    /// of the last entry that was added.
    pub open spec fn wf(&self, m: MergeState) -> bool {
        &&& self.chunk >= 2
        &&& self.obsoleted.wf()
        &&& sent_entries(self.messages@) + self.entries@ == entries_of(m, self.events@)
        &&& sent_frees(self.messages@) + self.frees@ == frees_of(m, self.events@)
        &&& sent_remaps(self.messages@) + self.remaps@ == remaps_of(m, self.events@)
        &&& forall|t: int|
            sent_obsolete(self.messages@, t) + #[trigger] self.obsoleted.at(t) == bytes_at(
                self.old@,
                t,
            )
        &&& self.last_key == last_key_of(self.events@)
        &&& all_cuts(m, self.messages@, self.events@)
        &&& self.last_key is None ==> {
            &&& self.entries@.len() == 0
            &&& self.remaps@.len() == 0
            &&& self.frees@.len() <= 1
        }
    }

    /// Enough has been collected for a message.
    pub open spec fn is_full(&self) -> bool {
        enough(self.chunk as int, self.entries@, self.frees@, self.remaps@)
    }

    pub fn new(first_ghost: Atime, first_live: Atime, chunk: usize) -> (r: Progress)
        requires
            chunk >= 2,
        ensures
            forall|m: MergeState| #[trigger] r.wf(m),
            !r.is_full(),
            r.chunk == chunk,
            r.messages@.len() == 0,
            r.events@.len() == 0,
            r.old@.len() == 0,
            r.last_key is None,
            r.frees@.len() == 0,
            r.obsoleted.first_ghost == first_ghost,
            r.obsoleted.first_live == first_live,
            suffix(r.obsoleted.histogram@, 0) == 0,
    {
        let r = Progress {
            last_key: None,
            entries: Vec::new(),
            frees: Vec::new(),
            remaps: Vec::new(),
            obsoleted: AtimeHistogramPhys::new(first_ghost, first_live),
            chunk,
            messages: Ghost(Seq::empty()),
            events: Ghost(Seq::empty()),
            old: Ghost(Seq::empty()),
        };
        proof {
            assert forall|m: MergeState| #[trigger] r.wf(m) by {
                assert(sent_entries(r.messages@) + r.entries@ =~= entries_of(m, r.events@));
                assert(sent_frees(r.messages@) + r.frees@ =~= frees_of(m, r.events@));
                assert(sent_remaps(r.messages@) + r.remaps@ =~= remaps_of(m, r.events@));
                reveal(all_cuts);
            }
        }
        r
    }

    /// An entry of the old index is obsolete, whatever becomes of it.
    pub fn obsolete(&mut self, entry: IndexEntry, state: &MergeState)
        requires
            old(self).wf(*state),
            old(self).obsoleted.first_ghost.0 <= entry.value.atime.0 < u32::MAX,
            suffix(old(self).obsoleted.histogram@, 0) + entry.value.spec_size() <= u64::MAX,
        ensures
            final(self).wf(*state),
            final(self).old@ == old(self).old@.push(entry),
            final(self).obsoleted.first_ghost == old(self).obsoleted.first_ghost,
            final(self).obsoleted.first_live == old(self).obsoleted.first_live,
            suffix(final(self).obsoleted.histogram@, 0) == suffix(
                old(self).obsoleted.histogram@,
                0,
            ) + entry.value.spec_size(),
            forall|t: int|
                #[trigger] final(self).obsoleted.at(t) == old(self).obsoleted.at(t) + if t
                    == entry.value.atime.0 {
                    entry.value.sectors * 512
                } else {
                    0
                },
            *final(self) == (Progress {
                obsoleted: final(self).obsoleted,
                old: final(self).old,
                ..*old(self)
            }),
    {
        let ghost a = *self;
        self.obsoleted.insert(entry.value);
        self.old = Ghost(self.old@.push(entry));
        proof {
            assert(self.old@.drop_last() =~= a.old@);
            assert forall|t: int|
                sent_obsolete(self.messages@, t) + #[trigger] self.obsoleted.at(t) == bytes_at(
                    self.old@,
                    t,
                ) by {
                assert(sent_obsolete(a.messages@, t) + a.obsoleted.at(t) == bytes_at(a.old@, t));
            }
        }
    }

    /// Sends what has been collected, if enough has been. That cannot be so before the first key
    /// has been processed.
    fn report_if_full(&mut self, state: &MergeState) -> (r: Option<IndexMessage>)
        requires
            old(self).wf(*state),
        ensures
            final(self).wf(*state),
            final(self).events == old(self).events,
            final(self).old == old(self).old,
            reported(*old(self), *final(self), r),
            r is Some <==> old(self).is_full(),
            !final(self).is_full(),
    {
        if self.entries.len() >= self.chunk || self.frees.len() >= self.chunk
            || self.remaps.len() >= self.chunk {
            self.report(state)
        } else {
            assert(self.messages@ + opt_seq(None::<IndexMessage>) =~= self.messages@);
            None
        }
    }

    /// Sends what has been collected.
    pub fn report(&mut self, state: &MergeState) -> (r: Option<IndexMessage>)
        requires
            old(self).wf(*state),
        ensures
            final(self).wf(*state),
            final(self).events == old(self).events,
            final(self).old == old(self).old,
            reported(*old(self), *final(self), r),
            r is Some <==> old(self).last_key is Some,
    {
        match self.last_key {
            Some(last_key) => {
                let ghost a = *self;
                let mut entries: Vec<IndexEntry> = Vec::new();
                std::mem::swap(&mut self.entries, &mut entries);
                let mut frees: Vec<Extent> = Vec::new();
                std::mem::swap(&mut self.frees, &mut frees);
                let mut remaps: Vec<IndexEntry> = Vec::new();
                std::mem::swap(&mut self.remaps, &mut remaps);
                let obsoleted = self.obsoleted.take();
                let message = IndexMessage { last_key, entries, frees, remaps, obsoleted };
                self.messages = Ghost(self.messages@.push(message));
                proof {
                    lemma_suffix_nonneg(a.obsoleted.histogram@, 0);
                    lemma_cuts_message(*state, a.messages@, a.events@, message);
                    assert(self.messages@ =~= a.messages@ + opt_seq(Some(message)));
                    assert(self.messages@.drop_last() =~= a.messages@);
                    assert(sent_entries(self.messages@) + self.entries@ =~= sent_entries(
                        a.messages@,
                    ) + a.entries@);
                    assert(sent_frees(self.messages@) + self.frees@ =~= sent_frees(a.messages@)
                        + a.frees@);
                    assert(sent_remaps(self.messages@) + self.remaps@ =~= sent_remaps(a.messages@)
                        + a.remaps@);
                    assert forall|t: int|
                        sent_obsolete(self.messages@, t) + #[trigger] self.obsoleted.at(t)
                            == bytes_at(self.old@, t) by {
                        assert(sent_obsolete(a.messages@, t) + a.obsoleted.at(t) == bytes_at(
                            a.old@,
                            t,
                        ));
                    }
                }
                Some(message)
            },
            None => {
                assert(self.messages@ + opt_seq(None::<IndexMessage>) =~= self.messages@);
                None
            },
        }
    }

    /// The entry is replaced by a newly inserted one. If it has a block, that becomes free.
    pub fn evict(&mut self, state: &MergeState, entry: IndexEntry) -> (r: Option<IndexMessage>)
        requires
            old(self).wf(*state),
            old(self).last_key is None ==> old(self).frees@.len() == 0,
        ensures
            final(self).wf(*state),
            final(self).events@ == old(self).events@.push(MergeEvent::Evict(entry)),
            final(self).old == old(self).old,
            final(self).last_key == old(self).last_key,
            sends(*old(self), *final(self), r),
            match entry.value.location {
                Some(location) => delivered(
                    *old(self),
                    *final(self),
                    old(self).last_key,
                    old(self).entries@,
                    old(self).frees@.push(
                        Extent { location, size: entry.value.spec_size() as u64 },
                    ),
                    old(self).remaps@,
                    r,
                ),
                None => {
                    &&& r is None
                    &&& *final(self) == (Progress { events: final(self).events, ..*old(self) })
                },
            },
    {
        let ghost a = *self;
        self.events = Ghost(self.events@.push(MergeEvent::Evict(entry)));
        proof {
            lemma_cuts_event(*state, a.messages@, a.events@, MergeEvent::Evict(entry));
            assert(self.events@.drop_last() =~= a.events@);
            assert(entries_of(*state, self.events@) =~= entries_of(*state, a.events@));
            assert(remaps_of(*state, self.events@) =~= remaps_of(*state, a.events@));
        }
        match entry.value.extent() {
            Some(extent) => {
                self.frees.push(extent);
                proof {
                    assert(sent_frees(self.messages@) + self.frees@ =~= (sent_frees(a.messages@)
                        + a.frees@) + seq![extent]);
                }
                self.report_if_full(state)
            },
            None => {
                proof {
                    assert(frees_of(*state, self.events@) =~= frees_of(*state, a.events@));
                    assert(self.messages@ + opt_seq(None::<IndexMessage>) =~= self.messages@);
                }
                None
            },
        }
    }

    /// The entry is added to the new index, or its block becomes free, or both or neither: a
    /// block that is evicted is remembered as a ghost for a while.
    #[verifier::rlimit(40)]
    pub fn ingest(&mut self, state: &MergeState, entry: IndexEntry) -> (r: Option<IndexMessage>)
        requires
            old(self).wf(*state),
            state.wf(),
            located(entry.value),
        ensures
            final(self).wf(*state),
            final(self).events@ == old(self).events@.push(MergeEvent::Ingest(entry)),
            final(self).old == old(self).old,
            final(self).last_key == Some(entry.key),
            sends(*old(self), *final(self), r),
            delivered(
                *old(self),
                *final(self),
                Some(entry.key),
                old(self).entries@ + opt_seq(state.kept(entry)),
                old(self).frees@ + opt_seq(state.freed(entry)),
                old(self).remaps@ + if state.location_after(entry) != entry.value.location {
                    seq![state.moved(entry)]
                } else {
                    Seq::empty()
                },
                r,
            ),
            // a recent block that is not moved is in the new index as it was
            state.rebalance is None && entry.value.location is Some && entry.value.atime.0
                >= state.eviction_cutoff.0 ==> old(self).entries@.push(entry) == match r {
                Some(message) => message.entries@,
                None => final(self).entries@,
            },
    {
        let ghost a = *self;
        let ghost m = *state;
        let mut moved = entry;
        if let Some(extent) = entry.value.extent() {
            if let Some(rebalance) = &state.rebalance {
                let location = rebalance.remap(extent);
                let same = match (entry.value.location, location) {
                    (Some(x), Some(y)) => x.raw == y.raw,
                    (None, None) => true,
                    _ => false,
                };
                if !same {
                    moved.value.set_location(location);
                    self.remaps.push(moved);
                }
            }
        }
        assert(moved == m.moved(entry));
        if moved.value.atime().0 >= state.eviction_cutoff.0 {
            // what has lost its place in the rebalance is not in the new index
            if moved.value.location().is_some() {
                self.entries.push(moved);
            }
        } else {
            if let Some(extent) = moved.value.extent() {
                self.frees.push(extent);
                moved.value.set_location(None);
            }
            if moved.value.atime().0 >= state.ghost_cutoff.0 {
                self.entries.push(moved);
            }
        }
        self.last_key = Some(entry.key);
        self.events = Ghost(self.events@.push(MergeEvent::Ingest(entry)));
        proof {
            lemma_cuts_event(*state, a.messages@, a.events@, MergeEvent::Ingest(entry));
            assert(self.events@.drop_last() =~= a.events@);
            assert(self.events@.last() == MergeEvent::Ingest(entry));
            assert(self.entries@ =~= a.entries@ + opt_seq(m.kept(entry)));
            assert(self.frees@ =~= a.frees@ + opt_seq(m.freed(entry)));
            assert(sent_entries(self.messages@) + self.entries@ =~= (sent_entries(a.messages@)
                + a.entries@) + opt_seq(m.kept(entry)));
            assert(sent_frees(self.messages@) + self.frees@ =~= (sent_frees(a.messages@)
                + a.frees@) + opt_seq(m.freed(entry)));
            let remapped = if m.location_after(entry) != entry.value.location {
                seq![m.moved(entry)]
            } else {
                Seq::empty()
            };
            assert(self.remaps@ =~= a.remaps@ + remapped);
            assert(sent_remaps(self.messages@) + self.remaps@ =~= (sent_remaps(a.messages@)
                + a.remaps@) + remapped);
            assert forall|t: int|
                sent_obsolete(self.messages@, t) + #[trigger] self.obsoleted.at(t) == bytes_at(
                    self.old@,
                    t,
                ) by {
                assert(sent_obsolete(a.messages@, t) + a.obsoleted.at(t) == bytes_at(a.old@, t));
            }
        }
        self.report_if_full(state)
    }
}

/// A message, if there is one, is counted; and there are no others.
pub open spec fn sends(a: Progress, b: Progress, r: Option<IndexMessage>) -> bool {
    &&& b.messages@ == a.messages@ + opt_seq(r)
    &&& b.chunk == a.chunk
    &&& b.obsoleted.first_ghost == a.obsoleted.first_ghost
    &&& b.obsoleted.first_live == a.obsoleted.first_live
    &&& suffix(b.obsoleted.histogram@, 0) <= suffix(a.obsoleted.histogram@, 0)
}

/// There is enough for a message: one of the lists has the size at which it is sent.
pub open spec fn enough(
    chunk: int,
    entries: Seq<IndexEntry>,
    frees: Seq<Extent>,
    remaps: Seq<IndexEntry>,
) -> bool {
    entries.len() >= chunk || frees.len() >= chunk || remaps.len() >= chunk
}

/// Of what has been collected by now, all is sent if it is enough for a message, and else all
/// of it stays.
pub open spec fn delivered(
    a: Progress,
    b: Progress,
    last_key: Option<IndexKey>,
    entries: Seq<IndexEntry>,
    frees: Seq<Extent>,
    remaps: Seq<IndexEntry>,
    r: Option<IndexMessage>,
) -> bool {
    &&& r is Some <==> enough(a.chunk as int, entries, frees, remaps)
    &&& match r {
        Some(message) => {
            &&& last_key == Some(message.last_key)
            &&& message.entries@ == entries
            &&& message.frees@ == frees
            &&& message.remaps@ == remaps
            &&& message.obsoleted == a.obsoleted
            &&& b.entries@.len() == 0
            &&& b.frees@.len() == 0
            &&& b.remaps@.len() == 0
            &&& b.obsoleted.histogram@.len() == 0
        },
        None => {
            &&& b.entries@ == entries
            &&& b.frees@ == frees
            &&& b.remaps@ == remaps
            &&& b.obsoleted == a.obsoleted
        },
    }
}

/// What has been collected is sent, or stays.
pub open spec fn reported(a: Progress, b: Progress, r: Option<IndexMessage>) -> bool {
    &&& b.last_key == a.last_key
    &&& sends(a, b, r)
    &&& match r {
        Some(message) => {
            &&& a.last_key == Some(message.last_key)
            &&& message.entries@ == a.entries@
            &&& message.frees@ == a.frees@
            &&& message.remaps@ == a.remaps@
            &&& message.obsoleted == a.obsoleted
            &&& b.entries@.len() == 0
            &&& b.frees@.len() == 0
            &&& b.remaps@.len() == 0
            &&& b.obsoleted.histogram@.len() == 0
        },
        None => b == a,
    }
}

/// Place `r` is the first whose key is not before `place`.
pub open spec fn is_bound(s: Seq<(IndexKey, PendingChange)>, place: int, r: int) -> bool {
    &&& 0 <= r <= s.len()
    &&& forall|i: int| 0 <= i < r ==> (#[trigger] s[i]).0.place() < place
    &&& forall|i: int| r <= i < s.len() ==> (#[trigger] s[i]).0.place() >= place
}

/// How many of the changes are before `place`.
pub open spec fn bound(s: Seq<(IndexKey, PendingChange)>, place: int) -> int {
    choose|r: int| is_bound(s, place, r)
}

pub proof fn lemma_bound(s: Seq<(IndexKey, PendingChange)>, place: int, r: int)
    requires
        is_bound(s, place, r),
    ensures
        bound(s, place) == r,
{
    let q = bound(s, place);
    assert(is_bound(s, place, q));
    if q < r {
        assert(s[q].0.place() < place);
    } else if r < q {
        assert(s[r].0.place() < place);
    }
}

pub proof fn lemma_bound_exists(s: Seq<(IndexKey, PendingChange)>, place: int)
    requires
        ascending(s),
    ensures
        is_bound(s, place, bound(s, place)),
    decreases s.len(),
{
    if s.len() == 0 {
        assert(is_bound(s, place, 0));
    } else {
        let t = s.drop_last();
        assert(ascending(t)) by {
            assert forall|i: int, j: int| 0 <= i < j < t.len() implies (
            #[trigger] t[i]).0.place() < (#[trigger] t[j]).0.place() by {
                assert(s[i].0.place() < s[j].0.place());
            }
        }
        lemma_bound_exists(t, place);
        let r = bound(t, place);
        if s.last().0.place() < place {
            assert(is_bound(s, place, s.len() as int)) by {
                assert forall|i: int| 0 <= i < s.len() implies (#[trigger] s[i]).0.place()
                    < place by {
                    if i < s.len() - 1 {
                        assert(s[i].0.place() < s[s.len() - 1].0.place());
                    }
                }
            }
        } else {
            assert(is_bound(s, place, r)) by {
                assert forall|i: int| 0 <= i < r implies (#[trigger] s[i]).0.place() < place by {
                    assert(t[i].0.place() < place);
                }
                assert forall|i: int| r <= i < s.len() implies (#[trigger] s[i]).0.place()
                    >= place by {
                    if i < s.len() - 1 {
                        assert(t[i].0.place() >= place);
                    }
                }
            }
        }
    }
}

/// The entry that a change makes.
pub open spec fn entry_of_change(p: (IndexKey, PendingChange)) -> IndexEntry {
    IndexEntry { key: p.0, value: p.1.spec_value() }
}

/// The changes are added to the new index.
pub open spec fn ingests(s: Seq<(IndexKey, PendingChange)>) -> Seq<MergeEvent> {
    s.map_values(|p: (IndexKey, PendingChange)| MergeEvent::Ingest(entry_of_change(p)))
}

/// What becomes of an entry of the old index: it is replaced by the value that was inserted for
/// its key, or gets the atime of its last access, or stays.
pub open spec fn events_for(pend: Seq<(IndexKey, PendingChange)>, e: IndexEntry) -> Seq<
    MergeEvent,
> {
    if has_key(pend, e.key) {
        let p = pend[key_at(pend, e.key)];
        match p.1 {
            PendingChange::Insert(_) => seq![
                MergeEvent::Evict(e),
                MergeEvent::Ingest(entry_of_change(p)),
            ],
            PendingChange::UpdateAtime(_) => seq![MergeEvent::Ingest(entry_of_change(p))],
        }
    } else {
        seq![MergeEvent::Ingest(e)]
    }
}

/// The place of the last key that has been merged.
pub open spec fn last_place(start: Option<IndexKey>, old: Seq<IndexEntry>) -> int {
    if old.len() > 0 {
        old.last().key.place()
    } else {
        match start {
            Some(key) => key.place(),
            None => -1,
        }
    }
}

/// The changes up to the last key have been merged.
pub open spec fn merged_changes(
    pend: Seq<(IndexKey, PendingChange)>,
    start: Option<IndexKey>,
    old: Seq<IndexEntry>,
) -> int {
    bound(pend, last_place(start, old) + 1)
}

/// The events of a merge up to the last of the old entries.
pub open spec fn merge_events(
    pend: Seq<(IndexKey, PendingChange)>,
    start: Option<IndexKey>,
    old: Seq<IndexEntry>,
) -> Seq<MergeEvent>
    decreases old.len(),
{
    if old.len() == 0 {
        Seq::empty()
    } else {
        let e = old.last();
        merge_events(pend, start, old.drop_last()) + ingests(
            pend.subrange(
                merged_changes(pend, start, old.drop_last()),
                bound(pend, e.key.place()),
            ),
        ) + events_for(pend, e)
    }
}

/// All events of a merge.
pub open spec fn all_events(
    pend: Seq<(IndexKey, PendingChange)>,
    start: Option<IndexKey>,
    old: Seq<IndexEntry>,
) -> Seq<MergeEvent> {
    merge_events(pend, start, old) + ingests(
        pend.skip(merged_changes(pend, start, old)),
    )
}

/// Old entries in ascending order of their keys, all behind the start.
pub open spec fn old_ok(start: Option<IndexKey>, old: Seq<IndexEntry>) -> bool {
    &&& forall|i: int, j: int|
        0 <= i < j < old.len() ==> (#[trigger] old[i]).key.place() < (
        #[trigger] old[j]).key.place()
    &&& forall|i: int|
        0 <= i < old.len() ==> (#[trigger] old[i]).key.place() > last_place(
            start,
            Seq::<IndexEntry>::empty(),
        )
}

/// A change of an entry is an insertion, or an access of the block that the entry is of.
pub open spec fn same_block(change: PendingChange, value: IndexValue) -> bool {
    change matches PendingChange::UpdateAtime(update) ==> update.0.location == value.location
        && (value.location is Some ==> update.0.sectors == value.sectors)
}

/// A merge of pending changes into an index. It is handed the entries of the old index in
/// order.
pub struct MergeTask {
    pub start_key: Option<IndexKey>,
    /// The next change.
    pub next: usize,
    pub progress: Progress,
}

impl MergeTask {
    pub open spec fn wf(&self, m: MergeState) -> bool {
        let pend = m.old_pending_changes.entries@;
        &&& m.wf()
        &&& self.progress.wf(m)
        &&& self.progress.last_key is None ==> self.progress.frees@.len() == 0
        &&& !self.progress.is_full()
        &&& old_ok(self.start_key, self.progress.old@)
        &&& self.next == merged_changes(pend, self.start_key, self.progress.old@)
        &&& self.progress.events@ == merge_events(pend, self.start_key, self.progress.old@)
    }

    /// The entry can be merged: it comes behind those before it, all changes before it that are
    /// left are insertions, and an access of it is one of the same block.
    pub open spec fn fits(&self, m: MergeState, e: IndexEntry) -> bool {
        let pend = m.old_pending_changes.entries@;
        &&& located(e.value)
        &&& e.key.place() > last_place(self.start_key, self.progress.old@)
        &&& forall|i: int|
            self.next <= i < pend.len() && (#[trigger] pend[i]).0.place() < e.key.place()
                ==> pend[i].1 is Insert
        &&& forall|i: int|
            self.next <= i < pend.len() && (#[trigger] pend[i]).0 == e.key
                ==> same_block(pend[i].1, e.value)
        &&& self.progress.obsoleted.first_ghost.0 <= e.value.atime.0 < u32::MAX
        &&& suffix(self.progress.obsoleted.histogram@, 0) + e.value.spec_size() <= u64::MAX
    }

    /// A merge that starts behind `start_key`.
    pub fn new(
        state: &MergeState,
        start_key: Option<IndexKey>,
        first_ghost: Atime,
        first_live: Atime,
        chunk: usize,
    ) -> (r: MergeTask)
        requires
            state.wf(),
            chunk >= 2,
        ensures
            r.wf(*state),
            r.start_key == start_key,
            r.progress.old@.len() == 0,
            r.progress.messages@.len() == 0,
            r.progress.obsoleted.first_ghost == first_ghost,
            r.progress.obsoleted.first_live == first_live,
            r.progress.chunk == chunk,
            suffix(r.progress.obsoleted.histogram@, 0) == 0,
    {
        let ghost pend = state.old_pending_changes.entries@;
        let next: usize = match start_key {
            Some(key) => {
                let i = state.old_pending_changes.lower_bound(&key);
                if i < state.old_pending_changes.entries.len() && !key.before(
                    &state.old_pending_changes.entries[i].0,
                ) {
                    proof {
                        assert forall|k: int| i + 1 <= k < pend.len() implies (
                        #[trigger] pend[k]).0.place() >= key.place() + 1 by {
                            assert(pend[i as int].0.place() < pend[k].0.place());
                        }
                        assert(is_bound(pend, key.place() + 1, i + 1));
                        lemma_bound(pend, key.place() + 1, i + 1);
                    }
                    i + 1
                } else {
                    proof {
                        assert forall|k: int| i <= k < pend.len() implies (
                        #[trigger] pend[k]).0.place() >= key.place() + 1 by {
                            if k > i {
                                assert(pend[i as int].0.place() < pend[k].0.place());
                            }
                        }
                        assert(is_bound(pend, key.place() + 1, i as int));
                        lemma_bound(pend, key.place() + 1, i as int);
                    }
                    i
                }
            },
            None => {
                proof {
                    assert(is_bound(pend, 0, 0));
                    lemma_bound(pend, 0, 0);
                }
                0
            },
        };
        let progress = Progress::new(first_ghost, first_live, chunk);
        proof {
            assert(progress.wf(*state));
            assert(progress.events@ =~= merge_events(pend, start_key, progress.old@));
        }
        MergeTask { start_key, next, progress }
    }

    /// Merges the next entry of the old index, and the changes before it. An entry that is not
    /// behind the start has been merged before. Returns the messages that are to be sent.
    #[verifier::rlimit(40)]
    pub fn merge_entry(&mut self, state: &MergeState, entry: IndexEntry) -> (r: Vec<IndexMessage>)
        requires
            old(self).wf(*state),
            !(old(self).start_key matches Some(key) && entry.key.place() <= key.place())
                ==> old(self).fits(*state, entry),
        ensures
            final(self).wf(*state),
            final(self).start_key == old(self).start_key,
            final(self).progress.messages@ == old(self).progress.messages@ + r@,
            final(self).progress.chunk == old(self).progress.chunk,
            final(self).progress.obsoleted.first_ghost == old(
                self).progress.obsoleted.first_ghost,
            if old(self).start_key matches Some(key) && entry.key.place() <= key.place() {
                *final(self) == *old(self)
            } else {
                &&& final(self).progress.old@ == old(self).progress.old@.push(entry)
                &&& suffix(final(self).progress.obsoleted.histogram@, 0) <= suffix(
                    old(self).progress.obsoleted.histogram@,
                    0,
                ) + entry.value.spec_size()
            },
    {
        let mut r: Vec<IndexMessage> = Vec::new();
        if let Some(start_key) = self.start_key {
            if !start_key.before(&entry.key) {
                assert(self.progress.messages@ + r@ =~= self.progress.messages@);
                return r;
            }
        }
        let ghost a = *self;
        let ghost m = *state;
        let ghost pend = state.old_pending_changes.entries@;
        let ghost e0 = a.progress.events@;
        let ghost lo = a.next as int;
        let changes = &state.old_pending_changes.entries;
        proof {
            lemma_bound_exists(pend, last_place(a.start_key, a.progress.old@) + 1);
            assert(ingests(pend.subrange(lo, lo)) =~= Seq::<MergeEvent>::empty());
            assert(e0 + ingests(pend.subrange(lo, lo)) =~= e0);
        }
        // the changes before the entry are insertions
        while self.next < changes.len() && changes[self.next].0.before(&entry.key)
            invariant
                *state == m,
                state.wf(),
                pend == state.old_pending_changes.entries@,
                changes@ == pend,
                ascending(pend),
                0 <= lo <= self.next <= pend.len(),
                self.progress.wf(m),
                self.progress.last_key is None ==> self.progress.frees@.len() == 0,
                !self.progress.is_full(),
                self.start_key == a.start_key,
                self.progress.chunk == a.progress.chunk,
                self.progress.old == a.progress.old,
                self.progress.obsoleted.first_ghost == a.progress.obsoleted.first_ghost,
                suffix(self.progress.obsoleted.histogram@, 0) <= suffix(
                    a.progress.obsoleted.histogram@,
                    0,
                ),
                self.progress.messages@ == a.progress.messages@ + r@,
                self.progress.events@ == e0 + ingests(pend.subrange(lo, self.next as int)),
                forall|i: int|
                    0 <= i < self.next ==> (#[trigger] pend[i]).0.place() < entry.key.place(),
            decreases pend.len() - self.next,
        {
            let (key, change) = changes[self.next];
            let ghost r0 = r@;
            let ghost p0 = self.progress;
            proof {
                let p = pend[self.next as int];
                assert(located(state.old_pending_changes.entries@[self.next as int].1.spec_value()));
                let t = pend.subrange(lo, self.next + 1);
                assert(ingests(t) =~= ingests(pend.subrange(lo, self.next as int)).push(
                    MergeEvent::Ingest(entry_of_change(p)),
                ));
            }
            let message = self.progress.ingest(state, IndexEntry { key, value: change.value() });
            if let Some(message) = message {
                r.push(message);
            }
            proof {
                assert(a.progress.messages@ + r@ =~= (a.progress.messages@ + r0) + opt_seq(
                    message,
                ));
                assert(self.progress.events@ =~= e0 + ingests(
                    pend.subrange(lo, self.next + 1),
                ));
            }
            self.next = self.next + 1;
        }
        let ghost hi = self.next as int;
        let ghost e1 = self.progress.events@;
        proof {
            assert(is_bound(pend, entry.key.place(), hi)) by {
                assert forall|i: int| hi <= i < pend.len() implies (#[trigger] pend[i]).0.place()
                    >= entry.key.place() by {
                    if i > hi {
                        assert(pend[hi].0.place() < pend[i].0.place());
                    }
                }
            }
            lemma_bound(pend, entry.key.place(), hi);
        }
        self.progress.obsolete(entry, state);
        let ghost old2 = self.progress.old@;
        if self.next < changes.len() && !entry.key.before(&changes[self.next].0) {
            let (key, change) = changes[self.next];
            proof {
                law_key_order(key, entry.key);
                lemma_key_at(pend, hi);
                assert(located(state.old_pending_changes.entries@[hi].1.spec_value()));
            }
            if let PendingChange::Insert(_) = change {
                // the newly inserted entry replaces this one
                let ghost r0 = r@;
                let message = self.progress.evict(state, entry);
                if let Some(message) = message {
                    r.push(message);
                }
                proof {
                    assert(a.progress.messages@ + r@ =~= (a.progress.messages@ + r0) + opt_seq(
                        message,
                    ));
                }
            }
            let ghost r0 = r@;
            let message = self.progress.ingest(state, IndexEntry { key, value: change.value() });
            if let Some(message) = message {
                r.push(message);
            }
            self.next = self.next + 1;
            proof {
                assert(a.progress.messages@ + r@ =~= (a.progress.messages@ + r0) + opt_seq(
                    message,
                ));
                assert(self.progress.events@ =~= e1 + events_for(pend, entry));
                assert(is_bound(pend, entry.key.place() + 1, hi + 1)) by {
                    assert forall|i: int| hi + 1 <= i < pend.len() implies (
                    #[trigger] pend[i]).0.place() >= entry.key.place() + 1 by {
                        assert(pend[hi].0.place() < pend[i].0.place());
                    }
                }
                lemma_bound(pend, entry.key.place() + 1, hi + 1);
            }
        } else {
            let ghost r0 = r@;
            let message = self.progress.ingest(state, entry);
            if let Some(message) = message {
                r.push(message);
            }
            proof {
                assert(a.progress.messages@ + r@ =~= (a.progress.messages@ + r0) + opt_seq(
                    message,
                ));
                if has_key(pend, entry.key) {
                    let j = key_at(pend, entry.key);
                    assert(pend[j].0 == entry.key);
                    if j > hi {
                        assert(pend[hi].0.place() < pend[j].0.place());
                    }
                }
                assert(self.progress.events@ =~= e1 + events_for(pend, entry));
                assert(is_bound(pend, entry.key.place() + 1, hi)) by {
                    assert forall|i: int| hi <= i < pend.len() implies (
                    #[trigger] pend[i]).0.place() >= entry.key.place() + 1 by {
                        if i > hi {
                            assert(pend[hi].0.place() < pend[i].0.place());
                        }
                    }
                }
                lemma_bound(pend, entry.key.place() + 1, hi);
            }
        }
        proof {
            assert(old2 == a.progress.old@.push(entry));
            assert(old2.drop_last() =~= a.progress.old@);
            assert(old2.last() == entry);
            assert(self.progress.events@ == merge_events(pend, self.start_key, old2));
            assert(old_ok(self.start_key, old2)) by {
                let o = a.progress.old@;
                assert forall|i: int, j: int| 0 <= i < j < old2.len() implies (
                #[trigger] old2[i]).key.place() < (#[trigger] old2[j]).key.place() by {
                    if j == o.len() {
                        assert(o.last() == o[o.len() - 1]);
                        if i < o.len() - 1 {
                            assert(o[i].key.place() < o[o.len() - 1].key.place());
                        }
                    } else {
                        assert(o[i].key.place() < o[j].key.place());
                    }
                }
                assert forall|i: int| 0 <= i < old2.len() implies (
                #[trigger] old2[i]).key.place() > last_place(
                    self.start_key,
                    Seq::<IndexEntry>::empty(),
                ) by {
                    if i < o.len() {
                        assert(old2[i] == o[i]);
                    } else if o.len() > 0 {
                        assert(o[o.len() - 1].key.place() > last_place(
                            self.start_key,
                            Seq::<IndexEntry>::empty(),
                        ));
                    }
                }
            }
        }
        r
    }

    /// Merges the changes behind the last entry of the old index, and sends what is left.
    pub fn finish(&mut self, state: &MergeState) -> (r: Vec<IndexMessage>)
        requires
            old(self).wf(*state),
            forall|i: int|
                old(self).next <= i < state.old_pending_changes.entries@.len()
                    ==> (#[trigger] state.old_pending_changes.entries@[i]).1 is Insert,
        ensures
            final(self).progress.wf(*state),
            final(self).progress.messages@ == old(self).progress.messages@ + r@,
            final(self).progress.old == old(self).progress.old,
            final(self).progress.events@ == all_events(
                state.old_pending_changes.entries@,
                old(self).start_key,
                old(self).progress.old@,
            ),
            final(self).progress.entries@.len() == 0,
            final(self).progress.frees@.len() == 0,
            final(self).progress.remaps@.len() == 0,
    {
        let mut r: Vec<IndexMessage> = Vec::new();
        let ghost a = *self;
        let ghost m = *state;
        let ghost pend = state.old_pending_changes.entries@;
        let ghost e0 = a.progress.events@;
        let ghost lo = a.next as int;
        let changes = &state.old_pending_changes.entries;
        proof {
            lemma_bound_exists(pend, last_place(a.start_key, a.progress.old@) + 1);
            assert(e0 + ingests(pend.subrange(lo, lo)) =~= e0);
            assert(a.progress.messages@ + r@ =~= a.progress.messages@);
        }
        while self.next < changes.len()
            invariant
                *state == m,
                state.wf(),
                pend == state.old_pending_changes.entries@,
                changes@ == pend,
                0 <= lo <= self.next <= pend.len(),
                self.progress.wf(m),
                self.progress.last_key is None ==> self.progress.frees@.len() == 0,
                self.progress.old == a.progress.old,
                self.progress.messages@ == a.progress.messages@ + r@,
                self.progress.events@ == e0 + ingests(pend.subrange(lo, self.next as int)),
            decreases pend.len() - self.next,
        {
            let (key, change) = changes[self.next];
            let ghost r0 = r@;
            proof {
                let p = pend[self.next as int];
                assert(located(state.old_pending_changes.entries@[self.next as int].1.spec_value()));
                assert(ingests(pend.subrange(lo, self.next + 1)) =~= ingests(
                    pend.subrange(lo, self.next as int),
                ).push(MergeEvent::Ingest(entry_of_change(p))));
            }
            let message = self.progress.ingest(state, IndexEntry { key, value: change.value() });
            if let Some(message) = message {
                r.push(message);
            }
            proof {
                assert(a.progress.messages@ + r@ =~= (a.progress.messages@ + r0) + opt_seq(
                    message,
                ));
                assert(self.progress.events@ =~= e0 + ingests(
                    pend.subrange(lo, self.next + 1),
                ));
            }
            self.next = self.next + 1;
        }
        let ghost r0 = r@;
        let message = self.progress.report(state);
        if let Some(message) = message {
            r.push(message);
        }
        proof {
            assert(a.progress.messages@ + r@ =~= (a.progress.messages@ + r0) + opt_seq(message));
            assert(pend.subrange(lo, pend.len() as int) =~= pend.skip(lo));
        }
        r
    }
}

} // verus!
