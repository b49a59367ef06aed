//! Looking blocks up.
use super::{is_counted, LookupSource, ValidIndexValue, ZettaCacheState};
use crate::base_types::Extent;
use crate::binary_index_tree::lemma_suffix_less;
use crate::index::{IndexKey, IndexValue};
use crate::lru_cache::{cache_key, find};
use crate::pending_changes::{value_bytes, PendingChange, PendingChanges, UpdateAtime};
use crate::size_histogram::{counted, SizeHistogramPhys};
use vstd::prelude::*;

verus! {

/// What is known of a block without reading the index.
#[derive(Debug, Clone, Copy, PartialEq, Eq, Structural)]
pub enum KnownValue {
    /// The value of the block, if it is in the cache.
    Known(Option<ValidIndexValue>),
    /// The index has to be read.
    ReadIndex,
}

/// Which of the two indices of a merge has a key.
#[derive(Debug, Clone, Copy, PartialEq, Eq, Structural)]
pub enum WhichIndex {
    Old,
    New,
}

/// The new index has the keys up to its last one; the others are in the old index.
pub fn which_index(key: IndexKey, new_last_key: Option<IndexKey>) -> (r: WhichIndex)
    ensures
        r == match new_last_key {
            Some(last) => if key.place() <= last.place() {
                WhichIndex::New
            } else {
                WhichIndex::Old
            },
            None => WhichIndex::Old,
        },
{
    match new_last_key {
        Some(last) => if last.before(&key) {
            WhichIndex::Old
        } else {
            WhichIndex::New
        },
        None => WhichIndex::Old,
    }
}

/// The value that a key has now: that of its change, and else the given one.
pub open spec fn current_value(
    changes: PendingChanges,
    key: IndexKey,
    value: IndexValue,
) -> IndexValue {
    if changes@.contains_key(key) {
        changes@[key].spec_value()
    } else {
        value
    }
}

/// What the merge that goes on says about a key.
pub open spec fn merging_change(state: ZettaCacheState, key: IndexKey) -> Option<PendingChange> {
    match state.merge {
        Some(m) => if m.old_pending_changes@.contains_key(key) {
            Some(m.old_pending_changes@[key])
        } else {
            None
        },
        None => None,
    }
}

impl ZettaCacheState {
    /// The value of a key that is known without the index: from the changes, or from those that
    /// are being merged, or from the index cache.
    pub open spec fn remembered(&self, key: IndexKey) -> Option<IndexValue> {
        if self.pending_changes@.contains_key(key) {
            Some(self.pending_changes@[key].spec_value())
        } else {
            match merging_change(*self, key) {
                Some(change) => Some(change.spec_value()),
                None => self.index_cache.value(key),
            }
        }
    }

    /// Looks a key up in what is in memory.
    pub fn lookup_known(&mut self, key: IndexKey, source: LookupSource) -> (r: KnownValue)
        requires
            old(self).wf(),
            old(self).can_count(),
            old(self).remembered(key) matches Some(value) ==> old(self).has_place(value),
        ensures
            final(self).wf(),
            r == match old(self).remembered(key) {
                Some(value) => KnownValue::Known(old(self).valid(value)),
                None => KnownValue::ReadIndex,
            },
            r matches KnownValue::Known(Some(v)) ==> v.wf(),
            *final(self) == (ZettaCacheState {
                size_histogram: final(self).size_histogram,
                index_cache: final(self).index_cache,
                ..*old(self)
            }),
            final(self).size_histogram == (SizeHistogramPhys {
                ghost_histogram: final(self).size_histogram.ghost_histogram,
                ..old(self).size_histogram
            }),
            final(self).size_histogram.ghost_histogram@ == match old(self).remembered(key) {
                Some(value) if !old(self).pending_changes@.contains_key(key) => old(
                    self).ghost_counted(value, source),
                _ => old(self).size_histogram.ghost_histogram@,
            },
            final(self).index_cache@ == if old(self).pending_changes@.contains_key(key)
                || merging_change(*old(self), key) is Some {
                old(self).index_cache@
            } else {
                match find(old(self).index_cache@, cache_key(key)) {
                    Some(i) => seq![old(self).index_cache@[i]] + old(
                        self).index_cache@.remove(i),
                    None => old(self).index_cache@,
                }
            },
            // what was inserted is found as it is, as long as it is recent enough
            old(self).pending_changes@.contains_key(key) && old(self).pending_changes@[key]
                is Insert ==> ({
                let value = old(self).pending_changes@[key]->Insert_0;
                let cutoff = match old(self).merge {
                    Some(m) => m.eviction_cutoff,
                    None => old(self).atime_histogram.phys.first_live,
                };
                &&& value.atime.0 >= cutoff.0 ==> r == KnownValue::Known(
                    Some(ValidIndexValue(value)),
                )
                &&& value.atime.0 < cutoff.0 ==> r == KnownValue::Known(None)
            }),
            old(self).pending_changes@.contains_key(key) ==> *final(self) == *old(self),
    {
        if let Some(change) = self.pending_changes.get(&key) {
            return KnownValue::Known(self.validate(change.value()));
        }
        let merging = match &self.merge {
            Some(m) => m.old_pending_changes.get(&key),
            None => None,
        };
        let value = match merging {
            Some(change) => change.value(),
            None => match self.index_cache.get(key) {
                Some(value) => value,
                None => {
                    return KnownValue::ReadIndex;
                },
            },
        };
        let ghost b = *self;
        self.ghost_hit_check(value, source);
        KnownValue::Known(self.validate(value))
    }

    /// What the index says of a key counts only if there is no change of it by now.
    pub fn lookup_with_value_from_index(
        &mut self,
        key: &IndexKey,
        value_from_index: IndexValue,
        source: LookupSource,
    ) -> (r: Option<ValidIndexValue>)
        requires
            old(self).wf(),
            old(self).can_count(),
            old(self).has_place(
                current_value(old(self).pending_changes, *key, value_from_index),
            ),
        ensures
            final(self).wf(),
            r == old(self).valid(
                current_value(old(self).pending_changes, *key, value_from_index),
            ),
            r matches Some(v) ==> v.wf(),
            *final(self) == (ZettaCacheState {
                size_histogram: final(self).size_histogram,
                ..*old(self)
            }),
            final(self).size_histogram == (SizeHistogramPhys {
                ghost_histogram: final(self).size_histogram.ghost_histogram,
                ..old(self).size_histogram
            }),
            final(self).size_histogram.ghost_histogram@ == old(self).ghost_counted(
                current_value(old(self).pending_changes, *key, value_from_index),
                source,
            ),
            // without a change the block is found as the index has it
            !old(self).pending_changes@.contains_key(*key) ==> ({
                let cutoff = match old(self).merge {
                    Some(m) => m.eviction_cutoff,
                    None => old(self).atime_histogram.phys.first_live,
                };
                &&& value_from_index.atime.0 >= cutoff.0 ==> r == Some(
                    ValidIndexValue(value_from_index),
                )
                &&& value_from_index.atime.0 < cutoff.0 ==> r is None
            }),
    {
        let value = match self.pending_changes.get(key) {
            Some(change) => change.value(),
            None => value_from_index,
        };
        self.ghost_hit_check(value, source);
        self.validate(value)
    }

    /// The value with the current atime.
    pub open spec fn touched(&self, value: IndexValue) -> IndexValue {
        IndexValue { atime: self.atime, ..value }
    }

    /// What the state becomes when a block is accessed.
    pub open spec fn accessed(
        &self,
        key: IndexKey,
        value: ValidIndexValue,
        source: LookupSource,
        after: ZettaCacheState,
    ) -> bool {
        &&& after == (ZettaCacheState {
            size_histogram: after.size_histogram,
            atime_histogram: after.atime_histogram,
            pending_changes: after.pending_changes,
            ..*self
        })
        // a read is a hit in a cache of the size of what was accessed since
        &&& after.size_histogram == (SizeHistogramPhys {
            live_histogram: after.size_histogram.live_histogram,
            ..self.size_histogram
        })
        &&& after.size_histogram.live_histogram@ == if source == LookupSource::Read {
            counted(
                self.size_histogram.live_histogram@,
                self.size_histogram.bucket_of(
                    self.atime_histogram.phys.from(value.0.atime.0 as int) as u64,
                ),
            )
        } else {
            self.size_histogram.live_histogram@
        }
        // the bytes of the block are those of the current atime now
        &&& after.atime_histogram.phys.first_ghost == self.atime_histogram.phys.first_ghost
        &&& after.atime_histogram.phys.first_live == self.atime_histogram.phys.first_live
        &&& after.atime_histogram.phys.end() == if self.atime.0
            < self.atime_histogram.phys.end() {
            self.atime_histogram.phys.end()
        } else {
            self.atime.0 + 1
        }
        &&& forall|t: int|
            #[trigger] after.atime_histogram.phys.at(t) == self.atime_histogram.phys.at(t)
                - value_bytes(value.0, t) + value_bytes(self.touched(value.0), t)
        // the access is remembered, if there is room
        &&& after.pending_changes@ == if self.pending_changes@.contains_key(key) {
            self.pending_changes@.insert(
                key,
                self.pending_changes@[key].with_value(self.touched(value.0)),
            )
        } else if self.spec_pending_len() < self.pending_changes_cap {
            self.pending_changes@.insert(
                key,
                PendingChange::UpdateAtime(UpdateAtime(self.touched(value.0), value.0.atime)),
            )
        } else {
            self.pending_changes@
        }
    }

    /// A block that is in the cache has been found. Its atime becomes the current one, which is
    /// remembered as a change if there is room for one more. Returns where the block is.
    pub fn lookup(
        &mut self,
        key: IndexKey,
        valid_value: ValidIndexValue,
        source: LookupSource,
    ) -> (r: Extent)
        requires
            old(self).wf(),
            old(self).can_count(),
            valid_value.wf(),
            is_counted(old(self).atime_histogram, valid_value.0),
            old(self).atime_histogram.phys.first_ghost.0 <= old(self).atime.0 < u32::MAX,
            old(self).atime.0 - old(self).atime_histogram.phys.first_ghost.0 + 11 <= usize::MAX,
        ensures
            final(self).wf(),
            r == (Extent {
                location: valid_value.0.location->0,
                size: valid_value.0.spec_size() as u64,
            }),
            Some(r.location) == valid_value.0.location,
            r.size == valid_value.0.sectors * 512,
            old(self).accessed(key, valid_value, source, *final(self)),
    {
        let ghost a = *self;
        let extent = valid_value.extent();
        let original = valid_value.0;
        let mut value = original;
        let is_read = match source {
            LookupSource::Read => true,
            _ => false,
        };
        if is_read {
            let size = self.atime_histogram.size_at(value.atime());
            proof {
                let h = self.atime_histogram.phys;
                lemma_suffix_less(h.histogram@, 0, value.atime.0 - h.first_ghost.0);
            }
            self.size_histogram.live_hit(size);
        }
        if original.atime().0 != self.atime.0 {
            self.atime_histogram.remove(original);
            value = IndexValue { location: original.location, sectors: original.sectors, atime: self.atime };
            self.atime_histogram.insert(value);
        }
        proof {
            assert(value == a.touched(original));
            assert forall|t: int|
                #[trigger] self.atime_histogram.phys.at(t) == a.atime_histogram.phys.at(t)
                    - value_bytes(original, t) + value_bytes(value, t) by {}
        }
        let has_room = self.has_room();
        match self.pending_changes.get(&key) {
            None => {
                if has_room {
                    // The atime that the index has is kept, in case the block is replaced.
                    let _ = self.pending_changes.insert(
                        key,
                        PendingChange::UpdateAtime(UpdateAtime(value, original.atime())),
                    );
                }
            },
            Some(PendingChange::Insert(_)) => {
                let _ = self.pending_changes.insert(key, PendingChange::Insert(value));
            },
            Some(PendingChange::UpdateAtime(update)) => {
                let _ = self.pending_changes.insert(
                    key,
                    PendingChange::UpdateAtime(UpdateAtime(value, update.1)),
                );
            },
        }
        extent
    }
}

} // verus!
