//! The state of the cache: what is looked up and inserted, and when the index is rewritten.
use crate::atime_histogram::AtimeHistogram;
use crate::base_types::{Atime, Extent};
use crate::binary_index_tree::{lemma_suffix_less, suffix};
use crate::block_based_log::BlockBasedLog;
use crate::index::IndexValue;
use crate::lru_cache::IndexCache;
use crate::merge::{MergeState, OperationLogEntry};
use crate::pending_changes::PendingChanges;
use crate::size_histogram::{counted, SizeHistogramPhys};
use vstd::prelude::*;

pub mod checkpointing;
pub mod insertion;
pub mod laws;
pub mod lookup;
pub mod opening;
pub mod rotated;
pub mod rotation;
pub mod sizing;

verus! {

/// How full the cache is kept, and what is remembered of it.
#[derive(Debug, Clone, Copy, PartialEq, Eq, Structural)]
pub struct CacheSettings {
    /// The cache is emptied to this percentage of its size.
    pub target_cache_size_pct: u64,
    /// The percentage of its size at which the cache is emptied.
    pub high_water_cache_size_pct: u64,
    /// The percentage of the size of the cache that is remembered of what has been evicted.
    pub ghost_cache_size_pct: u64,
    /// The number of buckets of the histogram of hits.
    pub quantiles_in_size_histogram: usize,
}

impl CacheSettings {
    /// The percentages of a size can be computed.
    pub open spec fn suit(&self, size: int) -> bool {
        &&& (size / 100) * self.target_cache_size_pct <= u64::MAX
        &&& (size / 100) * self.high_water_cache_size_pct <= u64::MAX
        &&& (size / 100) * self.ghost_cache_size_pct <= u64::MAX
    }
}

/// Why a block is inserted.
#[derive(Debug, Clone, Copy, PartialEq, Eq, Structural)]
pub enum InsertSource {
    Heal,
    Read,
    SpeculativeRead,
    Write,
}

/// Why a block is looked up.
#[derive(Debug, Clone, Copy, PartialEq, Eq, Structural)]
pub enum LookupSource {
    Write,
    Read,
    Evict,
}

/// What is done with a block that is looked up.
#[derive(Debug, Clone, Copy, PartialEq, Eq, Structural)]
pub enum LookupOperation {
    Lookup,
    Evict,
}

/// A value of a block that is in the cache.
#[derive(Debug, Clone, Copy, PartialEq, Eq, Structural)]
pub struct ValidIndexValue(pub IndexValue);

impl ValidIndexValue {
    pub open spec fn wf(self) -> bool {
        self.0.location is Some
    }

    pub fn extent(&self) -> (r: Extent)
        requires
            self.wf(),
        ensures
            r == (Extent { location: self.0.location->0, size: self.0.spec_size() as u64 }),
    {
        self.0.extent().unwrap()
    }
}

/// The state of the cache, but for its allocators and the index.
pub struct ZettaCacheState {
    pub pending_changes: PendingChanges,
    /// The number of changes at which a merge is started.
    pub pending_changes_trigger: usize,
    /// The number of changes beyond which none are added.
    pub pending_changes_cap: usize,
    /// The merge that goes on.
    pub merge: Option<MergeState>,
    pub index_cache: IndexCache,
    /// Counts the changes too, and accesses that are not logged.
    pub atime_histogram: AtimeHistogram,
    pub size_histogram: SizeHistogramPhys,
    pub operation_log: BlockBasedLog<OperationLogEntry>,
    pub atime: Atime,
}

/// The value is counted in the histogram.
pub open spec fn is_counted(h: AtimeHistogram, value: IndexValue) -> bool {
    &&& h.phys.first_ghost.0 <= value.atime.0 < h.phys.end()
    &&& value.spec_size() <= h.phys.at(value.atime.0 as int)
}

impl ZettaCacheState {
    pub open spec fn wf(&self) -> bool {
        &&& self.pending_changes.wf()
        &&& self.index_cache.wf()
        &&& self.atime_histogram.wf()
        &&& self.atime_histogram.phys.first_ghost.0 <= self.atime_histogram.phys.first_live.0
        &&& self.merge matches Some(m) ==> {
            &&& m.wf()
            &&& self.atime_histogram.phys.first_ghost.0 <= m.ghost_cutoff.0
            &&& m.ghost_cutoff.0 <= self.atime_histogram.phys.first_live.0
            &&& m.ghost_cutoff.0 <= self.atime_histogram.phys.end()
            &&& self.atime_histogram.phys.first_live.0 <= m.eviction_cutoff.0
        }
    }

    /// Hits can be counted.
    pub open spec fn can_count(&self) -> bool {
        let h = self.size_histogram;
        &&& h.bucket_size > 0
        &&& suffix(self.atime_histogram.phys.histogram@, 0) + h.meta_overhead <= u64::MAX
        &&& forall|i: int|
            0 <= i < h.live_histogram@.len() ==> (#[trigger] h.live_histogram@[i]) < u64::MAX
        &&& forall|i: int|
            0 <= i < h.ghost_histogram@.len() ==> (#[trigger] h.ghost_histogram@[i]) < u64::MAX
    }

    /// What was accessed before this is not in the cache any more.
    pub open spec fn live_cutoff(&self) -> Atime {
        match self.merge {
            Some(m) => m.eviction_cutoff,
            None => self.atime_histogram.phys.first_live,
        }
    }

    /// What was accessed before this is forgotten.
    pub open spec fn ghost_cutoff(&self) -> Atime {
        match self.merge {
            Some(m) => m.ghost_cutoff,
            None => self.atime_histogram.phys.first_ghost,
        }
    }

    /// A value that is recent enough has a location.
    pub open spec fn has_place(&self, value: IndexValue) -> bool {
        value.atime.0 >= self.live_cutoff().0 ==> value.location is Some
    }

    /// The value, if it is of a block that is in the cache.
    pub open spec fn valid(&self, value: IndexValue) -> Option<ValidIndexValue> {
        if value.atime.0 < self.live_cutoff().0 {
            None
        } else {
            Some(ValidIndexValue(value))
        }
    }

    /// Returns the value if it is still valid.
    pub fn validate(&self, value: IndexValue) -> (r: Option<ValidIndexValue>)
        requires
            self.has_place(value),
        ensures
            r == self.valid(value),
            r matches Some(v) ==> v.wf() && v.0 == value,
            r is Some <==> value.atime.0 >= match self.merge {
                Some(m) => m.eviction_cutoff.0,
                None => self.atime_histogram.phys.first_live.0,
            },
    {
        let live_cutoff = match &self.merge {
            Some(m) => m.eviction_cutoff,
            None => self.atime_histogram.first_live(),
        };
        if value.atime().0 < live_cutoff.0 {
            None
        } else {
            Some(ValidIndexValue(value))
        }
    }

    /// The histogram of hits after a read has found a ghost.
    pub open spec fn ghost_counted(&self, value: IndexValue, source: LookupSource) -> Seq<u64> {
        if self.ghost_cutoff().0 <= value.atime.0 < self.live_cutoff().0 && source
            == LookupSource::Read {
            counted(
                self.size_histogram.ghost_histogram@,
                self.size_histogram.bucket_of(
                    self.atime_histogram.phys.from(value.atime.0 as int) as u64,
                ),
            )
        } else {
            self.size_histogram.ghost_histogram@
        }
    }

    /// Counts a hit of a block that has been evicted but is remembered.
    pub fn ghost_hit_check(&mut self, value: IndexValue, source: LookupSource)
        requires
            old(self).wf(),
            old(self).can_count(),
        ensures
            final(self).wf(),
            *final(self) == (ZettaCacheState {
                size_histogram: final(self).size_histogram,
                ..*old(self)
            }),
            final(self).size_histogram == (SizeHistogramPhys {
                ghost_histogram: final(self).size_histogram.ghost_histogram,
                ..old(self).size_histogram
            }),
            final(self).size_histogram.ghost_histogram@ == old(self).ghost_counted(value, source),
    {
        let (live_cutoff, ghost_cutoff) = match &self.merge {
            Some(m) => (m.eviction_cutoff, m.ghost_cutoff),
            None => (self.atime_histogram.first_live(), self.atime_histogram.first_ghost()),
        };
        let is_read = match source {
            LookupSource::Read => true,
            _ => false,
        };
        if value.atime().0 >= ghost_cutoff.0 && value.atime().0 < live_cutoff.0 && is_read {
            let size = self.atime_histogram.size_at(value.atime());
            proof {
                let h = self.atime_histogram.phys;
                lemma_suffix_less(h.histogram@, 0, value.atime.0 - h.first_ghost.0);
            }
            self.size_histogram.ghost_hit(size);
        }
    }

    /// How many changes there are, with those that are being merged.
    pub open spec fn spec_pending_len(&self) -> int {
        self.pending_changes.entries@.len() + match self.merge {
            Some(m) => m.old_pending_changes.entries@.len() as int,
            None => 0,
        }
    }

    /// Whether another change can be added.
    pub fn has_room(&self) -> (r: bool)
        ensures
            r <==> self.spec_pending_len() < self.pending_changes_cap,
    {
        let old_len: usize = match &self.merge {
            Some(m) => m.old_pending_changes.len(),
            None => 0,
        };
        let len: usize = self.pending_changes.len();
        len < self.pending_changes_cap && old_len < self.pending_changes_cap - len
    }

    /// Whether the value is counted in the histogram.
    pub fn counts(&self, value: IndexValue) -> (r: bool)
        ensures
            r == is_counted(self.atime_histogram, value),
    {
        let h = &self.atime_histogram.phys;
        if value.atime.0 < h.first_ghost.0 {
            return false;
        }
        let index: usize = value.atime - h.first_ghost;
        index < h.histogram.len() && value.size() as u64 <= h.histogram[index]
    }

    /// Starts to count hits anew, for a cache of the given size of which `data_capacity` is for
    /// data.
    pub fn clear_hit_data(
        &mut self,
        cache_capacity: u64,
        data_capacity: u64,
        settings: &CacheSettings,
    )
        requires
            data_capacity <= cache_capacity,
            cache_capacity + cache_capacity / 100 * settings.ghost_cache_size_pct <= u64::MAX,
        ensures
            *final(self) == (ZettaCacheState {
                size_histogram: final(self).size_histogram,
                ..*old(self)
            }),
            ({
                let h = final(self).size_histogram;
                &&& h.lookups == 0
                &&& h.cache_capacity == cache_capacity
                &&& h.meta_overhead == cache_capacity - data_capacity
                &&& h.bucket_size == if settings.quantiles_in_size_histogram == 0 {
                    0
                } else {
                    (cache_capacity + cache_capacity / 100 * settings.ghost_cache_size_pct)
                        / settings.quantiles_in_size_histogram as int
                }
                &&& h.live_histogram@ == Seq::new(
                    settings.quantiles_in_size_histogram as nat,
                    |i: int| 0u64,
                )
                &&& h.ghost_histogram@ == Seq::new(
                    settings.quantiles_in_size_histogram as nat,
                    |i: int| 0u64,
                )
            }),
    {
        self.size_histogram = SizeHistogramPhys::new(
            cache_capacity + cache_capacity / 100 * settings.ghost_cache_size_pct,
            cache_capacity,
            cache_capacity - data_capacity,
            settings.quantiles_in_size_histogram,
        );
    }
}

} // verus!
