//! The state that a cache is opened with.
use super::insertion::{
    lemma_logged_bytes, lemma_logged_end, load_operation_log, logged_bytes, logged_changes,
    logged_end,
};
use super::laws::{counts_all, law_loaded_is_counted};
use super::ZettaCacheState;
use crate::atime_histogram::{AtimeHistogram, AtimeHistogramPhys, ATIME_BIT_EXPANSION_NODES};
use crate::base_types::Atime;
use crate::binary_index_tree::suffix;
use crate::block_based_log::{BlockBasedLog, BlockBasedLogPhys};
use crate::index::run::IndexRun;
use crate::index::IndexKey;
use crate::lru_cache::IndexCache;
use crate::merge::{located, table_ok, OperationLogEntry, RebalanceState};
use crate::pending_changes::{change_bytes, lemma_key_at, net_bytes, PendingChanges};
use crate::size_histogram::SizeHistogramPhys;
use vstd::prelude::*;

verus! {

/// A merge that was going on at the checkpoint.
pub struct OpenMerge {
    /// The index that is being written.
    pub new_index: IndexRun,
    /// The entries of the log of the changes that are being merged.
    pub entries: Vec<OperationLogEntry>,
    pub operation_log: BlockBasedLogPhys<OperationLogEntry>,
    pub rebalance: Option<RebalanceState>,
}

/// How much of the state may be in memory.
pub struct StateLimits {
    pub pending_changes_trigger: usize,
    pub pending_changes_cap: usize,
    pub index_cache_cap: usize,
}

/// The bytes of an atime that are in the old index or, if there is a merge, in the new one.
pub open spec fn indexed_at(old_index: IndexRun, merge: Option<OpenMerge>, t: int) -> int {
    old_index.atime_histogram_phys.at(t) + match merge {
        Some(m) => m.new_index.atime_histogram_phys.at(t),
        None => 0,
    }
}

/// The bytes that the indices and the logs have.
pub open spec fn opened_bytes(
    old_index: IndexRun,
    merge: Option<OpenMerge>,
    entries: Seq<OperationLogEntry>,
) -> int {
    suffix(old_index.atime_histogram_phys.histogram@, 0) + logged_bytes(entries) + match merge {
        Some(m) => suffix(m.new_index.atime_histogram_phys.histogram@, 0) + logged_bytes(
            m.entries@,
        ),
        None => 0,
    }
}

/// The first atime that the histogram of an opened cache has.
pub open spec fn opened_ghost(old_index: IndexRun, merge: Option<OpenMerge>) -> int {
    let first = old_index.atime_histogram_phys.first_ghost.0 as int;
    match merge {
        Some(m) => if m.new_index.atime_histogram_phys.first_ghost.0 < first {
            m.new_index.atime_histogram_phys.first_ghost.0 as int
        } else {
            first
        },
        None => first,
    }
}

/// Where the histogram of an opened cache ends.
pub open spec fn opened_end(
    old_index: IndexRun,
    merge: Option<OpenMerge>,
    entries: Seq<OperationLogEntry>,
) -> int {
    let end = old_index.atime_histogram_phys.end();
    logged_end(
        entries,
        match merge {
            Some(m) => logged_end(
                m.entries@,
                if m.new_index.atime_histogram_phys.end() > end {
                    m.new_index.atime_histogram_phys.end()
                } else {
                    end
                },
            ),
            None => end,
        },
    )
}

/// The entries have atimes that can be counted.
pub open spec fn atimes_from(entries: Seq<OperationLogEntry>, first: int) -> bool {
    forall|i: int|
        0 <= i < entries.len() ==> match #[trigger] entries[i] {
            OperationLogEntry::Insert(_, v) => first <= v.atime.0 < u32::MAX,
        }
}

/// The entries say where the blocks are.
pub open spec fn entries_located(entries: Seq<OperationLogEntry>) -> bool {
    forall|i: int|
        0 <= i < entries.len() ==> match #[trigger] entries[i] {
            OperationLogEntry::Insert(_, v) => located(v),
        }
}

/// What the log changes is where the log says.
proof fn lemma_changes_located(entries: Seq<OperationLogEntry>)
    requires
        entries_located(entries),
    ensures
        forall|k: IndexKey|
            #[trigger] logged_changes(entries).contains_key(k) ==> located(
                logged_changes(entries)[k].spec_value(),
            ),
    decreases entries.len(),
{
    if entries.len() > 0 {
        let d = entries.drop_last();
        assert forall|i: int| 0 <= i < d.len() implies match #[trigger] d[i] {
            OperationLogEntry::Insert(_, v) => located(v),
        } by {
            assert(entries[i] == d[i]);
        }
        lemma_changes_located(d);
        assert(entries[entries.len() - 1] == entries.last());
    }
}

proof fn lemma_entries_located(r: PendingChanges, entries: Seq<OperationLogEntry>)
    requires
        r.wf(),
        r@ == logged_changes(entries),
        entries_located(entries),
    ensures
        forall|i: int|
            0 <= i < r.entries@.len() ==> located((#[trigger] r.entries@[i]).1.spec_value()),
{
    lemma_changes_located(entries);
    assert forall|i: int| 0 <= i < r.entries@.len() implies located(
        (#[trigger] r.entries@[i]).1.spec_value(),
    ) by {
        lemma_key_at(r.entries@, i);
        assert(r@.contains_key(r.entries@[i].0));
        assert(r@[r.entries@[i].0] == r.entries@[i].1);
    }
}

impl ZettaCacheState {
    /// The state at the last checkpoint. The histogram counts what the indices have, and the
    /// changes that the logs say; the old index has only what is not in the new one. Returns the
    /// index that the merge goes on to write, if there is one.
    pub fn open(
        old_index: &IndexRun,
        merge: Option<OpenMerge>,
        operation_log: BlockBasedLogPhys<OperationLogEntry>,
        entries: &Vec<OperationLogEntry>,
        limits: StateLimits,
        size_histogram: SizeHistogramPhys,
        last_atime: Atime,
    ) -> (r: (ZettaCacheState, Option<IndexRun>))
        requires
            old_index.atime_histogram_phys.wf(),
            old_index.atime_histogram_phys.first_ghost.0
                <= old_index.atime_histogram_phys.first_live.0,
            merge matches Some(m) ==> {
                let n = m.new_index.atime_histogram_phys;
                &&& n.wf()
                &&& n.first_ghost.0 <= old_index.atime_histogram_phys.first_live.0
                &&& old_index.atime_histogram_phys.first_live.0 <= n.first_live.0
                &&& old_index.trim_key == m.new_index.last_key
                &&& atimes_from(m.entries@, opened_ghost(*old_index, merge))
                &&& entries_located(m.entries@)
                &&& m.rebalance matches Some(rebalance) ==> table_ok(rebalance.map)
            },
            atimes_from(entries@, opened_ghost(*old_index, merge)),
            opened_bytes(*old_index, merge, entries@) <= u64::MAX,
            opened_end(*old_index, merge, entries@) - opened_ghost(*old_index, merge)
                + ATIME_BIT_EXPANSION_NODES <= usize::MAX,
            limits.index_cache_cap <= usize::MAX / 256,
        ensures
            r.0.wf(),
            counts_all(r.0, |t: int| indexed_at(*old_index, merge, t)),
            r.0.pending_changes@ == logged_changes(entries@),
            match merge {
                Some(m) => {
                    &&& r.1 == Some(m.new_index)
                    &&& r.0.merge matches Some(state) && {
                        &&& state.rebalance == m.rebalance
                        &&& state.old_pending_changes@ == logged_changes(m.entries@)
                        &&& state.old_operation_log_phys == m.operation_log
                        &&& state.eviction_cutoff == m.new_index.atime_histogram_phys.first_live
                        &&& state.ghost_cutoff == m.new_index.atime_histogram_phys.first_ghost
                    }
                },
                None => r.1 is None && r.0.merge is None,
            },
            r.0.atime_histogram.phys.first_ghost.0 == opened_ghost(*old_index, merge),
            r.0.atime_histogram.phys.first_live == old_index.atime_histogram_phys.first_live,
            r.0.atime_histogram.phys.end() == opened_end(*old_index, merge, entries@),
            r.0.pending_changes_trigger == limits.pending_changes_trigger,
            r.0.pending_changes_cap == limits.pending_changes_cap,
            r.0.index_cache@.len() == 0,
            r.0.index_cache.cap() == limits.index_cache_cap,
            r.0.size_histogram == size_histogram,
            r.0.operation_log.phys == operation_log,
            r.0.operation_log.pending_entries@.len() == 0,
            r.0.atime == last_atime,
    {
        let ghost given = merge;
        let mut histogram: AtimeHistogramPhys = old_index.atime_histogram().copy();
        let ghost h0 = histogram;
        proof {
            lemma_logged_bytes(entries@, 0);
        }
        let mut resumed: Option<(OpenMerge, PendingChanges)> = None;
        if let Some(m) = merge {
            proof {
                lemma_logged_bytes(m.entries@, 0);
            }
            histogram.add_all(m.new_index.atime_histogram());
            let ghost h1 = histogram;
            proof {
                lemma_logged_end(m.entries@, h1.end());
            }
            let old_pending_changes = load_operation_log(&m.entries, &mut histogram);
            proof {
                lemma_entries_located(old_pending_changes, m.entries@);
                assert forall|t: int|
                    #[trigger] histogram.at(t) == indexed_at(*old_index, given, t) + net_bytes(
                        old_pending_changes.entries@,
                        t,
                    ) by {
                    law_loaded_is_counted(m.entries@, old_pending_changes, t);
                    assert(h1.at(t) == h0.at(t) + m.new_index.atime_histogram_phys.at(t));
                }
            }
            resumed = Some((m, old_pending_changes));
        }
        let ghost h2 = histogram;
        proof {
            lemma_logged_end(entries@, h2.end());
        }
        let pending_changes = load_operation_log(entries, &mut histogram);
        let mut state = ZettaCacheState {
            pending_changes,
            pending_changes_trigger: limits.pending_changes_trigger,
            pending_changes_cap: limits.pending_changes_cap,
            merge: None,
            index_cache: IndexCache::new(limits.index_cache_cap),
            atime_histogram: AtimeHistogram::new(histogram),
            size_histogram,
            operation_log: BlockBasedLog::open(operation_log),
            atime: last_atime,
        };
        let mut new_index: Option<IndexRun> = None;
        if let Some((m, old_pending_changes)) = resumed {
            let OpenMerge { new_index: index, entries: _, operation_log: log, rebalance } = m;
            state.resume_merge(old_pending_changes, log, rebalance, &index);
            new_index = Some(index);
        }
        proof {
            assert forall|t: int|
                #[trigger] state.atime_histogram.phys.at(t) == indexed_at(*old_index, given, t)
                    + net_bytes(state.pending_changes.entries@, t) + match state.merge {
                    Some(m) => net_bytes(m.old_pending_changes.entries@, t),
                    None => 0,
                } by {
                law_loaded_is_counted(entries@, state.pending_changes, t);
                assert(state.atime_histogram.phys.at(t) == h2.at(t)
                    + change_bytes(state.pending_changes.entries@, t));
            }
        }
        (state, new_index)
    }
}

} // verus!
