use zettacache::atime_histogram::{AtimeHistogram, AtimeHistogramPhys};
use zettacache::base_types::{Atime, BlockId, DiskId, DiskLocation, Extent};
use zettacache::block_allocator::builder::BlockAllocatorBuilder;
use zettacache::block_allocator::flush::BlockAllocatorPhys;
use zettacache::block_allocator::rebalance::RemapTable;
use zettacache::block_allocator::BlockAllocator;
use zettacache::block_based_log::{BlockBasedLog, BlockBasedLogPhys};
use zettacache::index::run::{IndexRun, IndexRunPhys};
use zettacache::index::{IndexEntry, IndexKey, IndexValue};
use zettacache::lru_cache::IndexCache;
use zettacache::merge::{
    IndexMessage, MergeState, MergeTask, OperationLogEntry, RebalanceLogEntry, RebalanceState,
};
use zettacache::pending_changes::{PendingChange, PendingChanges, UpdateAtime};
use zettacache::pool_id::PoolId;
use zettacache::size_histogram::SizeHistogramPhys;
use zettacache::slab_allocator::{
    SlabAllocator, SlabAllocatorBuilder, SlabAllocatorPhys, SlabExtentPhys,
};
use zettacache::zettacache::insertion::{
    insert_buffer, load_operation_log, waits_for_buffer, InsertBuffer,
};
use zettacache::zettacache::lookup::{which_index, KnownValue, WhichIndex};
use zettacache::zettacache::opening::{OpenMerge, StateLimits};
use zettacache::zettacache::sizing::MergePlan;
use zettacache::zettacache::{
    CacheSettings, InsertSource, LookupSource, ValidIndexValue, ZettaCacheState,
};

const SETTINGS: CacheSettings = CacheSettings {
    target_cache_size_pct: 80,
    high_water_cache_size_pct: 82,
    ghost_cache_size_pct: 100,
    quantiles_in_size_histogram: 100,
};

fn extent(disk: usize, offset: u64, size: u64) -> Extent {
    Extent::new(DiskId::new(disk), offset, size)
}

fn at(offset: u64) -> DiskLocation {
    DiskLocation::new(DiskId::new(0), offset)
}

fn key(block: u64) -> IndexKey {
    IndexKey::new(PoolId(0), BlockId(block))
}

fn value(offset: u64, atime: u32) -> IndexValue {
    IndexValue::new(Some(at(offset)), 512, Atime(atime))
}

fn entry(block: u64, offset: u64, atime: u32) -> IndexEntry {
    IndexEntry { key: key(block), value: value(offset, atime) }
}

fn ghost(block: u64, atime: u32) -> IndexEntry {
    IndexEntry { key: key(block), value: IndexValue::new(None, 512, Atime(atime)) }
}

fn merge_state(changes: &[(u64, PendingChange)], rebalance: Option<RebalanceState>) -> MergeState {
    let mut old_pending_changes = PendingChanges::new();
    for (block, change) in changes {
        old_pending_changes.insert(key(*block), *change);
    }
    MergeState {
        rebalance,
        old_pending_changes,
        old_operation_log_phys: BlockBasedLogPhys::new(),
        eviction_cutoff: Atime(10),
        ghost_cutoff: Atime(5),
    }
}

fn merge(
    state: &MergeState,
    start: Option<IndexKey>,
    old: &[IndexEntry],
    chunk: usize,
) -> Vec<IndexMessage> {
    let mut task = MergeTask::new(state, start, Atime(0), Atime(0), chunk);
    let mut messages = vec![];
    for e in old {
        messages.extend(task.merge_entry(state, *e));
    }
    messages.extend(task.finish(state));
    messages
}

fn entries(messages: &[IndexMessage]) -> Vec<IndexEntry> {
    messages.iter().flat_map(|m| m.entries.iter().copied()).collect()
}

fn frees(messages: &[IndexMessage]) -> Vec<Extent> {
    messages.iter().flat_map(|m| m.frees.iter().copied()).collect()
}

#[test]
fn changes_are_merged_in_order() {
    let state = merge_state(
        &[(2, PendingChange::Insert(value(8192, 20))), (9, PendingChange::Insert(value(9216, 21)))],
        None,
    );
    let messages = merge(&state, None, &[entry(1, 512, 11), entry(3, 1024, 12)], 1000);
    assert_eq!(messages.len(), 1);
    assert_eq!(messages[0].last_key, key(9));
    assert_eq!(
        entries(&messages),
        vec![entry(1, 512, 11), entry(2, 8192, 20), entry(3, 1024, 12), entry(9, 9216, 21)]
    );
    assert_eq!(frees(&messages), vec![]);
    assert_eq!(messages[0].obsoleted.histogram[11], 512);
}

#[test]
fn inserted_block_replaces_the_old_one() {
    let state = merge_state(&[(1, PendingChange::Insert(value(8192, 20)))], None);
    let messages = merge(&state, None, &[entry(1, 512, 11)], 1000);
    assert_eq!(entries(&messages), vec![entry(1, 8192, 20)]);
    assert_eq!(frees(&messages), vec![extent(0, 512, 512)]);
}

#[test]
fn accessed_block_gets_its_atime() {
    let state = merge_state(
        &[(1, PendingChange::UpdateAtime(UpdateAtime(value(512, 20), Atime(6))))],
        None,
    );
    let messages = merge(&state, None, &[entry(1, 512, 6)], 1000);
    assert_eq!(entries(&messages), vec![entry(1, 512, 20)]);
    assert_eq!(frees(&messages), vec![]);
}

#[test]
fn old_blocks_become_ghosts_and_are_forgotten() {
    let state = merge_state(&[], None);
    let messages = merge(
        &state,
        None,
        &[entry(1, 512, 10), entry(2, 1024, 9), entry(3, 1536, 4), ghost(4, 5), ghost(5, 4)],
        1000,
    );
    assert_eq!(entries(&messages), vec![entry(1, 512, 10), ghost(2, 9), ghost(4, 5)]);
    assert_eq!(frees(&messages), vec![extent(0, 1024, 512), extent(0, 1536, 512)]);
    assert_eq!(messages.last().unwrap().last_key, key(5));
}

#[test]
fn merge_goes_on_behind_the_start() {
    let state = merge_state(&[(1, PendingChange::Insert(value(8192, 20)))], None);
    let messages = merge(&state, Some(key(2)), &[entry(2, 512, 11), entry(3, 1024, 11)], 1000);
    assert_eq!(entries(&messages), vec![entry(3, 1024, 11)]);
    assert_eq!(frees(&messages), vec![]);
}

#[test]
fn progress_is_reported_in_chunks() {
    let state = merge_state(&[], None);
    let old: Vec<IndexEntry> = (0..7).map(|i| entry(i, i * 512, 11)).collect();
    let messages = merge(&state, None, &old, 2);
    assert!(messages.len() >= 3);
    assert_eq!(entries(&messages), old);
    let obsolete: u64 = messages.iter().flat_map(|m| m.obsoleted.histogram.iter()).sum();
    assert_eq!(obsolete, 7 * 512);
}

#[test]
fn empty_merge_reports_nothing() {
    let state = merge_state(&[], None);
    assert!(merge(&state, None, &[], 1000).is_empty());
}

fn rebalance() -> RebalanceState {
    let moves = vec![
        RebalanceLogEntry { old: extent(0, 4096, 4096), new: Some(at(65536)) },
        RebalanceLogEntry { old: extent(0, 8192, 512), new: None },
    ];
    RebalanceState::from_log(&moves, BlockBasedLogPhys::new())
}

#[test]
fn extents_are_remapped() {
    let r = rebalance();
    assert_eq!(r.remap(extent(0, 4608, 512)), Some(at(66048)));
    assert_eq!(r.remap(extent(0, 8192, 512)), None);
    assert_eq!(r.remap(extent(0, 512, 512)), Some(at(512)));
    assert_eq!(r.remap(extent(0, 8704, 512)), Some(at(8704)));
}

#[test]
fn last_logged_move_counts() {
    let moves = vec![
        RebalanceLogEntry { old: extent(0, 4096, 512), new: None },
        RebalanceLogEntry { old: extent(0, 4096, 512), new: Some(at(512)) },
    ];
    let r = RebalanceState::from_log(&moves, BlockBasedLogPhys::new());
    assert_eq!(r.map.entries.len(), 1);
    assert_eq!(r.remap(extent(0, 4096, 512)), Some(at(512)));
}

#[test]
fn moved_blocks_are_reported() {
    let state = merge_state(&[], Some(rebalance()));
    let messages = merge(
        &state,
        None,
        &[entry(1, 4608, 11), entry(2, 8192, 11), entry(3, 4096, 7), entry(4, 512, 11)],
        1000,
    );
    assert_eq!(entries(&messages), vec![entry(1, 66048, 11), ghost(3, 7), entry(4, 512, 11)]);
    assert_eq!(frees(&messages), vec![extent(0, 65536, 512)]);
    assert_eq!(
        messages[0].remaps,
        vec![entry(1, 66048, 11), ghost(2, 11), entry(3, 65536, 7)]
    );
}

fn state(cap: usize) -> ZettaCacheState {
    ZettaCacheState {
        pending_changes: PendingChanges::new(),
        pending_changes_trigger: 2,
        pending_changes_cap: cap,
        merge: None,
        index_cache: IndexCache::new(100),
        atime_histogram: AtimeHistogram::new(AtimeHistogramPhys::new(Atime(0), Atime(5))),
        size_histogram: SizeHistogramPhys::new(10240, 5120, 0, 10),
        operation_log: BlockBasedLog::open(BlockBasedLogPhys::new()),
        atime: Atime(20),
    }
}

fn allocators() -> (BlockAllocator, SlabAllocator) {
    let phys = SlabAllocatorPhys {
        slab_size: 1 << 20,
        capacity: vec![SlabExtentPhys::Present { extent: extent(0, 0, 8 << 20) }],
    };
    let builder = SlabAllocatorBuilder::new(&phys);
    let blocks =
        BlockAllocatorBuilder::new(builder.access(), BlockAllocatorPhys::new(512), &vec![], &vec![]);
    let sa = builder.build(&vec![], 0);
    let allocator = blocks.build(&sa, &vec![DiskId::new(0)]);
    (allocator, sa)
}

#[test]
fn inserted_block_is_found() {
    let (mut allocator, mut sa) = allocators();
    let mut s = state(10);
    let location = s.insert(&mut allocator, &mut sa, key(1), 1024).unwrap();
    match s.lookup_known(key(1), LookupSource::Read) {
        KnownValue::Known(Some(found)) => {
            assert_eq!(found.extent(), Extent { location, size: 1024 });
            let extent = s.lookup(key(1), found, LookupSource::Read);
            assert_eq!(extent, Extent { location, size: 1024 });
        }
        _ => panic!("the block is known"),
    }
    assert_eq!(s.lookup_known(key(2), LookupSource::Read), KnownValue::ReadIndex);
    assert_eq!(s.operation_log.pending_len(), 1);
    assert_eq!(s.atime_histogram.sum_live(), 1024);
    assert_eq!(s.size_histogram.live_histogram[1], 1);
}

#[test]
fn replaced_block_is_freed() {
    let (mut allocator, mut sa) = allocators();
    let mut s = state(10);
    s.insert(&mut allocator, &mut sa, key(1), 1024).unwrap();
    let before = allocator.free_bytes(&sa);
    let location = s.insert(&mut allocator, &mut sa, key(1), 1024).unwrap();
    assert_eq!(s.pending_changes.get(&key(1)).unwrap().value().location(), Some(location));
    assert_eq!(s.atime_histogram.sum_live(), 1024);
    assert_eq!(s.operation_log.pending_len(), 2);
    assert!(allocator.free_bytes(&sa) <= before);
    assert_eq!(s.insert_at(key(1), at(512), 512).unwrap().location, location);
}

#[test]
fn without_room_nothing_is_inserted() {
    let (mut allocator, mut sa) = allocators();
    let mut s = state(1);
    assert!(s.has_room());
    assert!(s.insert(&mut allocator, &mut sa, key(1), 1024).is_some());
    assert!(!s.has_room());
    assert!(s.insert(&mut allocator, &mut sa, key(2), 1024).is_none());
    assert_eq!(s.pending_changes.len(), 1);
}

#[test]
fn value_from_the_index_is_used() {
    let mut s = state(10);
    let v = value(512, 7);
    s.atime_histogram.insert(v);
    assert!(s.counts(v));
    assert!(!s.counts(value(512, 8)));
    let found = s.lookup_with_value_from_index(&key(1), v, LookupSource::Read).unwrap();
    assert_eq!(s.lookup(key(1), found, LookupSource::Write), extent(0, 512, 512));
    assert_eq!(
        s.pending_changes.get(&key(1)),
        Some(PendingChange::UpdateAtime(UpdateAtime(value(512, 20), Atime(7))))
    );
    assert_eq!(s.size_histogram.live_histogram, vec![0; 10]);
    // the change counts by now
    let found = s.lookup_with_value_from_index(&key(1), v, LookupSource::Read).unwrap();
    assert_eq!(found, ValidIndexValue(value(512, 20)));
}

#[test]
fn histogram_counts_the_index_and_the_changes() {
    let (mut allocator, mut sa) = allocators();
    let mut s = state(2);
    // a block of the index, last accessed at 7
    let indexed = value(512, 7);
    s.atime_histogram.insert(indexed);
    let found = s.lookup_with_value_from_index(&key(1), indexed, LookupSource::Read).unwrap();
    s.lookup(key(1), found, LookupSource::Read);
    assert_eq!(s.atime_histogram.size_at(Atime(0)), 512);
    assert_eq!(s.atime_histogram.size_at(Atime(20)), 512);
    // replaced: the block of the index counts as before the access
    s.insert(&mut allocator, &mut sa, key(1), 1024).unwrap();
    assert_eq!(s.atime_histogram.size_at(Atime(8)), 1024);
    assert_eq!(s.atime_histogram.size_at(Atime(7)), 1536);
    // another access of a block that has a change moves its bytes
    s.atime = Atime(21);
    match s.lookup_known(key(1), LookupSource::Read) {
        KnownValue::Known(Some(found)) => {
            s.lookup(key(1), found, LookupSource::Read);
        }
        _ => panic!("the block is known"),
    }
    assert_eq!(s.atime_histogram.size_at(Atime(21)), 1024);
    assert_eq!(s.atime_histogram.size_at(Atime(7)), 1536);
    assert_eq!(s.operation_log.pending_len(), 1);
}

#[test]
fn ghost_hits_are_counted() {
    let mut s = state(10);
    let v = IndexValue::new(None, 512, Atime(3));
    s.atime_histogram.insert(v);
    assert_eq!(s.lookup_with_value_from_index(&key(1), v, LookupSource::Write), None);
    assert_eq!(s.size_histogram.ghost_histogram[0], 0);
    assert_eq!(s.lookup_with_value_from_index(&key(1), v, LookupSource::Read), None);
    assert_eq!(s.size_histogram.ghost_histogram[0], 1);
    assert_eq!(s.validate(v), None);
    s.ghost_hit_check(v, LookupSource::Read);
    assert_eq!(s.size_histogram.ghost_histogram[0], 2);
    s.clear_hit_data(1000, 900, &SETTINGS);
    assert_eq!(s.size_histogram.bucket_size, 20);
    assert_eq!(s.size_histogram.meta_overhead, 100);
    assert_eq!(s.size_histogram.ghost_histogram, vec![0; 100]);
    let few = CacheSettings {
        ghost_cache_size_pct: 50,
        quantiles_in_size_histogram: 10,
        ..SETTINGS
    };
    s.clear_hit_data(1000, 900, &few);
    assert_eq!(s.size_histogram.bucket_size, 150);
    assert_eq!(s.size_histogram.live_histogram, vec![0; 10]);
}

#[test]
fn merge_is_planned_when_there_is_a_reason() {
    let mut s = state(10);
    for t in 0..20 {
        s.atime_histogram.insert(IndexValue::new(Some(at(0)), 512, Atime(t)));
    }
    assert_eq!(s.plan_merge(100000, 99000, false, &SETTINGS), None);
    assert_eq!(
        s.plan_merge(100000, 99000, true, &SETTINGS),
        Some(MergePlan { eviction_atime: Atime(5), ghost_atime: Atime(0) })
    );
    // 81920 bytes used of 100000; two percent over the target
    assert_eq!(s.plan_merge(100000, 18080, false, &SETTINGS), None);
    let plan = s.plan_merge(100000, 18000, false, &SETTINGS).unwrap();
    assert_eq!(plan.eviction_atime, Atime(9));
    assert_eq!(plan.ghost_atime, Atime(0));
    let low = CacheSettings { high_water_cache_size_pct: 1, target_cache_size_pct: 99, ..SETTINGS };
    let plan = s.plan_merge(100000, 99000, false, &low).unwrap();
    assert_eq!(plan.eviction_atime, Atime(5));
    // nothing is remembered
    let none = CacheSettings { ghost_cache_size_pct: 0, ..SETTINGS };
    let plan = s.plan_merge(100000, 18000, false, &none).unwrap();
    assert_eq!(plan.ghost_atime, Atime(5));
}

#[test]
fn merge_starts_and_ends() {
    let (mut allocator, mut sa) = allocators();
    let mut s = state(10);
    s.insert(&mut allocator, &mut sa, key(1), 512).unwrap();
    s.insert(&mut allocator, &mut sa, key(2), 512).unwrap();
    let v = value(1 << 19, 7);
    s.atime_histogram.insert(v);
    assert!(s.plan_merge(1 << 20, 1 << 19, false, &SETTINGS).is_some());
    let plan = MergePlan { eviction_atime: Atime(8), ghost_atime: Atime(2) };
    s.start_merge(plan, BlockBasedLogPhys::new(), None);
    assert_eq!(s.pending_changes.len(), 0);
    assert!(s.has_room());
    // what is being merged is still known
    match s.lookup_known(key(2), LookupSource::Write) {
        KnownValue::Known(Some(_)) => {}
        _ => panic!("the block is known"),
    }
    // what is being evicted is gone
    assert_eq!(s.validate(v), None);
    assert!(s.merge_progress(Some(IndexRunPhys::new(Atime(2), Atime(8)))).is_some());
    let merged = s.rotate_index();
    assert_eq!(merged.old_pending_changes.len(), 2);
    assert!(s.merge.is_none());
    assert!(s.merge_progress(None).is_none());
    assert_eq!(s.atime_histogram.first_live(), Atime(8));
    assert_eq!(s.atime_histogram.first_ghost(), Atime(2));
    assert!(s.index_cache.get(key(1)).is_some());
    assert!(s.index_cache.get(key(2)).is_some());
}

#[test]
fn rebalanced_changes_are_moved() {
    let mut s = state(10);
    s.merge = Some(merge_state(&[], Some(rebalance())));
    s.merge.as_mut().unwrap().eviction_cutoff = Atime(5);
    s.merge.as_mut().unwrap().ghost_cutoff = Atime(0);
    s.atime_histogram.insert(value(4096, 20));
    s.atime_histogram.insert(value(8192, 20));
    let moved = PendingChange::UpdateAtime(UpdateAtime(value(4608, 20), Atime(7)));
    let lost = PendingChange::UpdateAtime(UpdateAtime(value(8192, 20), Atime(7)));
    s.pending_changes.insert(key(1), moved);
    s.pending_changes.insert(key(2), lost);
    s.index_cache.put(key(3), value(4096, 9));
    s.index_cache.put(key(4), value(8192, 9));
    s.apply_remaps(&vec![entry(3, 65536, 9), ghost(4, 9), ghost(5, 9)]);
    assert_eq!(s.index_cache.get(key(3)), Some(value(65536, 9)));
    assert_eq!(s.index_cache.get(key(4)), None);
    s.rotate_index();
    assert_eq!(s.pending_changes.get(&key(1)).unwrap().value(), value(66048, 20));
    assert_eq!(s.pending_changes.get(&key(2)), None);
}

#[test]
fn merge_is_resumed() {
    let mut s = state(10);
    let new_index = IndexRun::open(IndexRunPhys::new(Atime(0), Atime(9)), &vec![], 128);
    s.resume_merge(PendingChanges::new(), BlockBasedLogPhys::new(), None, &new_index);
    let merge = s.merge.as_ref().unwrap();
    assert_eq!((merge.eviction_cutoff, merge.ghost_cutoff), (Atime(9), Atime(0)));
    assert!(merge.rebalance.is_none());
}

fn limits() -> StateLimits {
    StateLimits { pending_changes_trigger: 2, pending_changes_cap: 10, index_cache_cap: 100 }
}

#[test]
fn state_is_opened_with_what_was_inserted() {
    let (mut allocator, mut sa) = allocators();
    let mut before = state(10);
    let location = before.insert(&mut allocator, &mut sa, key(1), 1024).unwrap();
    let log = before.operation_log.pending_entries.clone();
    let mut old_index = IndexRun::open(IndexRunPhys::new(Atime(0), Atime(5)), &vec![], 128);
    old_index.append(vec![entry(2, 512, 7)]);
    let (mut s, next_index) = ZettaCacheState::open(
        &old_index,
        None,
        BlockBasedLogPhys::new(),
        &log,
        limits(),
        SizeHistogramPhys::new(10240, 5120, 0, 10),
        Atime(20),
    );
    assert!(next_index.is_none() && s.merge.is_none());
    match s.lookup_known(key(1), LookupSource::Read) {
        KnownValue::Known(Some(found)) => {
            assert_eq!(found.extent(), Extent { location, size: 1024 })
        }
        _ => panic!("the block is known"),
    }
    // the block of the index and the one of the log
    assert_eq!(s.atime_histogram.size_at(Atime(7)), 1536);
    assert_eq!(s.atime_histogram.size_at(Atime(20)), 1024);
    assert_eq!(s.pending_changes_cap, 10);
}

#[test]
fn state_is_opened_in_a_merge() {
    let mut old_index = IndexRun::open(IndexRunPhys::new(Atime(0), Atime(5)), &vec![], 128);
    old_index.append(vec![entry(9, 512, 7)]);
    let mut new_index = IndexRun::open(IndexRunPhys::new(Atime(2), Atime(6)), &vec![], 128);
    new_index.append(vec![entry(1, 1024, 8)]);
    old_index.trim_key = Some(key(1));
    let merge = OpenMerge {
        new_index,
        entries: vec![OperationLogEntry::Insert(key(3), value(2048, 9))],
        operation_log: BlockBasedLogPhys::new(),
        rebalance: None,
    };
    let (s, next_index) = ZettaCacheState::open(
        &old_index,
        Some(merge),
        BlockBasedLogPhys::new(),
        &vec![OperationLogEntry::Insert(key(4), value(4096, 10))],
        limits(),
        SizeHistogramPhys::new(10240, 5120, 0, 10),
        Atime(20),
    );
    assert_eq!(next_index.unwrap().last_key(), Some(key(1)));
    let merge = s.merge.as_ref().unwrap();
    assert_eq!((merge.eviction_cutoff, merge.ghost_cutoff), (Atime(6), Atime(2)));
    assert_eq!(merge.old_pending_changes.get(&key(3)), Some(PendingChange::Insert(value(2048, 9))));
    assert_eq!(s.pending_changes.get(&key(3)), None);
    assert_eq!(s.pending_changes.get(&key(4)), Some(PendingChange::Insert(value(4096, 10))));
    for (atime, bytes) in [(7, 2048), (8, 1536), (9, 1024), (10, 512), (11, 0)] {
        assert_eq!(s.atime_histogram.size_at(Atime(atime)), bytes);
    }
}

#[test]
fn operation_log_is_loaded() {
    let log = vec![
        OperationLogEntry::Insert(key(1), value(512, 7)),
        OperationLogEntry::Insert(key(2), value(1024, 8)),
        OperationLogEntry::Insert(key(1), value(2048, 9)),
    ];
    let mut histogram = AtimeHistogramPhys::new(Atime(5), Atime(5));
    let changes = load_operation_log(&log, &mut histogram);
    assert_eq!(changes.len(), 2);
    assert_eq!(changes.get(&key(1)), Some(PendingChange::Insert(value(2048, 9))));
    assert_eq!(histogram.histogram, vec![0, 0, 0, 512, 512]);
}

#[test]
fn insertions_take_room_in_a_buffer() {
    assert_eq!(insert_buffer(InsertSource::Read), InsertBuffer::Demand);
    assert_eq!(insert_buffer(InsertSource::Heal), InsertBuffer::Speculative);
    assert_eq!(insert_buffer(InsertSource::Write), InsertBuffer::Speculative);
    assert!(waits_for_buffer(InsertSource::Read, true));
    assert!(!waits_for_buffer(InsertSource::Read, false));
    assert!(!waits_for_buffer(InsertSource::SpeculativeRead, true));
}

#[test]
fn keys_are_looked_for_in_one_index() {
    assert_eq!(which_index(key(5), None), WhichIndex::Old);
    assert_eq!(which_index(key(5), Some(key(5))), WhichIndex::New);
    assert_eq!(which_index(key(6), Some(key(5))), WhichIndex::Old);
    assert_eq!(RemapTable::new().entries.len(), 0);
}

#[test]
fn merge_is_resumed_behind_the_reported_key() {
    let state = merge_state(
        &[
            (2, PendingChange::Insert(value(8192, 20))),
            (5, PendingChange::Insert(value(8704, 21))),
            (9, PendingChange::Insert(value(9216, 22))),
        ],
        None,
    );
    let old: Vec<IndexEntry> = [1, 3, 5, 7, 8].map(|i| entry(i, i * 512, 11)).to_vec();
    let messages = merge(&state, None, &old, 2);
    let last_keys: Vec<IndexKey> = messages.iter().map(|m| m.last_key).collect();
    assert_eq!(last_keys, vec![key(2), key(5), key(8), key(9)]);
    for i in 0..messages.len() {
        let resumed = merge(&state, Some(messages[i].last_key), &old, 1000);
        let mut all = entries(&messages[..=i]);
        all.extend(entries(&resumed));
        assert_eq!(all, entries(&messages));
        let mut freed = frees(&messages[..=i]);
        freed.extend(frees(&resumed));
        assert_eq!(freed, frees(&messages));
    }
}

#[test]
fn replaced_block_may_be_reported_first() {
    let state = merge_state(
        &[
            (1, PendingChange::Insert(value(8192, 20))),
            (2, PendingChange::Insert(value(8704, 21))),
        ],
        None,
    );
    let old = vec![entry(1, 512, 11), entry(2, 1024, 11)];
    let messages = merge(&state, None, &old, 2);
    assert_eq!(messages.len(), 2);
    assert_eq!((messages[0].last_key, messages[1].last_key), (key(1), key(2)));
    assert_eq!(entries(&messages[..1]), vec![entry(1, 8192, 20)]);
    assert_eq!(frees(&messages[..1]), vec![extent(0, 512, 512), extent(0, 1024, 512)]);
    let resumed = merge(&state, Some(key(1)), &old, 1000);
    assert_eq!(entries(&resumed), vec![entry(2, 8704, 21)]);
    assert_eq!(frees(&resumed), vec![extent(0, 1024, 512)]);
}
