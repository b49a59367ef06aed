use zettacache::atime_histogram::{AtimeHistogram, AtimeHistogramPhys};
use zettacache::base_types::{Atime, BlockId, DiskId, DiskLocation, Extent};
use zettacache::block_based_log::summarized::LookupStep;
use zettacache::block_based_log::{BlockBasedLogChunk, ChunkId, LogFlush, LogOffset};
use zettacache::index::run::{IndexRun, IndexRunPhys, ReadOnlyIndexRun};
use zettacache::index::{IndexEntry, IndexKey, IndexValue, INDEX_ENTRY_BYTES};
use zettacache::lru_cache::chunk_cache::ChunkCache;
use zettacache::lru_cache::IndexCache;
use zettacache::pending_changes::{PendingChange, PendingChanges, UpdateAtime};
use zettacache::pool_id::PoolId;
use zettacache::slab_allocator::{
    SlabAllocator, SlabAllocatorBuilder, SlabAllocatorPhys, SlabExtentPhys,
};

fn at(offset: u64) -> DiskLocation {
    DiskLocation::new(DiskId::new(0), offset)
}

fn key(block: u64) -> IndexKey {
    IndexKey::new(PoolId(0), BlockId(block))
}

fn value(offset: u64, size: u32, atime: u32) -> IndexValue {
    IndexValue::new(Some(at(offset)), size, Atime(atime))
}

fn entry(block: u64, size: u32, atime: u32) -> IndexEntry {
    IndexEntry { key: key(block), value: value(block * 4096, size, atime) }
}

fn allocator() -> SlabAllocator {
    let extent = Extent::new(DiskId::new(0), 0, 8 << 17);
    let phys = SlabAllocatorPhys {
        slab_size: 1 << 17,
        capacity: vec![SlabExtentPhys::Present { extent }],
    };
    SlabAllocatorBuilder::new(&phys).build(&vec![], 0)
}

#[test]
fn keys_are_ordered_by_pool_and_block() {
    let a = IndexKey::new(PoolId(1), BlockId(u64::MAX));
    let b = IndexKey::new(PoolId(2), BlockId(0));
    assert!(a.before(&b));
    assert!(!b.before(&a));
    assert!(!a.before(&a));
    assert!(a < b);
    assert!(key(1).before(&key(2)));
}

#[test]
fn values_have_sizes_in_sectors() {
    let mut v = value(4096, 65535 * 512, 9);
    assert_eq!(v.size(), 65535 * 512);
    assert_eq!(v.sectors, 65535);
    assert_eq!(v.atime(), Atime(9));
    assert_eq!(v.extent(), Some(Extent::new(DiskId::new(0), 4096, 65535 * 512)));
    v.set_location(None);
    assert_eq!(v.location(), None);
    assert_eq!(v.extent(), None);
}

#[test]
fn entry_is_read_back() {
    let e = IndexEntry {
        key: IndexKey::new(PoolId(7), BlockId(0x0102030405060708)),
        value: value(4096, 1024, 0xa0b0c0d),
    };
    let bytes = e.to_bytes();
    assert_eq!(bytes.len(), INDEX_ENTRY_BYTES);
    assert_eq!(bytes[0], 7);
    assert_eq!(bytes[1..9], [8, 7, 6, 5, 4, 3, 2, 1]);
    assert_eq!(bytes[9..17], at(4096).to_raw().to_le_bytes());
    assert_eq!(bytes[17..19], [2, 0]);
    assert_eq!(bytes[19..23], [0x0d, 0x0c, 0x0b, 0x0a]);
    assert_eq!(IndexEntry::from_bytes(&bytes), e);
    let ghost = IndexEntry { key: e.key, value: IndexValue { location: None, ..e.value } };
    assert_eq!(ghost.to_bytes()[9..17], [0; 8]);
    assert_eq!(IndexEntry::from_bytes(&ghost.to_bytes()), ghost);
}

#[test]
fn histogram_of_atimes() {
    let mut h = AtimeHistogramPhys::new(Atime(10), Atime(12));
    assert!(h.is_empty());
    h.insert(value(0, 512, 10));
    h.insert(value(0, 1024, 12));
    h.insert(value(0, 2048, 15));
    assert_eq!(h.histogram, vec![512, 0, 1024, 0, 0, 2048]);
    h.remove(value(0, 512, 12));
    assert_eq!(h.histogram, vec![512, 0, 512, 0, 0, 2048]);
    assert_eq!((h.first_ghost(), h.first_live()), (Atime(10), Atime(12)));
    assert_eq!(h.atime_for_target(Atime(10), 0), Atime(10));
    assert_eq!(h.atime_for_target(Atime(10), 512), Atime(11));
    assert_eq!(h.atime_for_target(Atime(10), 513), Atime(13));
    assert_eq!(h.atime_for_target(Atime(12), 513), Atime(16));
    assert_eq!(h.atime_for_target(Atime(12), 1 << 30), Atime(16));
}

#[test]
fn histograms_are_added_and_subtracted() {
    let mut a = AtimeHistogramPhys::new(Atime(10), Atime(10));
    a.insert(value(0, 512, 11));
    let mut b = AtimeHistogramPhys::new(Atime(9), Atime(10));
    b.insert(value(0, 1024, 9));
    b.insert(value(0, 2048, 13));
    a.add_all(&b);
    assert_eq!(a.first_ghost(), Atime(9));
    assert_eq!(a.histogram, vec![1024, 0, 512, 0, 2048]);
    assert!(!a.same(&b));
    a.subtract(&b);
    assert_eq!(a.histogram, vec![0, 0, 512, 0, 0]);
    assert!(a.same(&a.copy()));
    let mut part = AtimeHistogramPhys::new(Atime(11), Atime(11));
    part.insert(value(0, 512, 11));
    a.subtract(&part);
    assert_eq!(a.histogram, vec![0; 5]);
    assert_eq!(a.take().histogram, vec![0; 5]);
    assert!(a.is_empty());
}

#[test]
fn eviction_gains_what_is_asked_for() {
    let mut h = AtimeHistogram::new(AtimeHistogramPhys::new(Atime(0), Atime(2)));
    for t in 0..20 {
        h.insert(value(0, 512, t));
    }
    assert_eq!(h.sum_live(), 18 * 512);
    assert_eq!(h.sum_ghost(), 2 * 512);
    assert_eq!(h.size_at(Atime(19)), 512);
    assert_eq!(h.size_at(Atime(30)), 0);
    assert_eq!(h.atime_for_eviction_target(0), Atime(2));
    assert_eq!(h.atime_for_eviction_target(1025), Atime(5));
    assert_eq!(h.atime_for_ghost_target(512), Atime(1));
    assert_eq!(h.atime_for_ghost_target(1 << 20), Atime(2));
    h.reset_first_live(Atime(5));
    assert_eq!(h.sum_live(), 15 * 512);
    assert_eq!(h.sum_ghost(), 5 * 512);
    h.reset_first_live(Atime(4));
    assert_eq!(h.first_live(), Atime(5));
    h.reset_first(Atime(3));
    assert_eq!(h.first_ghost(), Atime(3));
    assert_eq!(h.sum_ghost(), 2 * 512);
    h.reset_first(Atime(1));
    assert_eq!(h.first_ghost(), Atime(3));
    h.remove(value(0, 512, 19));
    assert_eq!(h.sum_live(), 14 * 512);
    assert_eq!(h.to_phys().histogram.len(), 17);
}

#[test]
fn cache_drops_what_was_used_longest_ago() {
    let mut cache = IndexCache::new(2);
    cache.put(key(1), value(512, 512, 1));
    cache.put(key(2), value(1024, 512, 2));
    assert_eq!(cache.get(key(1)), Some(value(512, 512, 1)));
    cache.put(key(3), value(1536, 512, 3));
    assert_eq!(cache.get(key(2)), None);
    assert_eq!(cache.get(key(1)), Some(value(512, 512, 1)));
    assert_eq!(cache.get(key(3)), Some(value(1536, 512, 3)));
    cache.put(key(3), value(2048, 1024, 4));
    assert_eq!(cache.get(key(3)), Some(value(2048, 1024, 4)));
    cache.pop(key(3));
    assert_eq!(cache.get(key(3)), None);
    cache.pop(key(3));
    assert_eq!(cache.get(key(1)), Some(value(512, 512, 1)));
}

#[test]
fn change_of_location_is_no_use() {
    let mut cache = IndexCache::new(2);
    cache.put(key(1), value(512, 512, 1));
    cache.put(key(2), value(1024, 512, 2));
    cache.set_location(key(1), at(8192));
    cache.set_location(key(9), at(8192));
    cache.put(key(3), value(1536, 512, 3));
    assert_eq!(cache.get(key(1)), None);
    cache.set_location(key(2), at(4096));
    assert_eq!(cache.get(key(2)), Some(value(4096, 512, 2)));
    assert_eq!(cache.get(key(9)), None);
}

#[test]
fn cache_without_room_holds_nothing() {
    let mut cache = IndexCache::new(0);
    cache.put(key(1), value(512, 512, 1));
    assert_eq!(cache.get(key(1)), None);
}

fn chunk(id: u64) -> BlockBasedLogChunk<u64> {
    BlockBasedLogChunk { id: ChunkId(id), offset: LogOffset(id * 512), entries: vec![id, id + 1] }
}

#[test]
fn chunks_are_cached() {
    let mut cache: ChunkCache<u64> = ChunkCache::new(2);
    assert!(cache.get(ChunkId(1)).is_none());
    cache.put(chunk(1));
    cache.put(chunk(2));
    let slot = cache.get(ChunkId(1)).unwrap();
    assert_eq!(cache.slots[slot].entries(), &vec![1, 2]);
    cache.put(chunk(3));
    assert!(cache.get(ChunkId(2)).is_none());
    let slot = cache.get(ChunkId(3)).unwrap();
    assert_eq!(cache.slots[slot].id, ChunkId(3));
    assert!(cache.get(ChunkId(1)).is_some());
}

#[test]
fn changes_are_kept_by_key() {
    let mut changes = PendingChanges::new();
    let insert = PendingChange::Insert(value(512, 512, 1));
    let update = PendingChange::UpdateAtime(UpdateAtime(value(1024, 512, 9), Atime(2)));
    assert_eq!(changes.insert(key(5), insert), None);
    assert_eq!(changes.insert(key(2), update), None);
    assert_eq!(changes.insert(key(5), update), Some(insert));
    assert_eq!(changes.get(&key(5)), Some(update));
    assert_eq!(changes.get(&key(3)), None);
    assert_eq!(changes.lower_bound(&key(3)), 1);
    assert_eq!(changes.entries[0].0, key(2));
    assert_eq!(update.value(), value(1024, 512, 9));
    changes.remove(&key(9));
    changes.remove(&key(2));
    assert_eq!(changes.len(), 1);
    let taken = changes.take();
    assert_eq!(taken.len(), 1);
    assert_eq!(changes.len(), 0);
}

/// Writes what is pending as chunks of 1024 bytes; returns what is stored of the run.
fn flush(run: &mut IndexRun, sa: &mut SlabAllocator) -> IndexRunPhys {
    let mut delta = run.flush_begin();
    assert!(delta.is_empty());
    let mut step = LogFlush::new(337);
    while step.done < run.log.this.pending_entries.len() {
        run.log.flush_step(&mut step, &mut delta.0, sa, 0, 1024);
    }
    run.log.this.flush_end(&step);
    let mut step = LogFlush::new(337);
    while step.done < run.log.chunk_summary.pending_entries.len() {
        run.log.chunk_summary.flush_step(&mut step, sa, 0, 512);
    }
    run.log.chunk_summary.flush_end(&step);
    run.flush_end(&delta)
}

#[test]
fn run_counts_its_entries() {
    let mut sa = allocator();
    let mut run = IndexRun::open(IndexRunPhys::new(Atime(3), Atime(5)), &vec![], 128);
    run.append(vec![entry(1, 512, 4), entry(3, 1024, 6)]);
    assert_eq!(run.last_key(), Some(key(3)));
    assert_eq!(run.len(), 0);
    let phys = flush(&mut run, &mut sa);
    assert_eq!(run.len(), 2);
    assert_eq!(run.num_bytes(), 1536);
    assert_eq!(run.atime_histogram().histogram, vec![0, 512, 0, 1024]);
    assert_eq!((run.first_ghost_atime(), run.first_live_atime()), (Atime(3), Atime(5)));
    assert_eq!(phys.last_key(), Some(key(3)));
    assert_eq!(phys.log_bytes(), 1536);
    assert_eq!(phys.log_capacity_bytes(sa.access()), 2 << 17);
    assert!(phys.verify_histogram(&vec![entry(1, 512, 4), entry(3, 1024, 6)]));
    assert!(!phys.verify_histogram(&vec![entry(1, 512, 4), entry(3, 512, 6)]));
    assert!(!phys.verify_histogram(&vec![entry(1, 512, 4)]));
    run.update_last_key(key(8));
    assert_eq!(run.last_key(), Some(key(8)));
}

#[test]
fn run_is_trimmed() {
    let mut sa = allocator();
    let mut run = IndexRun::open(IndexRunPhys::new(Atime(3), Atime(5)), &vec![], 128);
    run.append(vec![entry(1, 512, 4), entry(3, 1024, 6)]);
    flush(&mut run, &mut sa);
    let mut obsoleted = AtimeHistogramPhys::new(Atime(3), Atime(5));
    obsoleted.insert(entry(1, 512, 4).value);
    run.trim(key(2), &obsoleted);
    assert_eq!(run.trim_key(), Some(key(2)));
    assert_eq!(run.last_key(), Some(key(3)));
    assert_eq!(run.atime_histogram().histogram, vec![0, 0, 0, 1024]);
    run.progress(Some(key(7)), &AtimeHistogramPhys::new(Atime(3), Atime(5)));
    assert_eq!(run.trim_key(), Some(key(7)));
    assert_eq!(run.last_key(), Some(key(7)));
    run.progress(None, &obsoleted);
    assert_eq!(run.trim_key(), Some(key(7)));
    run.clear(&mut sa);
    assert_eq!(run.last_key(), None);
    assert_eq!(run.log.this.len(), 0);
    assert!(run.atime_histogram().is_empty());
}

#[test]
fn run_finds_its_entries() {
    let mut sa = allocator();
    let mut run = IndexRun::open(IndexRunPhys::new(Atime(0), Atime(0)), &vec![], 128);
    run.take_part(vec![entry(1, 512, 4)], key(2));
    assert_eq!(run.last_key(), Some(key(2)));
    flush(&mut run, &mut sa);
    let mut readonly = ReadOnlyIndexRun::open(IndexRunPhys::new(Atime(0), Atime(0)), &vec![], 128);
    run.take_part(vec![entry(3, 1024, 6), entry(4, 1024, 6)], key(9));
    let phys = flush(&mut run, &mut sa);
    match run.lookup(sa.access(), key(0)) {
        LookupStep::Absent => {}
        _ => panic!("the key is before the first"),
    }
    match run.lookup(sa.access(), key(4)) {
        LookupStep::Read { chunk_id, .. } => {
            assert_eq!(chunk_id, ChunkId(1));
            let chunk = BlockBasedLogChunk {
                id: chunk_id,
                offset: LogOffset(1024),
                entries: vec![entry(3, 1024, 6), entry(4, 1024, 6)],
            };
            assert_eq!(run.lookup_read(key(4), chunk), Some(entry(4, 1024, 6)));
        }
        _ => panic!("the chunk has to be read"),
    }
    match run.lookup(sa.access(), key(5)) {
        LookupStep::Cached(found) => assert_eq!(found, None),
        _ => panic!("the chunk is cached"),
    }
    match readonly.lookup(sa.access(), key(4)) {
        LookupStep::Absent => {}
        _ => panic!("nothing has been added yet"),
    }
    let summary = vec![
        zettacache::block_based_log::summarized::BlockBasedLogChunkSummaryEntry {
            offset: LogOffset(0),
            first_entry: entry(1, 512, 4),
        },
        zettacache::block_based_log::summarized::BlockBasedLogChunkSummaryEntry {
            offset: LogOffset(1024),
            first_entry: entry(3, 1024, 6),
        },
    ];
    readonly = ReadOnlyIndexRun::open(phys, &summary, 128);
    assert_eq!(readonly.last_key(), Some(key(9)));
    match readonly.lookup(sa.access(), key(2)) {
        LookupStep::Read { chunk_id, extent } => {
            assert_eq!((chunk_id, extent.size), (ChunkId(0), 1024))
        }
        _ => panic!("the chunk has to be read"),
    }
}

#[test]
fn start_may_pass_what_is_live() {
    let mut h = AtimeHistogram::new(AtimeHistogramPhys::new(Atime(0), Atime(2)));
    for t in 0..20 {
        h.insert(value(0, 512, t));
    }
    h.reset_first(Atime(7));
    assert_eq!((h.first_ghost(), h.first_live()), (Atime(7), Atime(2)));
    assert_eq!(h.size_at(Atime(7)), 13 * 512);
    h.reset_first_live(Atime(9));
    assert_eq!(h.sum_ghost(), 2 * 512);
    h.reset_first(Atime(20));
    assert_eq!(h.size_at(Atime(20)), 0);
}
