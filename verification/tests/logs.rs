use zettacache::base_types::{Atime, BlockId, DiskId, DiskLocation, Extent};
use zettacache::block_allocator::SlabPhysType;
use zettacache::block_based_log::summarized::{
    search_entries, LookupStep, SummarizedBlockBasedLog, SummarizedBlockBasedLogPhys,
    BlockBasedLogChunkSummaryEntry,
};
use zettacache::block_based_log::{
    BlockBasedLog, BlockBasedLogChunk, BlockBasedLogPhys, ChunkId, ChunkPlacement, ChunkScan,
    LogFlush, LogOffset,
};
use zettacache::index::{IndexEntry, IndexKey, IndexValue};
use zettacache::pool_id::PoolId;
use zettacache::slab_allocator::{
    SlabAllocator, SlabAllocatorBuilder, SlabAllocatorPhys, SlabExtentPhys, SlabId,
};
use zettacache::space_map::{SpaceMap, SpaceMapPhys};

const SLAB: u64 = 1 << 17;

fn extent(offset: u64, size: u64) -> Extent {
    Extent::new(DiskId::new(0), offset, size)
}

fn allocator() -> SlabAllocator {
    let phys = SlabAllocatorPhys {
        slab_size: SLAB,
        capacity: vec![SlabExtentPhys::Present { extent: extent(0, 8 * SLAB) }],
    };
    SlabAllocatorBuilder::new(&phys).build(&vec![], 0)
}

fn entry(block: u64) -> IndexEntry {
    IndexEntry {
        key: IndexKey::new(PoolId(1), BlockId(block)),
        value: IndexValue::new(
            Some(DiskLocation::new(DiskId::new(0), block * 512)),
            1024,
            Atime(7),
        ),
    }
}

/// Writes what is pending, with 512 bytes for each two entries; returns the chunks.
fn flush(
    log: &mut BlockBasedLog<IndexEntry>,
    sa: &mut SlabAllocator,
) -> Vec<(ChunkId, LogOffset, DiskLocation, usize)> {
    let mut flush = LogFlush::new(337);
    let mut written = vec![];
    while flush.done < log.pending_entries.len() {
        let n = log.next_chunk_len(&flush);
        let size = (n as u64).div_ceil(2) * 512;
        match log.flush_step(&mut flush, sa, 0, size) {
            ChunkPlacement::TrySmaller => {}
            ChunkPlacement::Write { id, offset, location } => {
                written.push((id, offset, location, n))
            }
        }
    }
    log.flush_end(&flush);
    written
}

#[test]
fn chunks_follow_each_other() {
    let mut sa = allocator();
    let mut log = BlockBasedLog::open(BlockBasedLogPhys::new());
    assert!(log.is_empty());
    log.append((0..10).map(entry).collect());
    log.push(entry(10));
    assert_eq!(log.pending_len(), 11);
    let first = flush(&mut log, &mut sa);
    assert_eq!(first.len(), 1);
    assert_eq!((first[0].0, first[0].1, first[0].3), (ChunkId(0), LogOffset(0), 11));
    log.push(entry(11));
    let second = flush(&mut log, &mut sa);
    assert_eq!((second[0].0, second[0].1), (ChunkId(1), LogOffset(3072)));
    assert_eq!(second[0].2 - first[0].2, 3072);
    assert_eq!(log.len(), 12);
    assert_eq!(log.num_bytes(), 3584);
    assert_eq!(log.phys.slabs.len(), 1);
    assert_eq!(log.phys.capacity_bytes(sa.access()), SLAB);
    let slab = sa.slab_id_to_extent(log.phys.slabs[0]);
    assert_eq!(log.phys.allocated_extents(sa.access()), vec![(LogOffset(0), slab)]);
    assert_eq!(
        log.phys.written_extents(sa.access()),
        vec![(LogOffset(0), slab.trim_end(3584))]
    );
    assert_eq!(log.phys.next_extent_to_write(sa.access()), Some(slab.trim_start(3584)));
    assert_eq!(
        log.phys.offset_to_location(sa.access(), LogOffset(3072)),
        second[0].2
    );
}

#[test]
fn chunks_are_as_large_as_allowed() {
    let mut sa = allocator();
    let mut log = BlockBasedLog::open(BlockBasedLogPhys::new());
    log.append((0..10).map(entry).collect());
    let mut flush = LogFlush::new(4);
    let mut sizes = vec![];
    while flush.done < log.pending_entries.len() {
        sizes.push(log.next_chunk_len(&flush));
        log.flush_step(&mut flush, &mut sa, 0, 512);
    }
    assert_eq!(sizes, vec![4, 4, 2]);
    log.flush_end(&flush);
    assert_eq!(log.phys.next_chunk, ChunkId(3));
    assert_eq!(log.len(), 10);
}

#[test]
fn log_with_pending_entries_is_not_read() {
    let mut sa = allocator();
    let mut log = BlockBasedLog::open(BlockBasedLogPhys::new());
    assert_eq!(log.iter(sa.access()), Some(vec![]));
    log.append((0..10).map(entry).collect());
    assert_eq!(log.iter(sa.access()), None);
    flush(&mut log, &mut sa);
    let slab = sa.slab_id_to_extent(log.phys.slabs[0]);
    assert_eq!(log.iter(sa.access()), Some(vec![(LogOffset(0), slab.trim_end(2560))]));
    log.push(entry(10));
    assert_eq!(log.iter(sa.access()), None);
}

#[test]
fn chunk_stays_in_one_slab() {
    let mut sa = allocator();
    let mut log = BlockBasedLog::open(BlockBasedLogPhys::new());
    log.append((0..600).map(entry).collect());
    let written = flush(&mut log, &mut sa);
    for (_, offset, location, n) in &written {
        let size = (*n as u64).div_ceil(2) * 512;
        assert_eq!(offset.0 / SLAB, (offset.0 + size - 1) / SLAB);
        let slab = sa.slab_id_to_extent(log.phys.slabs[(offset.0 / SLAB) as usize]);
        assert_eq!(*location - slab.location, offset.0 % SLAB);
    }
    assert_eq!(written.iter().map(|w| w.3).sum::<usize>(), 600);
    assert_eq!(log.phys.slabs.len(), 2);
    assert_eq!(written[0].3, 337);
    // a chunk that does not fit is cut in half until it does
    assert_eq!(written[1].3, (600 - 337) / 2);
}

#[test]
fn cleared_log_gives_its_slabs_back() {
    let mut sa = allocator();
    let mut log = BlockBasedLog::open(BlockBasedLogPhys::new());
    log.append((0..300).map(entry).collect());
    flush(&mut log, &mut sa);
    let used = log.phys.slabs.len() as u64;
    let allocated = 8 - sa.allocatable.len() as u64;
    assert_eq!(used, allocated);
    log.clear(&mut sa);
    assert_eq!(log.len(), 0);
    assert_eq!(log.num_bytes(), 0);
    assert_eq!(sa.freeing.len() as u64, used);
    sa.release_frees();
    assert_eq!(sa.allocatable.len(), 8);
}

#[test]
fn reopened_log_claims_its_slabs() {
    let mut sa = allocator();
    let mut log = BlockBasedLog::open(BlockBasedLogPhys::new());
    log.append((0..20).map(entry).collect());
    flush(&mut log, &mut sa);
    let phys = log.phys.copy();
    let mut builder = SlabAllocatorBuilder::new(&sa.get_phys());
    phys.claim(&mut builder);
    let sa = builder.build(&vec![], 0);
    assert_eq!(sa.allocatable.len(), 7);
    assert!(!sa.allocatable.contains(&phys.slabs[0]));
    let log = BlockBasedLog::open(phys);
    assert_eq!(log.len(), 20);
    assert_eq!(log.pending_len(), 0);
}

#[test]
fn scan_stops_at_the_end() {
    let mut scan = ChunkScan::new(ChunkId(5), 2048);
    assert_eq!(scan.next(), Some(0));
    scan.advance(ChunkId(3), 512);
    assert_eq!(scan.next(), Some(512));
    scan.advance(ChunkId(4), 1024);
    assert_eq!(scan.next(), Some(1536));
    scan.advance(ChunkId(5), 512);
    assert_eq!(scan.next(), None);
}

#[test]
fn scan_stops_behind_the_last_chunk() {
    let mut scan = ChunkScan::new(ChunkId(4), 1 << 20);
    scan.advance(ChunkId(3), 512);
    assert_eq!(scan.next(), Some(512));
    scan.advance(ChunkId(4), 512);
    assert_eq!(scan.next(), None);
}

#[test]
fn entries_are_searched_by_key() {
    let entries: Vec<IndexEntry> = (0..50).map(|i| entry(2 * i)).collect();
    for i in 0..50 {
        assert_eq!(search_entries(&entries, &entry(2 * i).key), Some(entry(2 * i)));
        assert_eq!(search_entries(&entries, &entry(2 * i + 1).key), None);
    }
    assert_eq!(search_entries::<IndexEntry>(&vec![], &entry(0).key), None);
}

struct Stored {
    sa: SlabAllocator,
    log: SummarizedBlockBasedLog<IndexEntry>,
    chunks: Vec<Vec<IndexEntry>>,
}

/// Entries with even blocks, in chunks of 10.
fn stored(n: u64) -> Stored {
    let mut sa = allocator();
    let mut log: SummarizedBlockBasedLog<IndexEntry> =
        SummarizedBlockBasedLog::open(SummarizedBlockBasedLogPhys::new(), &vec![], 128);
    let mut chunks = vec![];
    for c in 0..n {
        let list: Vec<IndexEntry> = (10 * c..10 * c + 10).map(|i| entry(2 * i)).collect();
        log.append(list.clone());
        chunks.push(list);
        let mut delta = log.flush_begin();
        let mut flush = LogFlush::new(337);
        while flush.done < log.this.pending_entries.len() {
            log.flush_step(&mut flush, &mut delta, &mut sa, 0, 1024);
        }
        log.this.flush_end(&flush);
        let mut summary = LogFlush::new(337);
        while summary.done < log.chunk_summary.pending_entries.len() {
            log.chunk_summary.flush_step(&mut summary, &mut sa, 0, 512);
        }
        log.chunk_summary.flush_end(&summary);
        log.flush_end(&delta);
    }
    Stored { sa, log, chunks }
}

#[test]
fn summarized_log_finds_what_was_written() {
    let mut s = stored(5);
    assert_eq!(s.log.len(), 50);
    assert!(!s.log.is_empty());
    for i in 0..50u64 {
        for block in [2 * i, 2 * i + 1] {
            let key = entry(block).key;
            let found = match s.log.readonly.lookup_by_key(s.sa.access(), &key) {
                LookupStep::Absent => None,
                LookupStep::Cached(found) => found,
                LookupStep::Read { chunk_id, extent } => {
                    assert_eq!(extent.size, 1024);
                    let chunk = BlockBasedLogChunk {
                        id: chunk_id,
                        offset: LogOffset(chunk_id.0 * 1024),
                        entries: s.chunks[chunk_id.0 as usize].clone(),
                    };
                    s.log.readonly.lookup_by_key_read(&key, chunk)
                }
            };
            assert_eq!(found, if block % 2 == 0 { Some(entry(block)) } else { None });
        }
    }
}

#[test]
fn chunk_is_read_once() {
    let mut s = stored(3);
    let key = entry(20).key;
    match s.log.readonly.lookup_by_key(s.sa.access(), &key) {
        LookupStep::Read { chunk_id, .. } => {
            assert_eq!(chunk_id, ChunkId(1));
            let chunk = BlockBasedLogChunk {
                id: chunk_id,
                offset: LogOffset(1024),
                entries: s.chunks[1].clone(),
            };
            assert_eq!(s.log.readonly.lookup_by_key_read(&key, chunk), Some(entry(20)));
        }
        _ => panic!("nothing is cached yet"),
    }
    match s.log.readonly.lookup_by_key(s.sa.access(), &entry(22).key) {
        LookupStep::Cached(found) => assert_eq!(found, Some(entry(22))),
        _ => panic!("the chunk is cached"),
    }
    match s.log.readonly.lookup_by_key(s.sa.access(), &entry(40).key) {
        LookupStep::Read { chunk_id, .. } => assert_eq!(chunk_id, ChunkId(2)),
        _ => panic!("the chunk is not cached"),
    }
}

#[test]
fn empty_summarized_log_has_no_keys() {
    let mut s = stored(0);
    assert!(s.log.is_empty());
    match s.log.readonly.lookup_by_key(s.sa.access(), &entry(1).key) {
        LookupStep::Absent => {}
        _ => panic!("there is nothing"),
    }
    assert_eq!(s.log.readonly.lookup_chunk_by_key(&entry(1).key), None);
}

#[test]
fn summarized_log_is_reopened_from_its_summary() {
    let s = stored(3);
    let summary: Vec<BlockBasedLogChunkSummaryEntry<IndexEntry>> = (0..3u64)
        .map(|i| BlockBasedLogChunkSummaryEntry {
            offset: LogOffset(i * 1024),
            first_entry: entry(20 * i),
        })
        .collect();
    let log = SummarizedBlockBasedLog::open(s.log.get_phys(), &summary, 128);
    assert_eq!(log.len(), 30);
    assert_eq!(log.readonly.lookup_chunk_by_key(&entry(39).key), Some(ChunkId(1)));
    assert_eq!(log.readonly.lookup_chunk_by_key(&entry(40).key), Some(ChunkId(2)));
    assert_eq!(log.num_bytes(), s.log.num_bytes());
    let extent = log.readonly.chunk_extent(s.sa.access(), ChunkId(2));
    assert_eq!(extent.size, 1024);
}

#[test]
fn space_map_counts_entries() {
    let mut map = SpaceMap::open_new();
    map.alloc_extent(extent(0, 512));
    map.alloc_extent(extent(1024, 0));
    map.free(extent(512, 512));
    map.free(extent(1024, 0));
    map.mark_slab_info(SlabId(0), SlabPhysType::Free);
    assert_eq!(map.total_entries(), 3);
    assert_eq!(map.alloc_entries(), 1);
    assert_eq!(map.pending_len(), 3);
    assert_eq!(map.bytes(), 0);
    assert_eq!(SpaceMapPhys::new().total_entries(), 0);
    let mut sa = allocator();
    let mut flush = LogFlush::new(337);
    match map.flush_step(&mut flush, &mut sa, 0, 512) {
        ChunkPlacement::Write { id, .. } => assert_eq!(id, ChunkId(0)),
        ChunkPlacement::TrySmaller => panic!("the chunk fits"),
    }
    let phys = map.flush_end(&flush);
    assert_eq!(phys.bytes(), 512);
    assert_eq!(phys.total_entries(), 3);
    assert_eq!(phys.alloc_entries, 1);
    map.clear(&mut sa);
    assert_eq!(map.total_entries(), 0);
    assert_eq!(map.bytes(), 0);
}
