use zettacache::base_types::{DiskId, DiskLocation, Extent};
use zettacache::block_allocator::bitmap_slab::BitmapSlab;
use zettacache::block_allocator::buckets::{
    SlabAllocationBuckets, SlabAllocationBucketsPhys, SlabBucket, SlabBucketEntry, SlabBucketSize,
};
use zettacache::block_allocator::builder::BlockAllocatorBuilder;
use zettacache::block_allocator::extent_slab::ExtentSlab;
use zettacache::block_allocator::flush::BlockAllocatorPhys;
use zettacache::block_allocator::rebalance::{join_moves, RemapTable};
use zettacache::block_allocator::slab::Slab;
use zettacache::block_allocator::slabs::Slabs;
use zettacache::block_allocator::zcdb::{
    count_bars, slabs_of_device, slabs_report, AllocationBucketInfo, AllocationBucketStatistics, SlabKind,
    SlabSummary,
};
use zettacache::block_allocator::{BlockAllocator, SlabPhysType};
use zettacache::block_based_log::{BlockBasedLogPhys, ChunkId, LogFlush, LogOffset};
use zettacache::merge::RebalanceState;
use zettacache::slab_allocator::{
    SlabAllocator, SlabAllocatorBuilder, SlabAllocatorPhys, SlabExtentPhys, SlabId,
};
use zettacache::space_map::{SpaceMap, SpaceMapEntry};

const SLAB: u64 = 1 << 20;

fn extent(disk: usize, offset: u64, size: u64) -> Extent {
    Extent::new(DiskId::new(disk), offset, size)
}

fn overlap(a: &Extent, b: &Extent) -> bool {
    a.location.disk() == b.location.disk()
        && a.location.offset() < b.location.offset() + b.size
        && b.location.offset() < a.location.offset() + a.size
}

fn disks() -> Vec<DiskId> {
    vec![DiskId::new(0), DiskId::new(1)]
}

fn open() -> (BlockAllocator, SlabAllocator) {
    let phys = SlabAllocatorPhys {
        slab_size: SLAB,
        capacity: vec![
            SlabExtentPhys::Present { extent: extent(0, 4096, 64 * SLAB) },
            SlabExtentPhys::Present { extent: extent(1, 4096, 64 * SLAB) },
        ],
    };
    let builder = SlabAllocatorBuilder::new(&phys);
    let blocks =
        BlockAllocatorBuilder::new(builder.access(), BlockAllocatorPhys::new(512), &vec![], &vec![]);
    let sa = builder.build(&vec![], 0);
    let allocator = blocks.build(&sa, &disks());
    (allocator, sa)
}

/// Takes a checkpoint; returns what is stored, and what was added to the two space maps.
fn checkpoint(
    allocator: &mut BlockAllocator,
    sa: &mut SlabAllocator,
) -> (BlockAllocatorPhys, Vec<SpaceMapEntry>, Vec<SpaceMapEntry>) {
    allocator.flush_begin(sa, 1000, 0, 0);
    let first = allocator.spacemap.log.pending_entries.clone();
    let second = allocator.spacemap_next.log.pending_entries.clone();
    let mut flush = LogFlush::new(337);
    while flush.done < allocator.spacemap.log.pending_entries.len() {
        allocator.spacemap_step(&mut flush, sa, 0, 4096);
    }
    let mut flush_next = LogFlush::new(337);
    while flush_next.done < allocator.spacemap_next.log.pending_entries.len() {
        allocator.spacemap_next_step(&mut flush_next, sa, 0, 4096);
    }
    let phys = allocator.flush_end(sa, &flush, &flush_next, false);
    sa.release_frees();
    (phys, first, second)
}

#[test]
fn blocks_do_not_overlap() {
    let (mut allocator, mut sa) = open();
    let mut blocks: Vec<Extent> = vec![];
    for i in 0..200u32 {
        let size = (i % 50 + 1) * 512;
        let block = allocator.allocate(&mut sa, size).unwrap();
        assert!(block.size >= size as u64);
        assert!(blocks.iter().all(|b| !overlap(b, &block)));
        blocks.push(block);
    }
}

#[test]
fn small_blocks_take_a_slot() {
    let (mut allocator, mut sa) = open();
    let block = allocator.allocate(&mut sa, 1536).unwrap();
    assert_eq!(block.size, 1536);
    let other = allocator.allocate(&mut sa, 1536).unwrap();
    assert_eq!(other.location - block.location, 1536);
    let large = allocator.allocate(&mut sa, 100 * 1024).unwrap();
    assert_eq!(large.size, 100 * 1024);
    assert_eq!(sa.extent_to_slab_id(block), sa.extent_to_slab_id(other));
    assert_ne!(sa.extent_to_slab_id(block), sa.extent_to_slab_id(large));
}

#[test]
fn full_cache_has_no_block() {
    let (mut allocator, mut sa) = open();
    let mut n = 0;
    while allocator.allocate(&mut sa, SLAB as u32).is_some() {
        n += 1;
    }
    assert_eq!(n, 128);
    assert_eq!(allocator.free_bytes(&sa), 0);
    assert!(allocator.allocate(&mut sa, 512).is_none());
}

#[test]
fn freed_block_comes_back_after_a_checkpoint() {
    let (mut allocator, mut sa) = open();
    assert_eq!(allocator.free_bytes(&sa), 0);
    let block = allocator.allocate(&mut sa, 512).unwrap();
    assert_eq!(allocator.free_bytes(&sa), SLAB - 512);
    checkpoint(&mut allocator, &mut sa);
    allocator.free(&sa, block);
    let other = allocator.allocate(&mut sa, 512).unwrap();
    assert_ne!(other, block);
    checkpoint(&mut allocator, &mut sa);
    let again = allocator.allocate(&mut sa, 512).unwrap();
    assert_eq!(again, block);
}

#[test]
fn many_blocks_are_freed() {
    let (mut allocator, mut sa) = open();
    let mut blocks: Vec<Extent> = vec![];
    for i in 0..60u32 {
        blocks.push(allocator.allocate(&mut sa, (i % 40 + 1) * 512).unwrap());
    }
    let kept = blocks.split_off(30);
    checkpoint(&mut allocator, &mut sa);
    let free = allocator.free_bytes(&sa);
    allocator.free_blocks(&sa, &blocks);
    // nothing is gained before the next checkpoint
    assert_eq!(allocator.free_bytes(&sa), free);
    let mut dirty: Vec<SlabId> = vec![];
    for block in &blocks {
        let id = sa.extent_to_slab_id(*block);
        if !dirty.contains(&id) {
            dirty.push(id);
        }
    }
    assert_eq!(allocator.dirty_slabs, dirty);
    let other = allocator.allocate(&mut sa, 512).unwrap();
    assert!(!blocks.iter().chain(&kept).any(|block| overlap(block, &other)));
    checkpoint(&mut allocator, &mut sa);
    let freed: u64 = blocks.iter().map(|block| block.size).sum();
    assert_eq!(allocator.free_bytes(&sa), free - 512 + freed);
}

#[test]
fn reopened_allocator_has_the_same_blocks() {
    let (mut allocator, mut sa) = open();
    let mut blocks: Vec<Extent> = vec![];
    for i in 0..100u32 {
        blocks.push(allocator.allocate(&mut sa, (i % 40 + 1) * 512).unwrap());
    }
    let gone = blocks.split_off(90);
    for block in gone {
        allocator.free(&sa, block);
    }
    let (phys, first, second) = checkpoint(&mut allocator, &mut sa);
    let free = allocator.free_bytes(&sa);
    assert_eq!(phys.spacemap_bytes() + phys.spacemap_next_bytes() > 0, true);

    let mut builder = SlabAllocatorBuilder::new(&sa.get_phys());
    phys.claim(&mut builder);
    let reopened = BlockAllocatorBuilder::new(builder.access(), phys, &first, &second);
    reopened.claim(&mut builder);
    let mut sa = builder.build(&vec![], 0);
    let mut allocator = reopened.build(&sa, &disks());
    assert_eq!(allocator.free_bytes(&sa), free);
    for i in 0..100u32 {
        let block = allocator.allocate(&mut sa, (i % 40 + 1) * 512).unwrap();
        assert!(blocks.iter().all(|b| !overlap(b, &block)));
    }
    for block in blocks {
        allocator.free(&sa, block);
    }
}

#[test]
fn removed_disk_is_not_allocated_from() {
    let (mut allocator, mut sa) = open();
    for _ in 0..8 {
        allocator.allocate(&mut sa, SLAB as u32 / 2).unwrap();
    }
    let disk = DiskId::new(0);
    sa.mark_noalloc_disk(disk);
    allocator.mark_noalloc_disk(&sa, disk);
    for _ in 0..8 {
        let block = allocator.allocate(&mut sa, 512).unwrap();
        assert_eq!(block.location.disk(), DiskId::new(1));
    }
    let allocated = allocator.disk_allocated_bytes(&sa, disk);
    assert_eq!(allocated % (SLAB / 2), 0);
    assert_eq!(allocator.disk_is_pending_remap(disk), allocated > 0);
    assert!(allocator.disk_space_to_evacuate(&sa, disk) >= allocated);
    assert_eq!(allocator.disk_to_remap(&sa), if allocated > 0 { Some(disk) } else { None });
    assert_eq!(allocator.rebalance_needed(&sa, 0), allocated > 0);
    assert_eq!(allocator.size(&sa), 64 * SLAB);
    assert_eq!(allocator.removing_bytes(&sa), allocated);
    allocator.unmark_noalloc_disk(&sa, disk);
    sa.unmark_noalloc_disk(disk);
    assert_eq!(allocator.removing_bytes(&sa), 0);
}

#[test]
fn space_is_in_empty_slabs_and_in_others() {
    let (mut allocator, mut sa) = open();
    assert_eq!(allocator.size(&sa), 128 * SLAB);
    assert_eq!(allocator.available(&sa), 128 * SLAB);
    allocator.allocate(&mut sa, 512).unwrap();
    assert_eq!(allocator.available(&sa), 128 * SLAB - 512);
    // 127 slabs are empty
    assert!(!allocator.rebalance_needed(&sa, 127));
    assert!(allocator.rebalance_needed(&sa, 128));
    assert_eq!(allocator.disk_to_remap(&sa), None);
    sa.set_reservation(0, 27);
    assert_eq!(allocator.available(&sa), 101 * SLAB - 512);
}

#[test]
fn disk_is_evacuated() {
    let (mut allocator, mut sa) = open();
    let mut blocks: Vec<Extent> = vec![];
    for _ in 0..6 {
        blocks.push(allocator.allocate(&mut sa, SLAB as u32 / 4).unwrap());
    }
    checkpoint(&mut allocator, &mut sa);
    let disk = blocks[0].location.disk();
    sa.mark_noalloc_disk(disk);
    allocator.mark_noalloc_disk(&sa, disk);
    let table = allocator.rebalance_init(&mut sa, 0, Some(disk)).unwrap();
    for block in blocks.iter().filter(|b| b.location.disk() == disk) {
        let (old, new) = table.entries.iter().rfind(|e| e.0.location <= block.location).unwrap();
        assert!(old.contains(block));
        let new = new.unwrap();
        assert_ne!(new.disk(), disk);
    }
    checkpoint(&mut allocator, &mut sa);
    allocator.rebalance_fini(&mut sa);
    checkpoint(&mut allocator, &mut sa);
    assert!(sa.disk_is_fully_evacuated(disk));
    assert!(!allocator.disk_is_pending_remap(disk));
    assert_eq!(allocator.disk_allocated_bytes(&sa, disk), 0);
}

/// What a space map has on disk.
fn stored(map: &SpaceMap) -> (Vec<SlabId>, ChunkId, LogOffset, u64) {
    let log = &map.log.phys;
    (log.slabs.clone(), log.next_chunk, log.next_chunk_offset, log.num_entries)
}

fn pending_allocs(map: &SpaceMap) -> u64 {
    let entries = map.log.pending_entries.iter();
    entries.filter(|e| matches!(e, SpaceMapEntry::Alloc(_))).count() as u64
}

#[test]
fn flush_only_adds_to_the_space_maps() {
    let (mut allocator, mut sa) = open();
    for size in [512, 1024, 2048] {
        allocator.allocate(&mut sa, size).unwrap();
    }
    checkpoint(&mut allocator, &mut sa);
    for size in [512, 1024, 4096] {
        allocator.allocate(&mut sa, size).unwrap();
    }
    let first = stored(&allocator.spacemap);
    let second = stored(&allocator.spacemap_next);
    assert!(first.3 > 0);
    assert_eq!(second, (vec![], ChunkId(0), LogOffset(0), 0));
    let before = allocator.spacemap.alloc_entries;
    // one slab is condensed, and there are more
    allocator.flush_begin(&mut sa, 1, 0, 0);
    assert_eq!(stored(&allocator.spacemap), first);
    assert_eq!(stored(&allocator.spacemap_next), second);
    // the slab that is condensed is one of four, three of which have a new block
    let added = pending_allocs(&allocator.spacemap);
    assert!(added == 2 || added == 3);
    assert_eq!(allocator.spacemap.alloc_entries, before + added);
    let next = pending_allocs(&allocator.spacemap_next);
    assert!(next > 0);
    assert_eq!(allocator.spacemap_next.alloc_entries, next);
    assert!(allocator.slabs.ids().into_iter().all(|id| !allocator.slabs.get(id).is_dirty));
}

#[test]
fn space_maps_keep_their_logs_when_slabs_are_released() {
    let (mut allocator, mut sa) = open();
    let block = allocator.allocate(&mut sa, SLAB as u32 / 4).unwrap();
    checkpoint(&mut allocator, &mut sa);
    let disk = block.location.disk();
    sa.mark_noalloc_disk(disk);
    allocator.mark_noalloc_disk(&sa, disk);
    allocator.rebalance_init(&mut sa, 0, Some(disk)).unwrap();
    checkpoint(&mut allocator, &mut sa);
    let first = stored(&allocator.spacemap);
    let second = stored(&allocator.spacemap_next);
    let counted = allocator.spacemap.alloc_entries + allocator.spacemap_next.alloc_entries;
    let marked = sa.removing_disks();
    allocator.rebalance_fini(&mut sa);
    assert_eq!(stored(&allocator.spacemap), first);
    assert_eq!(stored(&allocator.spacemap_next), second);
    assert_eq!(
        allocator.spacemap.alloc_entries + allocator.spacemap_next.alloc_entries,
        counted
    );
    let entries = allocator.spacemap.log.pending_entries.iter();
    let infos: Vec<_> = entries.chain(&allocator.spacemap_next.log.pending_entries).collect();
    assert_eq!(infos.len(), 1);
    assert!(matches!(infos[0], SpaceMapEntry::SlabInfo(_, SlabPhysType::Free)));
    assert_eq!(sa.removing_disks(), marked);
}

#[test]
fn slabs_are_opened_from_the_space_maps() {
    let (mut allocator, mut sa) = open();
    let block = allocator.allocate(&mut sa, 512).unwrap();
    let gone = allocator.allocate(&mut sa, 512).unwrap();
    allocator.allocate(&mut sa, 100 * 1024).unwrap();
    allocator.free(&sa, gone);
    let (_, first, second) = checkpoint(&mut allocator, &mut sa);
    let mut builder = SlabAllocatorBuilder::new(&sa.get_phys());
    let slabs = Slabs::open(&mut builder, &first, &second);
    assert_eq!(slabs.len(), allocator.slabs.len());
    let id = sa.extent_to_slab_id(block);
    assert!(slabs.contains(id));
    assert!(!slabs.get(id).is_dirty);
    assert_eq!(slabs.get(id).free_space(), allocator.slabs.get(id).free_space());
    assert_eq!(slabs.get(id).free_space(), SLAB - 512);
    // they have been claimed
    let sa = builder.build(&vec![], 0);
    assert_eq!(sa.free_slabs(), 128 - slabs.len() as u64);
    assert!(!sa.allocatable.contains(&id));
}

#[test]
fn slabs_are_chosen_when_few_are_free() {
    let (mut allocator, mut sa) = open();
    let mut blocks: Vec<Extent> = vec![];
    for _ in 0..3 * 2048 {
        blocks.push(allocator.allocate(&mut sa, 512).unwrap());
    }
    checkpoint(&mut allocator, &mut sa);
    assert_eq!(allocator.slabs_to_rebalance(&sa, 128), vec![]);
    for (i, block) in blocks.iter().enumerate() {
        if i % 10 != 0 {
            allocator.free(&sa, *block);
        }
    }
    checkpoint(&mut allocator, &mut sa);
    assert_eq!(allocator.slabs_to_rebalance(&sa, 1), vec![]);
    let chosen = allocator.slabs_to_rebalance(&sa, 128);
    assert_eq!(chosen.len(), 2);
    assert!(allocator.rebalance_init(&mut sa, 0, None).is_none());
    let table = allocator.rebalance_init(&mut sa, 128, None).unwrap();
    assert!(table.entries.iter().all(|(old, new)| {
        chosen.contains(&sa.extent_to_slab_id(*old)) && new.is_some()
    }));
}

#[test]
fn new_disk_has_no_blocks() {
    let (mut allocator, mut sa) = open();
    sa.extend(extent(2, 0, 2 * SLAB));
    allocator.add_disk(&sa, DiskId::new(2));
    assert_eq!(allocator.disk_allocated_bytes(&sa, DiskId::new(2)), 0);
    assert_eq!(allocator.allocatable_bytes(&sa), 0);
    allocator.remove_disk(&sa, DiskId::new(2));
}

#[test]
fn default_buckets_ascend() {
    let buckets = SlabAllocationBucketsPhys::default().buckets;
    assert_eq!(buckets.len(), 35);
    assert_eq!(buckets[0], (SlabBucketSize(512), false));
    assert_eq!(buckets[30], (SlabBucketSize(31 * 512), false));
    assert_eq!(buckets[31], (SlabBucketSize(64 * 1024), true));
    assert_eq!(buckets[34], (SlabBucketSize(32 * 1024 * 1024), true));
    // whole sectors of 4096 bytes, each size once
    let buckets = BlockAllocatorPhys::new(4096).slab_buckets.buckets;
    assert_eq!(buckets[0], (SlabBucketSize(4096), false));
    assert_eq!(buckets[3], (SlabBucketSize(16384), false));
    assert_eq!(buckets.len(), 8);
}

#[test]
fn smallest_bucket_serves_a_request() {
    let phys = SlabAllocationBucketsPhys::default();
    let buckets = SlabAllocationBuckets::new(&phys, &vec![]);
    assert_eq!(buckets.get_bucket_size_for_allocation_size(1), SlabBucketSize(512));
    assert_eq!(buckets.get_bucket_size_for_allocation_size(512), SlabBucketSize(512));
    assert_eq!(buckets.get_bucket_size_for_allocation_size(513), SlabBucketSize(1024));
    assert_eq!(buckets.get_bucket_size_for_allocation_size(16384), SlabBucketSize(65536));
    assert_eq!(buckets.find(65537), 32);
}

fn bucket_entry(allocated_space: u64, id: u64) -> SlabBucketEntry {
    SlabBucketEntry { allocated_space, slab_id: SlabId(id) }
}

#[test]
fn bucket_is_walked_once() {
    let mut bucket =
        SlabBucket::new(false, &vec![bucket_entry(30, 1), bucket_entry(10, 2), bucket_entry(20, 3)]);
    assert_eq!(bucket.get_current(), Some(SlabId(2)));
    assert_eq!(bucket.advance(), Some(SlabId(3)));
    assert_eq!(bucket.advance(), Some(SlabId(1)));
    assert_eq!(bucket.advance(), None);
    assert_eq!(SlabBucket::new(true, &vec![]).get_current(), None);
    bucket.remove(SlabId(3));
    assert_eq!(bucket.by_freeness.len(), 2);
    bucket.insert(bucket_entry(5, 9));
    assert_eq!(bucket.by_freeness[0], bucket_entry(5, 9));
}

#[test]
fn bitmap_slab_hands_out_slots() {
    let mut slab = BitmapSlab::new(extent(0, 0, 4096 + 512), 1024);
    assert_eq!(slab.capacity_bytes(), 4096);
    assert_eq!(slab.max_size(), 1024);
    assert_eq!(slab.slot_to_location(3), DiskLocation::new(DiskId::new(0), 3072));
    assert_eq!(slab.allocate(512), Some(extent(0, 0, 1024)));
    for i in 1..4 {
        assert_eq!(slab.allocate(1024), Some(extent(0, i * 1024, 1024)));
    }
    assert_eq!(slab.allocate(1024), None);
    slab.free(extent(0, 1024, 1024));
    assert_eq!(slab.freeing_space(), 1024);
    assert_eq!(slab.allocate(1024), None);
    let mut map = SpaceMap::open_new();
    slab.flush_to_spacemap(&mut map);
    assert_eq!(
        map.log.pending_entries,
        vec![
            SpaceMapEntry::Alloc(extent(0, 0, 4096)),
            SpaceMapEntry::Free(extent(0, 1024, 1024)),
        ]
    );
    assert_eq!(slab.allocated_space(), 3072);
    assert_eq!(slab.free_space(), 1024);
    assert_eq!(slab.num_segments(), 2);
    assert_eq!(slab.allocated_extents(), vec![extent(0, 0, 1024), extent(0, 2048, 2048)]);
    assert_eq!(slab.allocate(1024), Some(extent(0, 1024, 1024)));
}

#[test]
fn condensed_bitmap_slab_is_replayed() {
    let mut slab = BitmapSlab::new(extent(0, 0, 8192), 1024);
    for _ in 0..6 {
        slab.allocate(1024);
    }
    slab.free(extent(0, 2048, 1024));
    let mut map = SpaceMap::open_new();
    slab.flush_to_spacemap(&mut map);
    let mut condensed = SpaceMap::open_new();
    slab.condense_to_spacemap(&mut condensed);
    for entries in [&map.log.pending_entries, &condensed.log.pending_entries] {
        let mut replayed = BitmapSlab::new(extent(0, 0, 8192), 1024);
        for entry in entries {
            match entry {
                SpaceMapEntry::Alloc(e) => replayed.import_alloc(*e),
                SpaceMapEntry::Free(e) => replayed.import_free(*e),
                SpaceMapEntry::SlabInfo(..) => panic!("no such entry"),
            }
        }
        assert_eq!(replayed.allocated_extents(), slab.allocated_extents());
    }
}

#[test]
fn extent_slab_fits_first() {
    let mut slab = ExtentSlab::new(extent(0, 8192, 65536), 16384);
    assert_eq!(slab.max_size(), 16384);
    assert_eq!(slab.allocate(4096), Some(extent(0, 8192, 4096)));
    assert_eq!(slab.allocate(8192), Some(extent(0, 12288, 8192)));
    slab.free(extent(0, 8192, 4096));
    assert_eq!(slab.allocate(4096), Some(extent(0, 20480, 4096)));
    let mut map = SpaceMap::open_new();
    slab.flush_to_spacemap(&mut map);
    assert_eq!(
        map.log.pending_entries,
        vec![
            SpaceMapEntry::Alloc(extent(0, 8192, 16384)),
            SpaceMapEntry::Free(extent(0, 8192, 4096)),
        ]
    );
    assert_eq!(slab.allocated_space(), 12288);
    assert_eq!(slab.free_space(), 65536 - 12288);
    assert_eq!(slab.capacity_bytes(), 65536);
    assert_eq!(slab.allocated_extents(), vec![extent(0, 12288, 12288)]);
    // the search goes on behind the last allocation
    assert_eq!(slab.allocate(4096), Some(extent(0, 24576, 4096)));
}

#[test]
fn extent_slab_starts_over_at_its_end() {
    let mut slab = ExtentSlab::new(extent(0, 0, 16384), 16384);
    assert!(slab.allocate(8192).is_some());
    assert!(slab.allocate(8192).is_some());
    assert_eq!(slab.allocate(512), None);
    slab.free(extent(0, 0, 4096));
    let mut map = SpaceMap::open_new();
    slab.flush_to_spacemap(&mut map);
    assert_eq!(slab.num_segments(), 1);
    assert_eq!(slab.allocate(8192), None);
    assert_eq!(slab.allocate(2048), Some(extent(0, 0, 2048)));
}

#[test]
fn slabs_record_their_kind() {
    let mut map = SpaceMap::open_new();
    let slab = Slab::new_bitmap(SlabId(4), extent(0, 0, 8192), 512);
    slab.mark_slab_info(&mut map);
    let slab = Slab::new_extent_based(SlabId(5), extent(0, 8192, 8192), 4096);
    slab.mark_slab_info(&mut map);
    let slab = Slab::new_evacuating(SlabId(6), extent(0, 16384, 8192));
    slab.mark_slab_info(&mut map);
    assert_eq!(
        map.log.pending_entries,
        vec![
            SpaceMapEntry::SlabInfo(SlabId(4), SlabPhysType::BitmapBased { block_size: 512 }),
            SpaceMapEntry::SlabInfo(SlabId(5), SlabPhysType::ExtentBased { max_size: 4096 }),
            SpaceMapEntry::SlabInfo(SlabId(6), SlabPhysType::Evacuating),
        ]
    );
    let mut slab = Slab::new_bitmap(SlabId(4), extent(1, 0, 8192), 1024);
    slab.allocate(1024);
    assert_eq!(slab.to_slab_bucket_entry(), bucket_entry(1024, 4));
    assert_eq!(slab.blocks(), vec![extent(1, 0, 1024)]);
    let summary = slab.summary();
    assert_eq!((summary.id, summary.disk, summary.kind), (SlabId(4), DiskId::new(1), SlabKind::BitmapBased));
    assert_eq!((summary.max_size, summary.free_space), (1024, 7168));
}

#[test]
fn moves_of_neighbours_are_joined() {
    let moves = vec![
        (extent(0, 0, 512), Some(extent(1, 4096, 512))),
        (extent(0, 512, 512), Some(extent(1, 4608, 512))),
        (extent(0, 1024, 512), Some(extent(1, 8192, 512))),
        (extent(0, 1536, 512), None),
        (extent(0, 2048, 512), None),
        (extent(0, 4096, 512), None),
    ];
    assert_eq!(
        join_moves(moves),
        vec![
            (extent(0, 0, 1024), Some(extent(1, 4096, 1024))),
            (extent(0, 1024, 512), Some(extent(1, 8192, 512))),
            (extent(0, 1536, 1024), None),
            (extent(0, 4096, 512), None),
        ]
    );
    let mut table = RemapTable::new();
    table.insert(extent(0, 4096, 512), None);
    table.insert(extent(0, 0, 512), Some(DiskLocation::new(DiskId::new(1), 0)));
    assert_eq!(table.entries[0].0, extent(0, 0, 512));
    assert_eq!(table.entries.len(), 2);
}

fn summary(id: u64, disk: usize, kind: SlabKind, max_size: u32, free_space: u64) -> SlabSummary {
    SlabSummary {
        id: SlabId(id),
        disk: DiskId::new(disk),
        kind,
        max_size,
        free_space,
        num_segments: 2,
    }
}

#[test]
fn slabs_are_reported_by_bucket() {
    let slabs = vec![
        summary(0, 0, SlabKind::BitmapBased, 512, 100),
        summary(1, 1, SlabKind::BitmapBased, 1024, 200),
        summary(2, 0, SlabKind::ExtentBased, 65536, 1000),
        summary(3, 1, SlabKind::Evacuating, 0, 0),
    ];
    let buckets = vec![
        (SlabBucketSize(512), false),
        (SlabBucketSize(1024), false),
        (SlabBucketSize(65536), true),
    ];
    let report = slabs_report(&slabs, 32 << 20, &buckets);
    assert_eq!(report.by_max_size.total.nslabs, 4);
    assert_eq!(report.by_max_size.total.free_space, 1300);
    assert_eq!(report.by_max_size.buckets[1].stats.free_space, 200);
    assert_eq!(report.bitmap_based.total.nslabs, 2);
    assert_eq!(report.extent_based.total.nslabs, 1);
    assert_eq!(report.evacuating.nslabs, 1);
    assert_eq!(slabs_of_device(&slabs, DiskId::new(1)), vec![slabs[1], slabs[3]]);
    // both bitmap slabs are in the first bucket of their summary
    assert_eq!(report.bitmap_based.buckets[0].stats.nslabs, 2);
    assert_eq!(report.bitmap_based.hist_scaling_factor, 2);
    assert_eq!(report.extent_based.hist_scaling_factor, 2);
    assert_eq!(report.by_max_size.hist_scaling_factor, 2);
    for bucket in &report.bitmap_based.buckets {
        let (allocated, free) = bucket.stats.stackgraph(report.bitmap_based.hist_scaling_factor);
        assert!(allocated + free <= 39);
    }
}

#[test]
fn sizes_of_summaries() {
    let sizes = |slab_size: u64| -> Vec<u32> {
        let report = slabs_report(&vec![], slab_size, &vec![(SlabBucketSize(512), false)]);
        assert!(report.extent_based.buckets.iter().all(|b| b.extent_based));
        report.extent_based.buckets.iter().map(|b| b.max_size).collect()
    };
    assert_eq!(sizes(32 << 20), vec![64 << 10, 256 << 10, 1 << 20, 32 << 20]);
    assert_eq!(sizes(1 << 20), vec![64 << 10, 256 << 10, 1 << 20]);
    assert_eq!(sizes(128 << 10), vec![64 << 10, 128 << 10, 256 << 10, 1 << 20]);
}

#[test]
fn bars_are_scaled_to_the_width() {
    assert_eq!(count_bars(&vec![0, 1, 39]), vec![0, 1, 39]);
    assert_eq!(count_bars(&vec![78, 39, 1]), vec![39, 19, 0]);
    assert_eq!(count_bars(&vec![]), vec![]);
}

#[test]
fn bucket_statistics() {
    let mut stats = AllocationBucketStatistics::new(1000);
    stats.add_slab(&summary(0, 0, SlabKind::BitmapBased, 512, 250));
    stats.add_slab(&summary(1, 0, SlabKind::BitmapBased, 512, 750));
    assert_eq!(stats.total_space(), 2000);
    assert_eq!(stats.allocated_space(), 1000);
    assert_eq!(stats.capacity_perc(), 50);
    assert_eq!(stats.segments_per_slab(), 2);
    assert_eq!(stats.stackgraph(2), (1, 1));
    assert_eq!(AllocationBucketStatistics::new(1000).stackgraph(9), (0, 0));
}

#[test]
fn freest_slabs_of_a_bucket() {
    let mut info = AllocationBucketInfo::new(false, 512, 1000);
    for i in 0..10 {
        info.add_slab(&summary(i, 0, SlabKind::BitmapBased, 512, 100 * i));
    }
    assert_eq!(info.allocated_quantile(0), (100, 1));
    assert_eq!(info.allocated_quantile(300), (600, 3));
    assert_eq!(info.allocated_quantile(1000), (5500, 10));
    assert_eq!(info.capacity_histogram(), vec![0, 1, 1, 1, 1, 1, 1, 1, 1, 2]);
}

#[test]
fn moved_blocks_have_places_of_their_own() {
    let (mut allocator, mut sa) = open();
    let mut blocks: Vec<Extent> = vec![];
    for i in 0..600u32 {
        let size = [512, 4096, 20480, 102400][i as usize % 4];
        blocks.push(allocator.allocate(&mut sa, size).unwrap());
    }
    checkpoint(&mut allocator, &mut sa);
    let disk = blocks[0].location.disk();
    let other = DiskId::new(1 - disk.index());
    let before = allocator.disk_allocated_bytes(&sa, other);
    let moved: Vec<Extent> =
        blocks.iter().copied().filter(|b| b.location.disk() == disk).collect();
    let moved_bytes: u64 = moved.iter().map(|b| b.size).sum();
    sa.mark_noalloc_disk(disk);
    allocator.mark_noalloc_disk(&sa, disk);
    let map = allocator.rebalance_init(&mut sa, 0, Some(disk)).unwrap();
    assert_eq!(allocator.disk_allocated_bytes(&sa, other), before + moved_bytes);
    let rebalance = RebalanceState { map, log_phys: BlockBasedLogPhys::new() };
    let mut places: Vec<Extent> =
        blocks.iter().copied().filter(|b| b.location.disk() == other).collect();
    for block in moved {
        let location = rebalance.remap(block).unwrap();
        assert_eq!(location.disk(), other);
        let place = Extent { location, size: block.size };
        assert!(places.iter().all(|p| !overlap(p, &place)));
        places.push(place);
    }
    for place in places {
        allocator.free(&sa, place);
    }
    assert_eq!(allocator.disk_allocated_bytes(&sa, other), 0);
}

#[test]
fn sums_follow_the_blocks() {
    let (mut allocator, mut sa) = open();
    let first = allocator.allocate(&mut sa, 1024).unwrap();
    let disk = first.location.disk();
    assert_eq!(allocator.disk_allocated_bytes(&sa, disk), 1024);
    let second = allocator.allocate(&mut sa, 1024).unwrap();
    assert_eq!(second.location.disk(), disk);
    assert_eq!(allocator.disk_allocated_bytes(&sa, disk), 2048);
    let free = allocator.free_bytes(&sa);
    allocator.free(&sa, first);
    assert_eq!(allocator.disk_allocated_bytes(&sa, disk), 1024);
    assert_eq!(allocator.free_bytes(&sa), free);
    checkpoint(&mut allocator, &mut sa);
    assert_eq!(allocator.free_bytes(&sa), free + 1024);
    assert_eq!(allocator.disk_allocated_bytes(&sa, disk), 1024);
    checkpoint(&mut allocator, &mut sa);
    assert_eq!(allocator.free_bytes(&sa), free + 1024);
}

#[test]
fn marked_disks_are_not_counted_as_allocatable() {
    let (mut allocator, mut sa) = open();
    for size in [512, 1024, 4096, 20480, 102400, 512 * 1024] {
        allocator.allocate(&mut sa, size).unwrap();
    }
    let allocatable = allocator.allocatable_bytes(&sa);
    let free = allocator.free_bytes(&sa);
    assert_eq!(allocatable, free);
    for disk in disks() {
        sa.mark_noalloc_disk(disk);
        allocator.mark_noalloc_disk(&sa, disk);
    }
    assert_eq!(allocator.allocatable_bytes(&sa), 0);
    assert_eq!(allocator.free_bytes(&sa), free);
    for disk in disks() {
        allocator.unmark_noalloc_disk(&sa, disk);
        sa.unmark_noalloc_disk(disk);
    }
    assert_eq!(allocator.allocatable_bytes(&sa), allocatable);
    assert_eq!(allocator.free_bytes(&sa), free);
}
