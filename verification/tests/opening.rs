use zettacache::base_types::{Atime, CacheGuid, DiskGuid, DiskId, Extent};
use zettacache::block_allocator::flush::BlockAllocatorPhys;
use zettacache::block_based_log::{BlockBasedLogPhys, ChunkId, LogOffset};
use zettacache::checkpoint::{CheckpointId, CheckpointPhys, MergeProgressPhys};
use zettacache::extent_allocator::{
    ExtentAllocator, ExtentAllocatorBuilder, ExtentAllocatorPhys,
};
use zettacache::features::FeatureName;
use zettacache::index::run::IndexRunPhys;
use zettacache::open::{
    discover_devices, valid_cache, CacheOpenMode, DiscoverError, DiscoveredDevice,
};
use zettacache::pool_id::PoolGuidMappingPhys;
use zettacache::size_histogram::SizeHistogramPhys;
use zettacache::slab_allocator::{
    SlabAllocatorBuilder, SlabAllocatorPhys, SlabExtentPhys, SlabId,
};
use zettacache::superblock::{
    supported_flags, DiskPhys, PrimaryFeaturesPhys, PrimaryPhys, SuperblockError,
    SuperblockFeaturesPhys, SuperblockPhys,
};
use zettacache::vec_map::VecMap;
use zettacache::zettacache::checkpointing::{heal_needed, next_checkpoint, place_checkpoint};
use zettacache::zettacache::sizing::{
    divide_new_capacity, expanded_capacity, expanded_extent, index_cache_estimate_capacity,
    new_disk_extent, pending_changes_limits,
};

fn extent(disk: usize, offset: u64, size: u64) -> Extent {
    Extent::new(DiskId::new(disk), offset, size)
}

fn disk(guid: u64) -> DiskPhys {
    DiskPhys { size: 1 << 30, guid: DiskGuid(guid) }
}

/// The state of a cache of three disks.
fn primary(checkpoint_id: u64) -> PrimaryPhys {
    let mut disks = VecMap::new();
    disks.insert(0, disk(100));
    disks.insert(1, disk(101));
    disks.insert(2, disk(102));
    let mut primary = PrimaryPhys::new(disks, 512, vec![extent(0, 4096, 512)]);
    assert_eq!(primary.checkpoint_id, CheckpointId(0));
    primary.checkpoint_id = CheckpointId(checkpoint_id);
    primary
}

fn superblocks(checkpoint_id: u64) -> Vec<SuperblockPhys> {
    primary(checkpoint_id).write_all(3, DiskId::new(1), CacheGuid(7))
}

/// The superblocks in the order of the disks.
fn results(checkpoint_id: u64) -> Vec<Option<SuperblockPhys>> {
    let mut found: Vec<Option<SuperblockPhys>> =
        superblocks(checkpoint_id).into_iter().map(Some).collect();
    found.sort_by_key(|s| s.as_ref().map(|s| s.disk));
    found
}

#[test]
fn primary_is_written_last() {
    let blocks = superblocks(5);
    let disks: Vec<DiskId> = blocks.iter().map(|s| s.disk).collect();
    assert_eq!(disks, vec![DiskId::new(0), DiskId::new(2), DiskId::new(1)]);
    assert!(blocks[0].primary.is_none());
    assert!(blocks[1].primary.is_none());
    assert_eq!(blocks[1].disk_guid, Some(DiskGuid(102)));
    assert_eq!(blocks[2].primary.as_ref().unwrap().checkpoint_id, CheckpointId(5));
    assert!(blocks.iter().all(|s| s.cache_guid == CacheGuid(7)));
    let secondary = primary(5).secondary_superblock(DiskId::new(0), CacheGuid(8));
    assert!(secondary.primary.is_none());
    assert_eq!(secondary.disk_guid, Some(DiskGuid(100)));
    let main = primary(5).write(DiskId::new(2), CacheGuid(8));
    assert_eq!(main.disk, DiskId::new(2));
    assert!(main.primary.is_some());
}

#[test]
fn cache_is_opened_from_its_superblocks() {
    let opened = PrimaryPhys::read(results(5), 512).unwrap();
    assert_eq!(opened.primary.checkpoint_id, CheckpointId(5));
    assert_eq!(opened.primary_disk, DiskId::new(1));
    assert_eq!(opened.cache_guid, CacheGuid(7));
    assert_eq!(opened.extra_disks, vec![]);
    assert_eq!(opened.primary.sector_size, Some(512));
}

#[test]
fn latest_primary_counts() {
    let mut found = results(5);
    let mut old = primary(4).write(DiskId::new(0), CacheGuid(7));
    old.disk = DiskId::new(0);
    found[0] = Some(old);
    let opened = PrimaryPhys::read(found, 512).unwrap();
    assert_eq!(opened.primary.checkpoint_id, CheckpointId(5));
    assert_eq!(opened.primary_disk, DiskId::new(1));
}

#[test]
fn disks_without_superblock_are_extra() {
    let mut found = results(5);
    found.push(None);
    let opened = PrimaryPhys::read(found, 512).unwrap();
    assert_eq!(opened.extra_disks, vec![DiskId::new(3)]);
}

#[test]
fn without_primary_there_is_no_cache() {
    let mut found = results(5);
    found[1] = None;
    assert_eq!(PrimaryPhys::read(found, 512).err(), Some(SuperblockError::Inconsistent));
    assert_eq!(PrimaryPhys::read(vec![], 512).err(), Some(SuperblockError::NoSuperblock));
    assert_eq!(PrimaryPhys::read(vec![None, None], 512).err(), Some(SuperblockError::NoSuperblock));
}

#[test]
fn superblocks_of_two_caches_are_refused() {
    let mut found = results(5);
    found[0].as_mut().unwrap().cache_guid = CacheGuid(8);
    assert_eq!(PrimaryPhys::read(found, 512).err(), Some(SuperblockError::Inconsistent));
}

#[test]
fn other_sector_size_is_refused() {
    assert_eq!(
        PrimaryPhys::read(results(5), 4096).err(),
        Some(SuperblockError::Inconsistent)
    );
}

fn features(
    checkpoint_id: Option<u64>,
    disk: usize,
    cache_guid: u64,
) -> Option<SuperblockFeaturesPhys> {
    Some(SuperblockFeaturesPhys {
        primary: checkpoint_id.map(|id| PrimaryFeaturesPhys {
            checkpoint_id: CheckpointId(id),
            feature_flags: vec![FeatureName(format!("flag{id}"))],
        }),
        disk: DiskId::new(disk),
        cache_guid: CacheGuid(cache_guid),
    })
}

#[test]
fn feature_flags_are_read() {
    let found = vec![features(Some(3), 0, 7), features(Some(9), 1, 7), None];
    let read = PrimaryFeaturesPhys::read(found).unwrap();
    assert_eq!(read.checkpoint_id, CheckpointId(9));
    let found = vec![features(Some(3), 0, 7), features(Some(9), 1, 7)];
    let flags = PrimaryPhys::read_features(found).unwrap();
    assert_eq!(flags[0].0, "flag9");
    let found = vec![features(None, 0, 7), None];
    assert_eq!(PrimaryPhys::read_features(found).err(), Some(SuperblockError::Inconsistent));
    assert_eq!(
        PrimaryPhys::read_features(vec![None, None]).err(),
        Some(SuperblockError::NoSuperblock)
    );
    let found = vec![features(Some(3), 0, 7), features(None, 1, 8)];
    assert_eq!(PrimaryPhys::read_features(found).err(), Some(SuperblockError::Inconsistent));
}

#[test]
fn new_cache_has_all_features() {
    assert_eq!(primary(0).feature_flags.len(), supported_flags().len());
    assert_eq!(DiskPhys::new(4096).size, 4096);
}

fn devices(cache_guid: u64) -> Vec<DiscoveredDevice> {
    primary(5)
        .write_all(3, DiskId::new(1), CacheGuid(cache_guid))
        .into_iter()
        .map(|superblock| DiscoveredDevice {
            device_path: format!("/dev/{}-{}", cache_guid, superblock.disk.0),
            superblock,
        })
        .collect()
}

#[test]
fn cache_is_discovered() {
    let found = devices(7);
    assert!(valid_cache(&found, CacheGuid(7)));
    assert!(!valid_cache(&found, CacheGuid(8)));
    let paths = discover_devices(&found, None).unwrap();
    assert_eq!(paths, vec!["/dev/7-0", "/dev/7-1", "/dev/7-2"]);
    assert_eq!(
        discover_devices(&found, Some(CacheGuid(8))),
        Err(DiscoverError::NotFound)
    );
}

#[test]
fn one_of_two_caches_has_to_be_named() {
    let mut found = devices(7);
    found.extend(devices(8));
    assert_eq!(discover_devices(&found, None), Err(DiscoverError::Multiple));
    let paths = discover_devices(&found, Some(CacheGuid(8))).unwrap();
    assert_eq!(paths, vec!["/dev/8-0", "/dev/8-1", "/dev/8-2"]);
}

#[test]
fn cache_with_a_missing_disk_is_not_found() {
    let mut found = devices(7);
    found.remove(0);
    assert_eq!(discover_devices(&found, None), Err(DiscoverError::NotFound));
    assert!(!valid_cache(&found, CacheGuid(7)));
    assert_eq!(discover_devices(&vec![], None), Err(DiscoverError::NotFound));
}

#[test]
fn disk_that_the_primary_does_not_know_is_left_out() {
    let mut found = devices(7);
    let mut superblock = primary(5).secondary_superblock(DiskId::new(2), CacheGuid(7));
    superblock.disk_guid = Some(DiskGuid(999));
    found.push(DiscoveredDevice { device_path: "/dev/stale".to_string(), superblock });
    let paths = discover_devices(&found, None).unwrap();
    assert_eq!(paths, vec!["/dev/7-0", "/dev/7-1", "/dev/7-2"]);
}

#[test]
fn disk_that_is_found_twice_is_refused() {
    let mut found = devices(7);
    found.extend(devices(7).into_iter().skip(1).take(1));
    assert_eq!(
        discover_devices(&found, None),
        Err(DiscoverError::Duplicate {
            cache_guid: CacheGuid(7),
            disk: DiskId::new(2),
            disk_guid: Some(DiskGuid(102)),
        })
    );
}

#[test]
fn open_modes() {
    let list = CacheOpenMode::DeviceList(vec!["/a".to_string()]);
    assert_eq!(list.device_paths(&vec![]), Ok(vec!["/a".to_string()]));
    assert_eq!(CacheOpenMode::NoCache.device_paths(&vec![]), Ok(vec![]));
    let directory = CacheOpenMode::DiscoveryDirectory("/dev".to_string(), Some(CacheGuid(7)));
    assert_eq!(directory.device_paths(&devices(7)).unwrap().len(), 3);
}

#[test]
fn checkpoint_is_divided_into_slabs() {
    let phys = SlabAllocatorPhys {
        slab_size: 1 << 16,
        capacity: vec![SlabExtentPhys::Present { extent: extent(0, 0, 8 << 16) }],
    };
    let mut sa = SlabAllocatorBuilder::new(&phys).build(&vec![], 0);
    let pieces = CheckpointPhys::write((2 << 16) + 512, &mut sa, 1);
    assert_eq!(pieces.len(), 3);
    let sizes: Vec<u64> = pieces.iter().map(|e| e.size).collect();
    assert_eq!(sizes, vec![1 << 16, 1 << 16, 512]);
    assert_eq!(sa.allocatable.len(), 5);
    assert_eq!(CheckpointPhys::write(1 << 16, &mut sa, 1).len(), 1);
    // the slabs are free again once the checkpoint has been replaced
    CheckpointPhys::release(&pieces, &mut sa);
    assert_eq!(sa.allocatable.len(), 7);
    assert_eq!(sa.freeing.len(), 0);
    assert!(pieces.iter().all(|e| sa.allocatable.contains(&sa.extent_to_slab_id(*e))));
}

#[test]
fn new_cache_has_no_blocks() {
    let capacity = vec![new_disk_extent(DiskId::new(0), (64 << 20) + 700)];
    assert_eq!(capacity, vec![extent(0, 4096, (64 << 20) - 4096 + 512)]);
    let phys = SlabAllocatorPhys::new(&capacity, 32 << 20);
    let histogram = SizeHistogramPhys::new(10240, 5120, 0, 10);
    let checkpoint = CheckpointPhys::new(phys, 512, histogram);
    assert_eq!(checkpoint.id, CheckpointId(0));
    assert_eq!(checkpoint.metadata_used(), 0);
    assert_eq!(checkpoint.block_allocator.slab_buckets.buckets.len(), 35);
    let mut builder = SlabAllocatorBuilder::new(&checkpoint.slab_allocator);
    let slabs = builder.access().num_slabs();
    checkpoint.claim(&mut builder);
    assert_eq!(builder.build(&vec![], 0).free_slabs(), slabs);
}

/// A log that has the given slabs, and some bytes in the last one.
fn log<T>(slabs: Vec<u64>, bytes: u64) -> BlockBasedLogPhys<T> {
    let mut log = BlockBasedLogPhys::new();
    log.slabs = slabs.into_iter().map(SlabId).collect();
    log.next_chunk = ChunkId(1);
    log.next_chunk_offset = LogOffset(bytes);
    log
}

#[test]
fn slabs_of_a_checkpoint() {
    let phys = SlabAllocatorPhys {
        slab_size: 1 << 16,
        capacity: vec![SlabExtentPhys::Present { extent: extent(0, 0, 8 << 16) }],
    };
    let mut builder = SlabAllocatorBuilder::new(&phys);
    let mut blocks = BlockAllocatorPhys::new(512);
    blocks.spacemap.log = log(vec![0, 3], (1 << 16) + 512);
    blocks.spacemap_next.log = log(vec![5], 1024);
    let mut old_index = IndexRunPhys::new(Atime(0), Atime(0));
    old_index.log.this = log(vec![1], 2048);
    old_index.log.chunk_summary = log(vec![7], 512);
    let mut checkpoint = CheckpointPhys {
        id: CheckpointId(1),
        pool_guids: PoolGuidMappingPhys(vec![]),
        block_allocator: blocks,
        slab_allocator: phys,
        last_atime: Atime(0),
        old_index,
        operation_log: log(vec![2], 4096),
        size_histogram: SizeHistogramPhys::new(10240, 5120, 0, 10),
        merge_progress: None,
    };
    assert_eq!(checkpoint.metadata_used(), (1 << 16) + 512 + 1024 + 2048 + 512 + 4096);
    assert_eq!(checkpoint.metadata_allocated(builder.access()), 6 << 16);
    assert_eq!(checkpoint.block_allocator.spacemap_capacity_bytes(builder.access()), 2 << 16);
    assert_eq!(checkpoint.block_allocator.spacemap_next_capacity_bytes(builder.access()), 1 << 16);
    checkpoint.merge_progress = Some(MergeProgressPhys {
        rebalance_log: None,
        operation_log: log(vec![4], 512),
        new_index: IndexRunPhys::new(Atime(0), Atime(0)),
    });
    assert_eq!(checkpoint.metadata_allocated(builder.access()), 7 << 16);
    checkpoint.claim(&mut builder);
    let sa = builder.build(&vec![], 0);
    assert_eq!(sa.allocatable, vec![SlabId(6)]);
}

#[test]
fn checkpoint_goes_behind_the_current_one() {
    let region = extent(0, 4096, 8192);
    assert_eq!(place_checkpoint(&region, &extent(0, 4096, 1024), 2048), extent(0, 5120, 2048));
    // there is no room behind it
    assert_eq!(place_checkpoint(&region, &extent(0, 8192, 3072), 2048), extent(0, 4096, 2048));
    // the region has moved
    assert_eq!(place_checkpoint(&region, &extent(1, 8192, 512), 2048), extent(0, 4096, 2048));
}

#[test]
fn blocks_are_healed_from_the_object() {
    assert!(!heal_needed(&vec![1, 2], &vec![1, 2]));
    assert!(heal_needed(&vec![1, 2], &vec![1, 3]));
    assert!(heal_needed(&vec![1, 2], &vec![1]));
}

#[test]
fn capacity_is_divided() {
    let capacity = vec![extent(0, 4096, 1 << 20), extent(1, 4096, 2 << 20), extent(2, 0, 2 << 20)];
    let (checkpoint, metadata, data) =
        divide_new_capacity(&capacity, 8192, &vec![1024, 2048, 4096]);
    assert_eq!(checkpoint, extent(2, 0, 8192));
    assert_eq!(
        metadata,
        vec![extent(0, 4096, 1024), extent(1, 4096, 2048), extent(2, 8192, 4096)]
    );
    assert_eq!(
        data,
        vec![
            extent(0, 5120, (1 << 20) - 1024),
            extent(1, 6144, (2 << 20) - 2048),
            extent(2, 12288, (2 << 20) - 12288),
        ]
    );
}

#[test]
fn disk_has_to_grow_enough() {
    let disk = DiskId::new(1);
    assert_eq!(
        expanded_extent(disk, 1 << 20, 2 << 20, 4096, 4096, 10),
        Some(extent(1, 1 << 20, 1 << 20))
    );
    assert_eq!(expanded_extent(disk, 2 << 20, 1 << 20, 4096, 4096, 10), None);
    // less than a checkpoint and a slab
    assert_eq!(expanded_extent(disk, 1 << 20, (1 << 20) + 8192, 4096, 4096, 10), None);
    // less than a tenth
    assert_eq!(expanded_extent(disk, 1024000, 1024000 + 102400, 512, 512, 10), None);
    assert_eq!(
        expanded_extent(disk, 1024000, 1024000 + 102912, 512, 512, 10),
        Some(extent(1, 1024000, 102912))
    );
    let disks = vec![
        (DiskId::new(0), 1 << 20, 1 << 20),
        (DiskId::new(1), 1 << 20, 2 << 20),
        (DiskId::new(3), 1024000, 1024000 + 102912),
    ];
    assert_eq!(
        expanded_capacity(&disks, 512, 512, 10),
        vec![extent(1, 1 << 20, 1 << 20), extent(3, 1024000, 102912)]
    );
    // less than a fifth
    assert_eq!(expanded_extent(disk, 1024000, 1024000 + 102912, 512, 512, 20), None);
    assert_eq!(
        expanded_extent(disk, 1024000, 1024000 + 2048, 512, 512, 0),
        Some(extent(1, 1024000, 2048))
    );
}

#[test]
fn memory_is_shared_out() {
    assert_eq!(index_cache_estimate_capacity(10, 79000), 100);
    assert_eq!(index_cache_estimate_capacity(25, 79000), 250);
    assert_eq!(pending_changes_limits(28000), (650, 216));
}

const EXTENT: u64 = 128 << 20;

fn extents(capacity: Vec<Extent>) -> ExtentAllocator {
    let phys = ExtentAllocatorPhys::new(capacity);
    ExtentAllocator::open(ExtentAllocatorBuilder::new(&phys))
}

#[test]
fn extents_are_allocated_before_the_cursor() {
    let mut ea = extents(vec![extent(0, 0, 1 << 20), extent(1, 0, 1 << 20)]);
    assert_eq!(ea.allocatable_bytes(), 2 << 20);
    assert_eq!(ea.allocate(512, EXTENT), extent(1, 0, 8192));
    assert_eq!(ea.allocate(512, EXTENT), extent(1, 8192, 8192));
    assert_eq!(ea.allocatable_bytes(), (2 << 20) - 16384);
    // the cursor has moved
    assert_eq!(ea.allocate(65536, EXTENT), extent(0, 0, 65536));
    assert_eq!(ea.allocate(1 << 19, EXTENT), extent(0, 65536, 1 << 19));
    // more than what is left there
    assert_eq!(ea.allocate(1 << 19, EXTENT), extent(1, 16384, 1 << 19));
    let used = ea.zcachedb_metadata_per_disk();
    assert_eq!(used.get(0), Some(&(65536 + (1 << 19), 1 << 20)));
    assert_eq!(used.get(1), Some(&(16384 + (1 << 19), 1 << 20)));
    assert_eq!(used.get(2), None);
    assert_eq!(ea.get_phys().capacity.len(), 2);
}

#[test]
fn freed_extent_comes_back_after_a_checkpoint() {
    let mut ea = extents(vec![extent(0, 0, 1 << 20)]);
    let a = ea.allocate(4096, EXTENT);
    ea.free(&a);
    let b = ea.allocate(4096, EXTENT);
    assert_ne!(a, b);
    assert_eq!(ea.allocatable_bytes(), (1 << 20) - 16384);
    ea.checkpoint_done();
    assert_eq!(ea.allocatable_bytes(), (1 << 20) - 8192);
}

#[test]
fn claimed_extents_are_not_allocated() {
    let mut phys = ExtentAllocatorPhys::new(vec![extent(0, 0, 1 << 20)]);
    phys.extend(vec![extent(1, 4096, 1 << 20)]);
    let mut builder = ExtentAllocatorBuilder::new(&phys);
    builder.claim(&extent(0, 0, 4096));
    builder.claim(&extent(1, 4096, 512));
    assert_eq!(builder.allocatable_bytes(), (2 << 20) - 4608);
    let mut ea = ExtentAllocator::open(builder);
    assert_eq!(ea.allocate(512, EXTENT), extent(1, 4608, 8192));
    assert_eq!(ea.allocate(512, EXTENT), extent(0, 4096, 8192));
}

#[test]
fn extent_of_the_exact_size_fits() {
    let mut ea = extents(vec![extent(0, 0, 8192)]);
    assert_eq!(ea.allocate(8192, EXTENT), extent(0, 0, 8192));
    assert_eq!(ea.allocatable_bytes(), 0);
    // the first one that fits, although a larger one follows
    let mut builder = ExtentAllocatorBuilder::new(&ExtentAllocatorPhys::new(vec![extent(
        0,
        0,
        1 << 20,
    )]));
    builder.claim(&extent(0, 8192, 4096));
    let mut ea = ExtentAllocator::open(builder);
    assert_eq!(ea.allocate(8192, EXTENT), extent(0, 0, 8192));
    assert_eq!(ea.allocate(8192, EXTENT), extent(0, 12288, 8192));
}

#[test]
fn extents_are_not_larger_than_usual() {
    let mut ea = extents(vec![extent(0, 0, 1 << 20)]);
    assert_eq!(ea.allocate(512, 4096), extent(0, 0, 4096));
    assert_eq!(ea.allocate(512, 512), extent(0, 4096, 512));
    // as much as is asked for
    assert_eq!(ea.allocate(6144, 4096), extent(0, 4608, 6144));
    assert_eq!(ea.allocate(512, 1 << 20), extent(0, 10752, 8192));
}

#[test]
fn checkpoints_are_due_at_intervals() {
    assert_eq!(next_checkpoint(5, 0, 60), 60);
    assert_eq!(next_checkpoint(60, 0, 60), 60);
    assert_eq!(next_checkpoint(75, 0, 60), 75);
}
