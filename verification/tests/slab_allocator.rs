use zettacache::base_types::{DiskId, Extent};
use zettacache::slab_allocator::{
    SlabAllocator, SlabAllocatorBuilder, SlabAllocatorPhys, SlabExtentPhys, SlabId,
};

const SLAB: u64 = 1 << 20;

const LARGE_SLAB: u64 = 32 * 1024 * 1024;

fn extent(disk: usize, offset: u64, size: u64) -> Extent {
    Extent::new(DiskId::new(disk), offset, size)
}

fn present(extent: Extent) -> SlabExtentPhys {
    SlabExtentPhys::Present { extent }
}

/// Four slabs on the first disk and two on the second.
fn phys() -> SlabAllocatorPhys {
    SlabAllocatorPhys {
        slab_size: SLAB,
        capacity: vec![present(extent(0, 4096, 4 * SLAB)), present(extent(1, 0, 2 * SLAB))],
    }
}

fn allocator() -> SlabAllocator {
    SlabAllocatorBuilder::new(&phys()).build(&vec![], 0)
}

#[test]
fn capacity_is_whole_slabs() {
    let capacity = vec![extent(0, 4096, 3 * LARGE_SLAB + 512), extent(1, 0, 512)];
    let mut phys = SlabAllocatorPhys::new(&capacity, LARGE_SLAB);
    assert_eq!(phys.slab_size, 32 * 1024 * 1024);
    assert_eq!(
        phys.capacity,
        vec![present(extent(0, 4096, 3 * LARGE_SLAB)), present(extent(1, 0, 0))]
    );
    assert_eq!(phys.active_capacity_bytes(), 3 * LARGE_SLAB);
    phys.extend(&vec![extent(2, 0, 2 * LARGE_SLAB - 512)]);
    assert_eq!(phys.capacity[2].extent(), extent(2, 0, LARGE_SLAB));
}

#[test]
fn slabs_and_extents() {
    let sa = allocator();
    assert_eq!(sa.num_slabs(), 6);
    assert_eq!(sa.capacity(), 6 * SLAB);
    assert_eq!(sa.slab_size(), SLAB);
    assert_eq!(sa.slab_id_to_extent(SlabId(0)), extent(0, 4096, SLAB));
    assert_eq!(sa.slab_id_to_extent(SlabId(3)), extent(0, 4096 + 3 * SLAB, SLAB));
    assert_eq!(sa.slab_id_to_extent(SlabId(4)), extent(1, 0, SLAB));
    assert_eq!(sa.extent_to_slab_id(extent(0, 4096 + SLAB - 512, 512)), SlabId(0));
    assert_eq!(sa.extent_to_slab_id(extent(0, 4096 + SLAB, 512)), SlabId(1));
    assert_eq!(sa.extent_to_slab_id(extent(1, SLAB, SLAB)), SlabId(5));
    assert_eq!(sa.disk_capacity(DiskId::new(1)), 2 * SLAB);
    assert_eq!(sa.access().disk_num_slabs(DiskId::new(0)), 4);
    assert_eq!(sa.access().disk_num_slabs(DiskId::new(7)), 0);
}

#[test]
fn each_slab_is_allocated_once() {
    let mut sa = allocator();
    let mut ids: Vec<u64> = (0..6).map(|_| sa.allocate().unwrap().0).collect();
    assert_eq!(sa.allocate(), None);
    ids.sort();
    assert_eq!(ids, vec![0, 1, 2, 3, 4, 5]);
}

#[test]
fn claimed_slabs_are_not_allocated() {
    let mut builder = SlabAllocatorBuilder::new(&phys());
    builder.claim(SlabId(2));
    builder.claim(SlabId(5));
    let mut sa = builder.build(&vec![], 0);
    let mut ids: Vec<u64> = (0..4).map(|_| sa.allocate().unwrap().0).collect();
    assert_eq!(sa.allocate(), None);
    ids.sort();
    assert_eq!(ids, vec![0, 1, 3, 4]);
}

#[test]
fn freed_slabs_come_back_after_a_checkpoint() {
    let mut sa = allocator();
    let ids: Vec<SlabId> = (0..6).map(|_| sa.allocate().unwrap()).collect();
    sa.free(ids[0]);
    assert_eq!(sa.allocate(), None);
    assert_eq!(sa.free_slabs(), 0);
    sa.release_frees();
    assert_eq!(sa.free_slabs(), 1);
    assert_eq!(sa.allocate(), Some(ids[0]));
}

#[test]
fn reserved_slabs_are_for_metadata() {
    let mut sa = allocator();
    sa.set_reservation(2 * SLAB + 5, 0);
    assert_eq!(sa.reserved_slabs, 2);
    assert_eq!(sa.allocatable_bytes(), 4 * SLAB);
    sa.set_reservation(SLAB, 3);
    assert_eq!(sa.reserved_slabs, 3);
    for _ in 0..3 {
        assert!(sa.allocate().is_some());
    }
    assert_eq!(sa.allocate(), None);
    sa.allocate_reserved(1);
    sa.allocate_reserved(1);
    assert_eq!(sa.allocatable_bytes(), 0);
    assert_eq!(sa.num_slabs_to_evacuate(2), 4);
    assert_eq!(allocator().num_slabs_to_evacuate(2), 0);
}

#[test]
fn disk_is_removed_once_it_is_evacuated() {
    let mut sa = allocator();
    let ids: Vec<SlabId> = (0..6).map(|_| sa.allocate().unwrap()).collect();
    let disk = DiskId::new(1);
    sa.mark_noalloc_disk(disk);
    assert_eq!(sa.removing_disks(), vec![disk]);
    assert_eq!(sa.removing_capacity(), 2 * SLAB);
    assert_eq!(sa.disk_slabs_to_evacuate(disk), 2);
    assert!(!sa.disk_is_fully_evacuated(disk));
    for &id in &ids {
        if id.0 >= 4 {
            sa.free(id);
        }
    }
    sa.release_frees();
    assert!(sa.disk_is_fully_evacuated(disk));
    assert_eq!(sa.allocate(), None);
    sa.remove_disk(disk);
    assert_eq!(sa.num_slabs(), 4);
    let phys = sa.get_phys();
    assert_eq!(
        phys.capacity,
        vec![
            present(extent(0, 4096, 4 * SLAB)),
            SlabExtentPhys::Removed { extent: extent(1, 0, 2 * SLAB) },
        ]
    );
    assert_eq!(phys.active_capacity_bytes(), 4 * SLAB);
}

#[test]
fn removal_is_cancelled() {
    let mut sa = allocator();
    sa.mark_noalloc_disk(DiskId::new(0));
    let ids: Vec<u64> = (0..2).map(|_| sa.allocate().unwrap().0).collect();
    assert!(ids.iter().all(|&id| id >= 4));
    assert_eq!(sa.allocate(), None);
    sa.unmark_noalloc_disk(DiskId::new(0));
    assert_eq!(sa.removing_disks(), vec![]);
    let mut ids: Vec<u64> = (0..4).map(|_| sa.allocate().unwrap().0).collect();
    ids.sort();
    assert_eq!(ids, vec![0, 1, 2, 3]);
}

#[test]
fn disks_that_are_being_removed_stay_so() {
    let mut sa = SlabAllocatorBuilder::new(&phys()).build(&vec![DiskId::new(0)], 0);
    let mut ids: Vec<u64> = (0..2).map(|_| sa.allocate().unwrap().0).collect();
    ids.sort();
    assert_eq!(ids, vec![4, 5]);
    assert_eq!(sa.allocate(), None);
}

#[test]
fn new_capacity_is_used_after_a_checkpoint() {
    let mut sa = allocator();
    for _ in 0..6 {
        sa.allocate();
    }
    sa.extend(extent(2, 0, 2 * SLAB + 512));
    assert_eq!(sa.allocate(), None);
    assert_eq!(sa.num_slabs(), 8);
    sa.release_frees();
    let mut ids: Vec<u64> = (0..2).map(|_| sa.allocate().unwrap().0).collect();
    ids.sort();
    assert_eq!(ids, vec![6, 7]);
    assert_eq!(sa.slab_id_to_extent(SlabId(7)), extent(2, SLAB, SLAB));
}

#[test]
fn slab_ids_are_counted() {
    assert_eq!(SlabId(3).next(), SlabId(4));
    assert_eq!(SlabId(3) + 4u64, SlabId(7));
    assert_eq!(SlabId(7) - SlabId(3), 4);
}

#[test]
fn unmarking_a_disk_leaves_the_others_marked() {
    let mut sa = allocator();
    for _ in 0..6 {
        sa.allocate().unwrap();
    }
    sa.mark_noalloc_disk(DiskId::new(0));
    sa.mark_noalloc_disk(DiskId::new(1));
    sa.free(SlabId(4));
    sa.free(SlabId(2));
    sa.unmark_noalloc_disk(DiskId::new(0));
    assert_eq!(sa.removing_disks(), vec![DiskId::new(1)]);
    // freed before the last checkpoint, so not before the next one
    assert_eq!(sa.allocate(), None);
    sa.release_frees();
    assert_eq!(sa.allocate(), Some(SlabId(2)));
    assert_eq!(sa.allocate(), None);
    sa.unmark_noalloc_disk(DiskId::new(1));
    assert_eq!(sa.allocate(), Some(SlabId(4)));
    assert_eq!(sa.allocate(), None);
}

#[test]
fn capacity_without_a_slab_is_left_out() {
    let capacity = vec![
        extent(0, 4096, SLAB - 512),
        extent(1, 0, 2 * SLAB + 512),
        extent(2, 0, 512),
        extent(3, 0, SLAB),
        extent(4, 0, 0),
    ];
    let phys = SlabAllocatorPhys::new(&capacity, SLAB);
    assert_eq!(phys.capacity.len(), 5);
    assert_eq!(phys.active_capacity_bytes(), 3 * SLAB);
    let mut sa = SlabAllocatorBuilder::new(&phys).build(&vec![], 0);
    assert_eq!(sa.num_slabs(), 3);
    assert_eq!(sa.slab_id_to_extent(SlabId(0)), extent(1, 0, SLAB));
    assert_eq!(sa.slab_id_to_extent(SlabId(2)), extent(3, 0, SLAB));
    assert_eq!(sa.disk_capacity(DiskId::new(0)), 0);
    assert_eq!(
        sa.get_phys().capacity,
        vec![present(extent(1, 0, 2 * SLAB)), present(extent(3, 0, SLAB))]
    );
    // what is added has to hold a slab too
    sa.extend(extent(5, 4096, SLAB - 512));
    assert_eq!(sa.num_slabs(), 3);
    assert_eq!(sa.freeing, vec![]);
    sa.extend(extent(5, 4096, SLAB));
    assert_eq!(sa.num_slabs(), 4);
    assert_eq!(sa.freeing, vec![SlabId(3)]);
    assert_eq!(sa.slab_id_to_extent(SlabId(3)), extent(5, 4096, SLAB));
    // with nothing at all there are no slabs
    let phys = SlabAllocatorPhys::new(&vec![extent(0, 4096, 512)], SLAB);
    let mut sa = SlabAllocatorBuilder::new(&phys).build(&vec![], 0);
    assert_eq!(sa.num_slabs(), 0);
    assert_eq!(sa.allocate(), None);
}
