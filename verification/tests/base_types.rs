use zettacache::base_types::{
    Atime, BlockId, CacheGuid, DiskGuid, DiskId, DiskLocation, Extent, PoolGuid, ReclaimLogId,
};

fn extent(disk: usize, offset: u64, size: u64) -> Extent {
    Extent::new(DiskId::new(disk), offset, size)
}

#[test]
fn location_holds_disk_and_offset() {
    let location = DiskLocation::new(DiskId::new(3), 1 << 40);
    assert_eq!(location.disk(), DiskId::new(3));
    assert_eq!(location.offset(), 1 << 40);
    let last = DiskLocation::new(DiskId::new(510), u64::MAX - 511);
    assert_eq!(last.disk(), DiskId::new(510));
    assert_eq!(last.offset(), u64::MAX - 511);
    assert_eq!(DiskLocation::from_raw(last.to_raw()), last);
}

#[test]
fn first_location_is_not_zero() {
    let location = DiskLocation::new(DiskId::new(0), 0);
    assert_eq!(location.to_raw(), 0x80_0000_0000_0000);
}

#[test]
fn locations_are_ordered_by_disk_then_offset() {
    let a = DiskLocation::new(DiskId::new(0), 1 << 50);
    let b = DiskLocation::new(DiskId::new(1), 0);
    let c = DiskLocation::new(DiskId::new(1), 512);
    assert!(a < b);
    assert!(b < c);
}

#[test]
fn location_arithmetic() {
    let a = DiskLocation::new(DiskId::new(1), 1024);
    assert_eq!(a + 512u64, DiskLocation::new(DiskId::new(1), 1536));
    assert_eq!((a + 512u64) - a, 512);
}

#[test]
fn extent_contains() {
    let e = extent(1, 1024, 2048);
    assert!(e.contains(&extent(1, 1024, 2048)));
    assert!(e.contains(&extent(1, 1536, 512)));
    assert!(!e.contains(&extent(1, 512, 1024)));
    assert!(!e.contains(&extent(1, 2560, 1024)));
    assert!(!e.contains(&extent(2, 1536, 512)));
}

#[test]
fn extent_range_and_trims() {
    let e = extent(1, 1024, 2048);
    assert_eq!(e.range(512, 1024), extent(1, 1536, 1024));
    assert_eq!(e.trim_start(512), extent(1, 1536, 1536));
    assert_eq!(e.trim_end(512), extent(1, 1024, 512));
    assert_eq!(e.trim_end(1 << 20), e);
}

#[test]
fn extent_after() {
    let e = extent(1, 1024, 2048);
    assert_eq!(e.after(&extent(1, 1024, 512)), Some(extent(1, 1536, 1536)));
    assert_eq!(e.after(&e), Some(extent(1, 3072, 0)));
    assert_eq!(e.after(&extent(2, 1024, 512)), None);
}

#[test]
fn extent_merge() {
    let a = extent(1, 1024, 1024);
    let b = extent(1, 2048, 512);
    assert_eq!(a.merge(b), Some(extent(1, 1024, 1536)));
    assert_eq!(b.merge(a), Some(extent(1, 1024, 1536)));
    let empty = extent(1, 2048, 0);
    assert_eq!(empty.merge(empty), Some(empty));
    assert_eq!(a.merge(extent(1, 4096, 512)), None);
    assert_eq!(a.merge(extent(2, 2048, 512)), None);
}

#[test]
fn atimes_are_counted() {
    assert_eq!(Atime(7).next(), Atime(8));
    assert_eq!(Atime(7) - Atime(3), 4);
    assert_eq!(Atime(7).checked_sub(Atime(3)), Some(4));
    assert_eq!(Atime(3).checked_sub(Atime(7)), None);
    assert_eq!(Atime(3) + 4usize, Atime(7));
    assert_eq!(Atime::default(), Atime(0));
}

#[test]
fn block_ids_are_counted() {
    assert_eq!(BlockId(7).next(), BlockId(8));
    assert_eq!(BlockId(7) - BlockId(3), 4);
    assert_eq!(BlockId(3) + 4usize, BlockId(7));
}

#[test]
fn ids_as_text() {
    assert_eq!(PoolGuid(42).to_text(), "00000000000000000042");
    assert_eq!(PoolGuid(u64::MAX).to_text(), "18446744073709551615");
    assert_eq!(BlockId(42).to_text(), "42");
    assert_eq!(BlockId(0).to_text(), "0");
    assert_eq!(ReclaimLogId(7).to_text(), "00007");
    assert_eq!(ReclaimLogId(7).as_index(), 7);
}

#[test]
fn cache_guid_from_text() {
    assert_eq!(CacheGuid::from_text("12345"), Some(CacheGuid(12345)));
    assert_eq!(CacheGuid::from_text("+7"), Some(CacheGuid(7)));
    assert_eq!(CacheGuid::from_text("18446744073709551615"), Some(CacheGuid(u64::MAX)));
    assert_eq!(CacheGuid::from_text("18446744073709551616"), None);
    assert_eq!(CacheGuid::from_text(""), None);
    assert_eq!(CacheGuid::from_text("12x"), None);
    assert_eq!(CacheGuid::from_text("-1"), None);
}

#[test]
fn guids_are_random() {
    let guids: Vec<u64> = (0..8).map(|_| CacheGuid::new().0).collect();
    assert!(guids.iter().any(|&g| g != guids[0]));
    let guids: Vec<u64> = (0..8).map(|_| DiskGuid::new().0).collect();
    assert!(guids.iter().any(|&g| g != guids[0]));
}
