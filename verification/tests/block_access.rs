use zettacache::block_access::{
    chunk_from_raw_impl, chunk_header, frame_chunk, histogram_bucket, round_up_u32,
    seal_contents, writer_for, BlockAccess, BlockHeader, ChunkError, CompressType, Disk,
    DiskError, EncodeType,
};
use zettacache::base_types::{DiskId, Extent};

fn disk(path: &str, size: u64) -> Disk {
    Disk {
        path: path.to_string(),
        canonical_path: format!("/real{path}"),
        size,
        sector_size: 512,
    }
}

fn access() -> BlockAccess {
    BlockAccess::new(vec![disk("/a", 1 << 20), disk("/b", 1 << 21)], false)
}

#[test]
fn chunk_round_trip() {
    let contents: Vec<u8> = (0..2000u32).map(|i| (i % 7) as u8).collect();
    let (payload, header) = seal_contents(EncodeType::Bincode, contents.clone());
    assert_eq!(payload, contents);
    assert_eq!(header.compression, CompressType::Uncompressed);
    let raw = access().chunk_to_raw(&b"header".to_vec(), &payload);
    assert_eq!(raw.len(), 2048);
    assert_eq!(chunk_header(&raw), Ok(b"header".to_vec()));
    let (read, consumed) = access().chunk_from_raw(&raw, 6, &header).unwrap();
    assert_eq!(read, contents);
    assert_eq!(consumed, 2048);
    // whatever follows
    let mut longer = raw.clone();
    longer.extend((0..1000u32).map(|i| (i % 251) as u8));
    assert_eq!(chunk_header(&longer), Ok(b"header".to_vec()));
    let (read, consumed) = access().chunk_from_raw(&longer, 6, &header).unwrap();
    assert_eq!((read, consumed), (contents, 2048));
}

#[test]
fn text_is_compressed() {
    let contents: Vec<u8> = b"all work and no play ".repeat(500);
    let (payload, header) = seal_contents(EncodeType::Json, contents.clone());
    assert_eq!(header.compression, CompressType::Lz4);
    assert_eq!(header.payload_size, payload.len());
    assert!(payload.len() < contents.len() / 10);
    let raw = frame_chunk(&b"h".to_vec(), &payload, 512);
    let (read, consumed) = chunk_from_raw_impl(&raw, 1, &header).unwrap();
    assert_eq!(read, contents);
    assert_eq!(consumed, 2 + payload.len());
}

#[test]
fn checksum_is_that_of_the_payload() {
    let (payload, header) = seal_contents(EncodeType::BincodeFixint, b"to be or not to be".to_vec());
    assert_eq!(header.checksum, seahash::hash(&payload));
    assert_eq!(header.checksum, 1988685042348123509);
}

#[test]
fn chunk_without_header_is_refused() {
    assert_eq!(chunk_header(&vec![1, 2, 3]), Err(ChunkError::NoHeader { len: 3 }));
    assert_eq!(chunk_header(&vec![]), Err(ChunkError::NoHeader { len: 0 }));
    assert_eq!(chunk_header(&vec![0]), Ok(vec![]));
}

#[test]
fn short_chunk_is_refused() {
    let (payload, header) = seal_contents(EncodeType::Bincode, vec![5; 100]);
    let mut raw = frame_chunk(&b"h".to_vec(), &payload, 512);
    raw.truncate(60);
    assert_eq!(
        chunk_from_raw_impl(&raw, 1, &header),
        Err(ChunkError::TooShort { payload_size: 100, remaining: 58 })
    );
}

#[test]
fn changed_chunk_is_refused() {
    let (payload, header) = seal_contents(EncodeType::Bincode, vec![5; 100]);
    let mut raw = frame_chunk(&b"h".to_vec(), &payload, 512);
    raw[50] ^= 1;
    match chunk_from_raw_impl(&raw, 1, &header) {
        Err(ChunkError::BadChecksum { payload_size, expected, actual }) => {
            assert_eq!(payload_size, 100);
            assert_eq!(expected, header.checksum);
            assert_eq!(actual, seahash::hash(&raw[2..102]));
        }
        other => panic!("{other:?}"),
    }
}

#[test]
fn chunk_that_is_no_frame_is_refused() {
    let (payload, header) = seal_contents(EncodeType::Bincode, vec![5; 100]);
    let header = BlockHeader { compression: CompressType::Lz4, ..header };
    let raw = frame_chunk(&b"h".to_vec(), &payload, 512);
    assert_eq!(chunk_from_raw_impl(&raw, 1, &header), Err(ChunkError::BadCompression));
}

#[test]
fn chunk_is_padded_to_sectors() {
    let raw = frame_chunk(&vec![1, 2], &vec![3; 509], 512);
    assert_eq!(raw.len(), 512);
    assert_eq!(raw[2], 0);
    let raw = frame_chunk(&vec![1, 2], &vec![3; 510], 512);
    assert_eq!(raw.len(), 1024);
    assert!(raw[513..].iter().all(|&b| b == 0));
}

#[test]
fn rounding() {
    assert_eq!(round_up_u32(0, 512), 0);
    assert_eq!(round_up_u32(1, 512), 512);
    assert_eq!(round_up_u32(512, 512), 512);
    assert_eq!(access().round_up_to_sector(513), 1024);
    assert!(access().verify_aligned(1024));
    assert!(!access().verify_aligned(1000));
}

#[test]
fn disks_are_known() {
    let access = access();
    assert_eq!(access.disks(), vec![DiskId::new(0), DiskId::new(1)]);
    assert_eq!(access.disk_size(DiskId::new(1)), 1 << 21);
    assert_eq!(
        access.disk_extent(DiskId::new(1)),
        Extent::new(DiskId::new(1), 0, 1 << 21)
    );
    assert_eq!(access.disk_path(DiskId::new(0)), "/a");
    assert_eq!(access.total_capacity(), 3 << 20);
    assert_eq!(access.path_to_disk_id(&"/real/b".to_string()), Ok(DiskId::new(1)));
    assert_eq!(
        access.path_to_disk_id(&"/b".to_string()),
        Err(DiskError::NotPresent)
    );
}

#[test]
fn disk_is_added_once() {
    let mut access = access();
    assert_eq!(access.add_disk(disk("/c", 1 << 22)), Ok(DiskId::new(2)));
    assert_eq!(
        access.add_disk(disk("/c", 1 << 22)),
        Err(DiskError::AlreadyPresent(DiskId::new(2)))
    );
    assert_eq!(access.disks().len(), 3);
}

#[test]
fn there_are_no_more_disks_than_ids() {
    let disks = (0..511).map(|i| disk(&format!("/d{i}"), 512)).collect();
    let mut access = BlockAccess::new(disks, true);
    assert_eq!(access.add_disk(disk("/more", 512)), Err(DiskError::TooMany));
}

#[test]
fn disk_grows_and_never_shrinks() {
    let mut access = access();
    assert_eq!(access.expand_disk(DiskId::new(0), 3 << 20), Ok(2 << 20));
    assert_eq!(access.disk_size(DiskId::new(0)), 3 << 20);
    assert_eq!(
        access.expand_disk(DiskId::new(0), 1 << 20),
        Err(DiskError::SizeDecreased { size: 3 << 20, new_size: 1 << 20 })
    );
    assert_eq!(access.disk_size(DiskId::new(0)), 3 << 20);
}

#[test]
fn writers_take_turns() {
    assert_eq!(writer_for(0, 3, 1 << 20), 0);
    assert_eq!(writer_for((1 << 20) - 512, 3, 1 << 20), 0);
    assert_eq!(writer_for(1 << 20, 3, 1 << 20), 1);
    assert_eq!(writer_for(3 << 20, 3, 1 << 20), 0);
    assert_eq!(writer_for(3 * 4096, 2, 4096), 1);
}

#[test]
fn buckets_double() {
    assert_eq!(histogram_bucket(0, 10), 0);
    assert_eq!(histogram_bucket(1, 10), 0);
    assert_eq!(histogram_bucket(2, 10), 1);
    assert_eq!(histogram_bucket(3, 10), 2);
    assert_eq!(histogram_bucket(4, 10), 2);
    assert_eq!(histogram_bucket(5, 10), 3);
    assert_eq!(histogram_bucket(1 << 40, 10), 9);
    assert_eq!(histogram_bucket(u64::MAX, 100), 64);
}
