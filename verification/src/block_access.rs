//! Access to the disks in whole sectors.
use crate::base_types::{DiskId, DiskLocation, Extent, MAX_DISK_ID};
use std::io::Read;
use std::io::Write;
use vstd::prelude::*;

pub mod write_queue;

verus! {

/// The next multiple of `z` that is not below `x`.
pub open spec fn rounded_up(x: int, z: int) -> int {
    if x % z == 0 {
        x
    } else {
        x - x % z + z
    }
}

pub fn round_up_u32(x: u32, z: u32) -> (r: u32)
    requires
        z > 0,
        rounded_up(x as int, z as int) <= u32::MAX,
    ensures
        r == rounded_up(x as int, z as int),
{
    let rest = x % z;
    assert(rest <= x) by (nonlinear_arith)
        requires
            rest == x % z,
            z > 0,
    ;
    if rest == 0 {
        x
    } else {
        x - rest + z
    }
}

/// Rounding up gives the least multiple that is not below.
pub proof fn law_rounded_up(x: int, z: int, m: int)
    requires
        0 <= x,
        0 < z,
    ensures
        x <= rounded_up(x, z) < x + z,
        rounded_up(x, z) % z == 0,
        x <= m && m % z == 0 ==> rounded_up(x, z) <= m,
{
    vstd::arithmetic::div_mod::lemma_fundamental_div_mod(x, z);
    let q = x / z;
    if x % z != 0 {
        assert(rounded_up(x, z) == z * (q + 1)) by (nonlinear_arith)
            requires
                x == z * q + x % z,
                x % z != 0,
                rounded_up(x, z) == x - x % z + z,
        ;
        vstd::arithmetic::div_mod::lemma_mod_multiples_basic(q + 1, z);
        assert(z * (q + 1) == (q + 1) * z) by (nonlinear_arith);
        if x <= m && m % z == 0 {
            vstd::arithmetic::div_mod::lemma_fundamental_div_mod(m, z);
            let p = m / z;
            if p <= q {
                assert(z * p <= z * q) by (nonlinear_arith)
                    requires
                        p <= q,
                        z > 0,
                ;
            } else {
                assert(z * (q + 1) <= z * p) by (nonlinear_arith)
                    requires
                        q + 1 <= p,
                        z > 0,
                ;
            }
        }
    }
}

/// How the contents of a chunk are compressed.
#[derive(Debug, Clone, Copy, PartialEq, Eq, Structural)]
pub enum CompressType {
    Uncompressed,
    Lz4,
}

/// How the contents of a chunk are encoded.
#[derive(Debug, Clone, Copy, PartialEq, Eq, Structural)]
pub enum EncodeType {
    Json,
    Bincode,
    BincodeFixint,
}

/// What is written before the contents of a chunk.
#[derive(Debug, Clone, Copy, PartialEq, Eq, Structural)]
pub struct BlockHeader {
    pub payload_size: usize,
    pub encoding: EncodeType,
    pub compression: CompressType,
    pub checksum: u64,
}

/// The checksum that `seahash::hash` computes.
pub uninterp spec fn seahash_of(data: Seq<u8>) -> u64;

/// `seahash::hash`: a checksum of the data, which depends on nothing else.
#[verifier::external_body]
fn checksum(data: &Vec<u8>) -> (r: u64)
    ensures
        r == seahash_of(data@),
{
    seahash::hash(data)
}

/// What `lz4::Decoder` reads from the data, if they are an LZ4 frame.
pub uninterp spec fn lz4_decoded(data: Seq<u8>) -> Option<Seq<u8>>;

/// `lz4::EncoderBuilder` at level 4: an LZ4 frame, from which the data can be read back. What
/// the frame looks like is not said.
#[verifier::external_body]
fn lz4_encode(data: &Vec<u8>) -> (r: Vec<u8>)
    ensures
        lz4_decoded(r@) == Some(data@),
{
    let mut encoder = lz4::EncoderBuilder::new().level(4).build(Vec::new()).unwrap();
    encoder.write_all(data).unwrap();
    let (payload, result) = encoder.finish();
    result.unwrap();
    payload
}

/// `lz4::Decoder`, read to the end and finished: the data of an LZ4 frame, or nothing if one of
/// these steps fails.
#[verifier::external_body]
fn lz4_decode(data: &Vec<u8>) -> (r: Option<Vec<u8>>)
    ensures
        match r {
            Some(v) => lz4_decoded(data@) == Some(v@),
            None => lz4_decoded(data@) is None,
        },
{
    let mut decoder = lz4::Decoder::new(&data[..]).ok()?;
    let mut vec = Vec::new();
    decoder.read_to_end(&mut vec).ok()?;
    let (_, result) = decoder.finish();
    result.ok()?;
    Some(vec)
}

/// Why a chunk cannot be read.
#[derive(Debug, Clone, Copy, PartialEq, Eq, Structural)]
pub enum ChunkError {
    /// The header does not end.
    NoHeader { len: usize },
    /// There are fewer bytes than the header says.
    TooShort { payload_size: usize, remaining: usize },
    /// The bytes are not those that were written.
    BadChecksum { payload_size: usize, expected: u64, actual: u64 },
    /// The bytes cannot be decompressed.
    BadCompression,
}

/// The header ends with the first zero byte.
pub open spec fn header_end(buf: Seq<u8>, i: int) -> bool {
    &&& 0 <= i < buf.len()
    &&& buf[i] == 0
    &&& forall|j: int| 0 <= j < i ==> #[trigger] buf[j] != 0
}

fn copy_range(buf: &Vec<u8>, from: usize, to: usize) -> (r: Vec<u8>)
    requires
        from <= to <= buf@.len(),
    ensures
        r@ == buf@.subrange(from as int, to as int),
{
    let mut r: Vec<u8> = Vec::new();
    let mut i: usize = from;
    while i < to
        invariant
            from <= i <= to <= buf@.len(),
            r@ == buf@.subrange(from as int, i as int),
        decreases to - i,
    {
        r.push(buf[i]);
        i += 1;
        assert(r@ =~= buf@.subrange(from as int, i as int));
    }
    r
}

/// The bytes of the header of a chunk.
pub fn chunk_header(buf: &Vec<u8>) -> (r: Result<Vec<u8>, ChunkError>)
    ensures
        match r {
            Ok(header) => header_end(buf@, header@.len() as int) && header@ == buf@.take(
                header@.len() as int,
            ),
            Err(e) => {
                &&& e == ChunkError::NoHeader { len: buf.len() }
                &&& forall|i: int| 0 <= i < buf@.len() ==> #[trigger] buf@[i] != 0
            },
        },
{
    let mut i: usize = 0;
    while i < buf.len() && buf[i] != 0
        invariant
            i <= buf@.len(),
            forall|j: int| 0 <= j < i ==> #[trigger] buf@[j] != 0,
        decreases buf@.len() - i,
    {
        i += 1;
    }
    if i < buf.len() {
        let header = copy_range(buf, 0, i);
        assert(buf@.subrange(0, i as int) =~= buf@.take(i as int));
        Ok(header)
    } else {
        Err(ChunkError::NoHeader { len: buf.len() })
    }
}

/// What a chunk holds behind its header.
pub open spec fn payload_of(buf: Seq<u8>, end: int, header: BlockHeader) -> Seq<u8> {
    buf.subrange(end + 1, end + 1 + header.payload_size)
}

/// The contents of the payload.
pub open spec fn contents_of(payload: Seq<u8>, compression: CompressType) -> Option<Seq<u8>> {
    match compression {
        CompressType::Uncompressed => Some(payload),
        CompressType::Lz4 => lz4_decoded(payload),
    }
}

/// Why a chunk cannot be opened: there is too little of it, its checksum is another one, or it
/// was not compressed as its header says.
pub open spec fn chunk_fault(buf: Seq<u8>, header_len: int, header: BlockHeader) -> Option<
    ChunkError,
> {
    let remaining = buf.len() - header_len - 1;
    let payload = payload_of(buf, header_len, header);
    if header.payload_size > remaining {
        Some(
            ChunkError::TooShort {
                payload_size: header.payload_size,
                remaining: remaining as usize,
            },
        )
    } else if header.checksum != seahash_of(payload) {
        Some(
            ChunkError::BadChecksum {
                payload_size: header.payload_size,
                expected: header.checksum,
                actual: seahash_of(payload),
            },
        )
    } else if contents_of(payload, header.compression) is None {
        Some(ChunkError::BadCompression)
    } else {
        None
    }
}

/// The contents of a chunk with the given header, and how many of its bytes were used.
pub fn chunk_from_raw_impl(buf: &Vec<u8>, header_len: usize, header: &BlockHeader) -> (r: Result<
    (Vec<u8>, usize),
    ChunkError,
>)
    requires
        header_end(buf@, header_len as int),
    ensures
        match r {
            Ok((contents, consumed)) => {
                &&& chunk_fault(buf@, header_len as int, *header) is None
                &&& contents_of(
                    payload_of(buf@, header_len as int, *header),
                    header.compression,
                ) == Some(contents@)
                &&& consumed == header_len + 1 + header.payload_size
            },
            Err(e) => chunk_fault(buf@, header_len as int, *header) == Some(e),
        },
{
    let remaining: usize = buf.len() - header_len - 1;
    let start: usize = header_len + 1;
    if header.payload_size > remaining {
        return Err(ChunkError::TooShort { payload_size: header.payload_size, remaining });
    }
    let end: usize = start + header.payload_size;
    let payload = copy_range(buf, start, end);
    let actual = checksum(&payload);
    if header.checksum != actual {
        return Err(
            ChunkError::BadChecksum {
                payload_size: header.payload_size,
                expected: header.checksum,
                actual,
            },
        );
    }
    match header.compression {
        CompressType::Uncompressed => Ok((payload, end)),
        CompressType::Lz4 => match lz4_decode(&payload) {
            Some(contents) => Ok((contents, end)),
            None => Err(ChunkError::BadCompression),
        },
    }
}

/// What is written for contents that have been encoded: what is text is compressed. Returns the
/// payload and the header to write before it.
pub fn seal_contents(encoding: EncodeType, contents: Vec<u8>) -> (r: (Vec<u8>, BlockHeader))
    ensures
        r.1.payload_size == r.0@.len(),
        r.1.encoding == encoding,
        r.1.compression == if encoding == EncodeType::Json {
            CompressType::Lz4
        } else {
            CompressType::Uncompressed
        },
        r.1.checksum == seahash_of(r.0@),
        contents_of(r.0@, r.1.compression) == Some(contents@),
{
    let (payload, compression) = match encoding {
        EncodeType::Json => (lz4_encode(&contents), CompressType::Lz4),
        EncodeType::Bincode | EncodeType::BincodeFixint => (contents, CompressType::Uncompressed),
    };
    let header = BlockHeader {
        payload_size: payload.len(),
        encoding,
        compression,
        checksum: checksum(&payload),
    };
    (payload, header)
}

/// A chunk: the header, a zero byte, the payload, and zeros up to the end of a sector.
pub open spec fn framed(header: Seq<u8>, payload: Seq<u8>, sector_size: int) -> Seq<u8> {
    let used = header + seq![0u8] + payload;
    used + Seq::new((rounded_up(used.len() as int, sector_size) - used.len()) as nat, |i: int| 0u8)
}

/// A chunk that is read back has the header and the contents that were written, whatever follows
/// it, and what is used of the bytes is, in whole sectors, exactly the chunk. A header has no
/// zero bytes.
pub proof fn law_chunk_round_trip(
    header_bytes: Seq<u8>,
    payload: Seq<u8>,
    header: BlockHeader,
    contents: Seq<u8>,
    sector_size: int,
    tail: Seq<u8>,
)
    requires
        sector_size > 0,
        forall|i: int| 0 <= i < header_bytes.len() ==> #[trigger] header_bytes[i] != 0,
        header.payload_size == payload.len(),
        header.checksum == seahash_of(payload),
        contents_of(payload, header.compression) == Some(contents),
    ensures
        ({
            let chunk = framed(header_bytes, payload, sector_size);
            let buf = chunk + tail;
            let end = header_bytes.len() as int;
            &&& header_end(buf, end)
            &&& buf.take(end) == header_bytes
            &&& chunk_fault(buf, end, header) is None
            &&& payload_of(buf, end, header) == payload
            &&& contents_of(payload_of(buf, end, header), header.compression) == Some(contents)
            &&& rounded_up(end + 1 + header.payload_size, sector_size) == chunk.len()
            &&& chunk.len() as int % sector_size == 0
        }),
{
    let buf = framed(header_bytes, payload, sector_size) + tail;
    let end = header_bytes.len() as int;
    let used = header_bytes + seq![0u8] + payload;
    law_rounded_up(used.len() as int, sector_size, 0);
    assert(header_end(buf, end)) by {
        assert forall|j: int| 0 <= j < end implies #[trigger] buf[j] != 0 by {
            assert(buf[j] == header_bytes[j]);
        }
    }
    assert(buf.take(end) =~= header_bytes);
    assert(payload_of(buf, end, header) =~= payload);
}

fn append(dst: &mut Vec<u8>, src: &Vec<u8>)
    ensures
        final(dst)@ == old(dst)@ + src@,
{
    let ghost d0 = dst@;
    let mut i: usize = 0;
    while i < src.len()
        invariant
            i <= src@.len(),
            dst@ == d0 + src@.take(i as int),
        decreases src@.len() - i,
    {
        dst.push(src[i]);
        i += 1;
        assert(dst@ =~= d0 + src@.take(i as int));
    }
    assert(src@.take(i as int) =~= src@);
}

/// Puts a chunk together.
pub fn frame_chunk(header: &Vec<u8>, payload: &Vec<u8>, sector_size: usize) -> (r: Vec<u8>)
    requires
        sector_size > 0,
        rounded_up(header@.len() + 1 + payload@.len() as int, sector_size as int) <= usize::MAX,
    ensures
        r@ == framed(header@, payload@, sector_size as int),
{
    let mut r: Vec<u8> = Vec::new();
    append(&mut r, header);
    r.push(0);
    append(&mut r, payload);
    let ghost used = header@ + seq![0u8] + payload@;
    proof {
        assert(r@ =~= used);
        law_rounded_up(used.len() as int, sector_size as int, 0);
    }
    let len: usize = round_up_usize(r.len(), sector_size);
    while r.len() < len
        invariant
            used.len() <= r@.len() <= len,
            r@ == used + Seq::new((r@.len() - used.len()) as nat, |i: int| 0u8),
        decreases len - r@.len(),
    {
        let ghost n = r@.len();
        r.push(0);
        assert(r@ =~= used + Seq::new((n + 1 - used.len()) as nat, |i: int| 0u8));
    }
    r
}

fn round_up_usize(x: usize, z: usize) -> (r: usize)
    requires
        z > 0,
        rounded_up(x as int, z as int) <= usize::MAX,
    ensures
        r == rounded_up(x as int, z as int),
{
    let rest = x % z;
    assert(rest <= x) by (nonlinear_arith)
        requires
            rest == x % z,
            z > 0,
    ;
    if rest == 0 {
        x
    } else {
        x - rest + z
    }
}

/// The bucket of a value: the first is for values up to one, and each is for values up to twice
/// those of the one before. The last takes all the rest.
pub open spec fn is_bucket(value: int, buckets: int, r: int) -> bool {
    &&& 0 <= r < buckets
    &&& r < buckets - 1 ==> value <= vstd::arithmetic::power2::pow2(r as nat)
    &&& r > 0 ==> vstd::arithmetic::power2::pow2((r - 1) as nat) < value
}

/// The bucket of a latency (in microseconds) or of a size (in sectors).
pub fn histogram_bucket(value: u64, buckets: usize) -> (r: usize)
    requires
        buckets > 0,
    ensures
        is_bucket(value as int, buckets as int, r as int),
{
    let mut r: usize = 0;
    let mut limit: u64 = 1;
    proof {
        vstd::arithmetic::power2::lemma2_to64();
    }
    while r + 1 < buckets && limit < value
        invariant
            r < buckets,
            limit == vstd::arithmetic::power2::pow2(r as nat),
            r > 0 ==> vstd::arithmetic::power2::pow2((r - 1) as nat) < value,
        decreases buckets - r,
    {
        proof {
            vstd::arithmetic::power2::lemma_pow2_unfold((r + 1) as nat);
        }
        if limit > u64::MAX / 2 {
            // the next limit is beyond all values
            return r + 1;
        }
        limit = limit * 2;
        r += 1;
    }
    r
}

/// A disk of the cache.
pub struct Disk {
    /// Where the disk was said to be.
    pub path: String,
    /// Where it is.
    pub canonical_path: String,
    pub size: u64,
    pub sector_size: usize,
}

/// The disks of the cache.
pub struct BlockAccess {
    pub sector_size: usize,
    pub disks: Vec<Disk>,
    pub readonly: bool,
}

/// Why a disk cannot be added, expanded or found.
#[derive(Debug, Clone, Copy, PartialEq, Eq, Structural)]
pub enum DiskError {
    /// The disk is part of the cache already.
    AlreadyPresent(DiskId),
    /// The disk has become smaller.
    SizeDecreased { size: u64, new_size: u64 },
    /// No disk of the cache has the path.
    NotPresent,
    /// There are as many disks as there can be.
    TooMany,
}

/// The sum of the sizes of the disks.
pub open spec fn total_size(disks: Seq<Disk>) -> int
    decreases disks.len(),
{
    if disks.len() == 0 {
        0
    } else {
        total_size(disks.drop_last()) + disks.last().size
    }
}

proof fn lemma_total_size(disks: Seq<Disk>, n: int)
    requires
        0 <= n <= disks.len(),
    ensures
        0 <= total_size(disks.take(n)) <= total_size(disks),
    decreases disks.len(),
{
    if n == disks.len() {
        assert(disks.take(n) =~= disks);
        if n > 0 {
            lemma_total_size(disks.drop_last(), n - 1);
        }
    } else {
        lemma_total_size(disks.drop_last(), n);
        assert(disks.drop_last().take(n) =~= disks.take(n));
    }
}

impl BlockAccess {
    /// The disks have the same sector size, and no path occurs twice.
    pub open spec fn wf(&self) -> bool {
        &&& self.sector_size > 0
        &&& self.disks@.len() <= MAX_DISK_ID + 1
        &&& forall|i: int|
            0 <= i < self.disks@.len() ==> (#[trigger] self.disks@[i]).sector_size
                == self.sector_size
        &&& forall|i: int, j: int|
            0 <= i < j < self.disks@.len() ==> (#[trigger] self.disks@[i]).canonical_path@ != (
            #[trigger] self.disks@[j]).canonical_path@
    }

    /// The disk with the path.
    pub open spec fn has_path(&self, canonical_path: Seq<char>, i: int) -> bool {
        &&& 0 <= i < self.disks@.len()
        &&& self.disks@[i].canonical_path@ == canonical_path
    }

    pub fn new(disks: Vec<Disk>, readonly: bool) -> (r: Self)
        requires
            0 < disks@.len() <= MAX_DISK_ID + 1,
            disks@[0].sector_size > 0,
            forall|i: int|
                0 <= i < disks@.len() ==> (#[trigger] disks@[i]).sector_size
                    == disks@[0].sector_size,
            forall|i: int, j: int|
                0 <= i < j < disks@.len() ==> (#[trigger] disks@[i]).canonical_path@ != (
                #[trigger] disks@[j]).canonical_path@,
        ensures
            r.wf(),
            r.disks == disks,
            r.readonly == readonly,
            r.sector_size == disks@[0].sector_size,
    {
        let sector_size = disks[0].sector_size;
        BlockAccess { sector_size, disks, readonly }
    }

    /// Adds a disk. It must not be part of the cache already.
    pub fn add_disk(&mut self, disk: Disk) -> (r: Result<DiskId, DiskError>)
        requires
            old(self).wf(),
            disk.sector_size == old(self).sector_size,
        ensures
            final(self).wf(),
            final(self).sector_size == old(self).sector_size,
            final(self).readonly == old(self).readonly,
            match r {
                Ok(id) => {
                    &&& id.wf()
                    &&& id.0 == old(self).disks@.len()
                    &&& final(self).disks@ == old(self).disks@.push(disk)
                    &&& forall|i: int| !#[trigger] old(self).has_path(disk.canonical_path@, i)
                },
                Err(DiskError::AlreadyPresent(id)) => {
                    &&& *final(self) == *old(self)
                    &&& old(self).has_path(disk.canonical_path@, id.0 as int)
                },
                Err(e) => {
                    &&& e == DiskError::TooMany
                    &&& *final(self) == *old(self)
                    &&& old(self).disks@.len() == MAX_DISK_ID + 1
                    &&& forall|i: int| !#[trigger] old(self).has_path(disk.canonical_path@, i)
                },
            },
    {
        if let Some(id) = self.find_path(&disk.canonical_path) {
            return Err(DiskError::AlreadyPresent(id));
        }
        if self.disks.len() > 510 {
            return Err(DiskError::TooMany);
        }
        let ghost d0 = self.disks@;
        let id = DiskId::new(self.disks.len());
        self.disks.push(disk);
        proof {
            let d = self.disks@;
            assert forall|i: int, j: int| 0 <= i < j < d.len() implies (
            #[trigger] d[i]).canonical_path@ != (#[trigger] d[j]).canonical_path@ by {
                if j == d0.len() {
                    assert(!old(self).has_path(disk.canonical_path@, i));
                } else {
                    assert(d0[i].canonical_path@ != d0[j].canonical_path@);
                }
            }
        }
        Ok(id)
    }

    fn find_path(&self, canonical_path: &String) -> (r: Option<DiskId>)
        requires
            self.wf(),
        ensures
            match r {
                Some(id) => id.wf() && self.has_path(canonical_path@, id.0 as int),
                None => forall|i: int| !#[trigger] self.has_path(canonical_path@, i),
            },
    {
        let mut i: usize = 0;
        while i < self.disks.len()
            invariant
                self.wf(),
                i <= self.disks@.len(),
                forall|j: int| j < i ==> !#[trigger] self.has_path(canonical_path@, j),
            decreases self.disks@.len() - i,
        {
            if self.disks[i].canonical_path == *canonical_path {
                return Some(DiskId::new(i));
            }
            i += 1;
        }
        None
    }

    /// The disk at a path.
    pub fn path_to_disk_id(&self, canonical_path: &String) -> (r: Result<DiskId, DiskError>)
        requires
            self.wf(),
        ensures
            match r {
                Ok(id) => id.wf() && self.has_path(canonical_path@, id.0 as int),
                Err(e) => {
                    &&& e == DiskError::NotPresent
                    &&& forall|i: int| !#[trigger] self.has_path(canonical_path@, i)
                },
            },
    {
        match self.find_path(canonical_path) {
            Some(id) => Ok(id),
            None => Err(DiskError::NotPresent),
        }
    }

    /// Takes note of the size that a disk has now. Returns by how much it has grown.
    pub fn expand_disk(&mut self, disk: DiskId, new_size: u64) -> (r: Result<u64, DiskError>)
        requires
            old(self).wf(),
            disk.0 < old(self).disks@.len(),
        ensures
            final(self).wf(),
            ({
                let d = old(self).disks@[disk.0 as int];
                match r {
                    Ok(added) => {
                        &&& added == new_size - d.size
                        &&& *final(self) == (BlockAccess {
                            disks: final(self).disks,
                            ..*old(self)
                        })
                        &&& final(self).disks@ == old(self).disks@.update(
                            disk.0 as int,
                            (Disk { size: new_size, ..d }),
                        )
                    },
                    Err(e) => {
                        &&& new_size < d.size
                        &&& e == DiskError::SizeDecreased { size: d.size, new_size }
                        &&& *final(self) == *old(self)
                    },
                }
            }),
    {
        let i = disk.index();
        let size: u64 = self.disks[i].size;
        match new_size.checked_sub(size) {
            Some(added) => {
                let ghost d0 = self.disks@;
                self.disks[i].size = new_size;
                proof {
                    let d = self.disks@;
                    assert(d =~= d0.update(i as int, (Disk { size: new_size, ..d0[i as int] })));
                    assert forall|x: int, y: int| 0 <= x < y < d.len() implies (
                    #[trigger] d[x]).canonical_path@ != (#[trigger] d[y]).canonical_path@ by {
                        assert(d0[x].canonical_path@ != d0[y].canonical_path@);
                    }
                    assert forall|x: int| 0 <= x < d.len() implies (
                    #[trigger] d[x]).sector_size == self.sector_size by {
                        assert(d0[x].sector_size == self.sector_size);
                    }
                }
                Ok(added)
            },
            None => Err(DiskError::SizeDecreased { size, new_size }),
        }
    }

    /// The disks in order.
    pub fn disks(&self) -> (r: Vec<DiskId>)
        requires
            self.wf(),
        ensures
            r@.len() == self.disks@.len(),
            forall|i: int| 0 <= i < r@.len() ==> (#[trigger] r@[i]).0 == i && r@[i].wf(),
    {
        let mut r: Vec<DiskId> = Vec::new();
        let mut i: usize = 0;
        while i < self.disks.len()
            invariant
                self.wf(),
                i <= self.disks@.len(),
                r@.len() == i,
                forall|k: int| 0 <= k < i ==> (#[trigger] r@[k]).0 == k && r@[k].wf(),
            decreases self.disks@.len() - i,
        {
            r.push(DiskId::new(i));
            i += 1;
        }
        r
    }

    pub fn disk_size(&self, disk: DiskId) -> (r: u64)
        requires
            disk.0 < self.disks@.len(),
        ensures
            r == self.disks@[disk.0 as int].size,
    {
        self.disks[disk.index()].size
    }

    pub fn disk_extent(&self, disk: DiskId) -> (r: Extent)
        requires
            disk.wf(),
            disk.0 < self.disks@.len(),
        ensures
            r == Extent::at(disk.0 as int, 0, self.disks@[disk.0 as int].size as int),
    {
        Extent { location: DiskLocation::new(disk, 0), size: self.disk_size(disk) }
    }

    pub fn disk_path(&self, disk: DiskId) -> (r: &String)
        requires
            disk.0 < self.disks@.len(),
        ensures
            *r == self.disks@[disk.0 as int].path,
    {
        &self.disks[disk.index()].path
    }

    pub fn total_capacity(&self) -> (r: u64)
        requires
            total_size(self.disks@) <= u64::MAX,
        ensures
            r == total_size(self.disks@),
    {
        let mut total: u64 = 0;
        let mut i: usize = 0;
        assert(self.disks@.take(0) =~= Seq::<Disk>::empty());
        while i < self.disks.len()
            invariant
                i <= self.disks@.len(),
                total == total_size(self.disks@.take(i as int)),
                total_size(self.disks@) <= u64::MAX,
            decreases self.disks@.len() - i,
        {
            proof {
                lemma_total_size(self.disks@, i + 1);
                assert(self.disks@.take(i + 1).drop_last() =~= self.disks@.take(i as int));
            }
            total = total + self.disks[i].size;
            i += 1;
        }
        assert(self.disks@.take(i as int) =~= self.disks@);
        total
    }

    pub fn round_up_to_sector(&self, n: u64) -> (r: u64)
        requires
            self.wf(),
            rounded_up(n as int, self.sector_size as int) <= u64::MAX,
        ensures
            r == rounded_up(n as int, self.sector_size as int),
    {
        let z: u64 = self.sector_size as u64;
        let rest = n % z;
        assert(rest <= n) by (nonlinear_arith)
            requires
                rest == n % z,
                z > 0,
        ;
        if rest == 0 {
            n
        } else {
            n - rest + z
        }
    }

    /// Whether `n` is a whole number of sectors, as what is read and written has to be.
    pub fn verify_aligned(&self, n: u64) -> (r: bool)
        requires
            self.wf(),
        ensures
            r <==> n as int % self.sector_size as int == 0,
    {
        n % (self.sector_size as u64) == 0
    }

    /// A chunk with the given header and payload.
    pub fn chunk_to_raw(&self, header: &Vec<u8>, payload: &Vec<u8>) -> (r: Vec<u8>)
        requires
            self.wf(),
            rounded_up(header@.len() + 1 + payload@.len() as int, self.sector_size as int)
                <= usize::MAX,
        ensures
            r@ == framed(header@, payload@, self.sector_size as int),
    {
        frame_chunk(header, payload, self.sector_size)
    }

    /// As `chunk_from_raw_impl`; what was used is counted in whole sectors.
    pub fn chunk_from_raw(&self, buf: &Vec<u8>, header_len: usize, header: &BlockHeader) -> (r:
        Result<(Vec<u8>, u64), ChunkError>)
        requires
            self.wf(),
            header_end(buf@, header_len as int),
            rounded_up(buf@.len() as int, self.sector_size as int) <= u64::MAX,
        ensures
            match r {
                Ok((contents, consumed)) => {
                    &&& chunk_fault(buf@, header_len as int, *header) is None
                    &&& contents_of(
                        payload_of(buf@, header_len as int, *header),
                        header.compression,
                    ) == Some(contents@)
                    &&& consumed == rounded_up(
                        header_len + 1 + header.payload_size,
                        self.sector_size as int,
                    )
                },
                Err(e) => chunk_fault(buf@, header_len as int, *header) == Some(e),
            },
    {
        match chunk_from_raw_impl(buf, header_len, header) {
            Ok((contents, consumed)) => {
                proof {
                    let z = self.sector_size as int;
                    law_rounded_up(buf@.len() as int, z, 0);
                    law_rounded_up(consumed as int, z, rounded_up(buf@.len() as int, z));
                }
                let total = self.round_up_to_sector(consumed as u64);
                Ok((contents, total))
            },
            Err(e) => Err(e),
        }
    }
}

/// Which of the writer threads of a disk writes at an offset. Threads take turns by parts of the
/// disk, so that the writes to one slab are spread over several threads.
/// The parts have `write_chunk` bytes each.
pub fn writer_for(offset: u64, threads: usize, write_chunk: u64) -> (r: usize)
    requires
        threads > 0,
        write_chunk > 0,
    ensures
        r == (offset as int / write_chunk as int) % threads as int,
        r < threads,
{
    ((offset / write_chunk) % (threads as u64)) as usize
}

/// A chunk is refused if it is shorter than its header says; else if its checksum is another one
/// than the header says; else if it cannot be decompressed. The error says which it was.
pub proof fn law_damage_is_found(buf: Seq<u8>, header_len: int, header: BlockHeader)
    requires
        0 <= header_len < buf.len(),
    ensures
        ({
            let rest = buf.skip(header_len + 1);
            let payload = rest.take(header.payload_size as int);
            let fault = chunk_fault(buf, header_len, header);
            if rest.len() < header.payload_size {
                fault matches Some(ChunkError::TooShort { payload_size, remaining })
                    && payload_size == header.payload_size && (buf.len() <= usize::MAX
                    ==> remaining == rest.len())
            } else if seahash_of(payload) != header.checksum {
                fault == Some(
                    ChunkError::BadChecksum {
                        payload_size: header.payload_size,
                        expected: header.checksum,
                        actual: seahash_of(payload),
                    },
                )
            } else if header.compression is Lz4 && lz4_decoded(payload) is None {
                fault == Some(ChunkError::BadCompression)
            } else {
                fault is None
            }
        }),
{
    let rest = buf.skip(header_len + 1);
    if rest.len() >= header.payload_size {
        assert(payload_of(buf, header_len, header) =~= rest.take(header.payload_size as int));
    }
}

/// What is not compressed is what was written.
pub proof fn law_uncompressed_contents(payload: Seq<u8>)
    ensures
        contents_of(payload, CompressType::Uncompressed) == Some(payload),
        contents_of(payload, CompressType::Lz4) == lz4_decoded(payload),
{
}

/// A value has one bucket. The buckets end with the powers of two, and the last one has no end.
pub proof fn law_bucket_is_one(value: int, buckets: int, r: int, other: int)
    requires
        is_bucket(value, buckets, r),
        is_bucket(value, buckets, other),
    ensures
        r == other,
{
    if r < other {
        if r < other - 1 {
            vstd::arithmetic::power2::lemma_pow2_strictly_increases(r as nat, (other - 1) as nat);
        }
    } else if other < r {
        if other < r - 1 {
            vstd::arithmetic::power2::lemma_pow2_strictly_increases(other as nat, (r - 1) as nat);
        }
    }
}

/// A power of two is the last value of its bucket, and the next value is in the next bucket.
pub proof fn law_bucket_ends(buckets: int, r: int)
    requires
        0 <= r < buckets - 1,
    ensures
        is_bucket(vstd::arithmetic::power2::pow2(r as nat) as int, buckets, r),
        is_bucket((vstd::arithmetic::power2::pow2(r as nat) + 1) as int, buckets, r + 1),
{
    if r > 0 {
        vstd::arithmetic::power2::lemma_pow2_strictly_increases((r - 1) as nat, r as nat);
    }
    vstd::arithmetic::power2::lemma_pow2_strictly_increases(r as nat, (r + 1) as nat);
}

/// The size of all disks is that of each.
pub proof fn law_total_size(disks: Seq<Disk>, disk: Disk)
    ensures
        total_size(disks.push(disk)) == total_size(disks) + disk.size,
        total_size(Seq::empty()) == 0,
{
    assert(disks.push(disk).drop_last() =~= disks);
}

} // verus!
