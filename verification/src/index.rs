//! The index: which blocks are cached, and where.
use crate::base_types::{Atime, BlockId, DiskLocation, Extent};
use crate::block_based_log::summarized::{LogKey, SummarizedBlockBasedLogEntry};
use crate::pool_id::PoolId;
use vstd::bytes::*;
use vstd::prelude::*;

pub mod run;

verus! {

/// Identifies a cached block.
#[derive(Debug, Clone, Copy, PartialEq, Eq, Structural, PartialOrd, Ord, Hash)]
pub struct IndexKey {
    pub id: PoolId,
    pub block: BlockId,
}

impl IndexKey {
    pub fn new(id: PoolId, block: BlockId) -> (r: Self)
        ensures
            r.id == id,
            r.block == block,
    {
        IndexKey { id, block }
    }

    /// The place of the key in the order, by pool and then by block.
    pub open spec fn place(self) -> int {
        self.id.0 * 0x1_0000_0000_0000_0000 + self.block.0
    }

    /// Whether this key comes before the other.
    pub fn before(&self, other: &IndexKey) -> (r: bool)
        ensures
            r <==> self.place() < other.place(),
    {
        self.id.0 < other.id.0 || self.id.0 == other.id.0 && self.block.0 < other.block.0
    }
}

/// Different keys have different places.
pub proof fn law_key_order(a: IndexKey, b: IndexKey)
    ensures
        a.place() == b.place() <==> a == b,
{
}

impl LogKey for IndexKey {
    open spec fn rank(&self) -> int {
        self.place()
    }

    fn less(&self, other: &Self) -> (r: bool) {
        self.before(other)
    }
}

/// Where a block is and when it was accessed. A block without a location has been evicted.
#[derive(Debug, Clone, Copy, PartialEq, Eq, Structural)]
pub struct IndexValue {
    pub location: Option<DiskLocation>,
    pub sectors: u16,
    pub atime: Atime,
}

impl IndexValue {
    pub open spec fn spec_size(self) -> int {
        self.sectors * 512
    }

    pub fn new(location: Option<DiskLocation>, size: u32, atime: Atime) -> (r: Self)
        requires
            size % 512 == 0,
            size / 512 <= u16::MAX,
        ensures
            r.location == location,
            r.spec_size() == size,
            r.atime == atime,
    {
        IndexValue { location, sectors: (size / 512) as u16, atime }
    }

    pub fn extent(&self) -> (r: Option<Extent>)
        ensures
            r == match self.location {
                Some(location) => Some(Extent { location, size: self.spec_size() as u64 }),
                None => None,
            },
    {
        match self.location {
            Some(location) => Some(Extent { location, size: self.size() as u64 }),
            None => None,
        }
    }

    pub fn size(&self) -> (r: u32)
        ensures
            r == self.spec_size(),
    {
        self.sectors as u32 * 512
    }

    pub fn atime(&self) -> (r: Atime)
        ensures
            r == self.atime,
    {
        self.atime
    }

    pub fn location(&self) -> (r: Option<DiskLocation>)
        ensures
            r == self.location,
    {
        self.location
    }

    pub fn set_location(&mut self, location: Option<DiskLocation>)
        ensures
            *final(self) == (IndexValue { location, ..*old(self) }),
    {
        self.location = location;
    }
}

#[derive(Debug, Clone, Copy, PartialEq, Eq, Structural)]
pub struct IndexEntry {
    pub key: IndexKey,
    pub value: IndexValue,
}

impl SummarizedBlockBasedLogEntry for IndexEntry {
    type Key = IndexKey;

    open spec fn spec_key(&self) -> IndexKey {
        self.key
    }

    fn key(&self) -> (r: IndexKey) {
        self.key
    }
}

/// The bytes of an entry on disk: pool, block, location (zero if there is none), sectors, atime.
pub open spec fn entry_bytes(e: IndexEntry) -> Seq<u8> {
    seq![e.key.id.0] + spec_u64_to_le_bytes(e.key.block.0) + spec_u64_to_le_bytes(
        match e.value.location {
            Some(location) => location.raw,
            None => 0,
        },
    ) + spec_u16_to_le_bytes(e.value.sectors) + spec_u32_to_le_bytes(e.value.atime.0)
}

/// The number of bytes of an entry.
pub const INDEX_ENTRY_BYTES: usize = 23;

/// Appends the bytes of `src`.
fn push_all(dst: &mut Vec<u8>, src: &Vec<u8>)
    ensures
        final(dst)@ == old(dst)@ + src@,
{
    let ghost d0 = dst@;
    let mut i: usize = 0;
    while i < src.len()
        invariant
            i <= src@.len(),
            dst@ == d0 + src@.take(i as int),
        decreases src@.len() - i,
    {
        dst.push(src[i]);
        i += 1;
        assert(src@.take(i as int) =~= src@.take(i - 1).push(src@[i - 1]));
        assert(dst@ =~= d0 + src@.take(i as int));
    }
    assert(src@.take(i as int) =~= src@);
}

impl IndexEntry {
    /// What is written to disk.
    pub fn to_bytes(&self) -> (r: Vec<u8>)
        ensures
            r@ == entry_bytes(*self),
            r@.len() == INDEX_ENTRY_BYTES,
    {
        proof {
            lemma_auto_spec_u64_to_from_le_bytes();
            lemma_auto_spec_u32_to_from_le_bytes();
            lemma_auto_spec_u16_to_from_le_bytes();
        }
        let mut r: Vec<u8> = Vec::new();
        r.push(self.key.id.0);
        assert(r@ =~= seq![self.key.id.0]);
        push_all(&mut r, &u64_to_le_bytes(self.key.block.0));
        let raw: u64 = match self.value.location {
            Some(location) => location.raw,
            None => 0,
        };
        push_all(&mut r, &u64_to_le_bytes(raw));
        push_all(&mut r, &u16_to_le_bytes(self.value.sectors));
        push_all(&mut r, &u32_to_le_bytes(self.value.atime.0));
        r
    }

    /// The entry that the bytes encode.
    pub fn from_bytes(bytes: &[u8]) -> (r: IndexEntry)
        requires
            bytes@.len() == INDEX_ENTRY_BYTES,
        ensures
            entry_bytes(r) == bytes@,
            r.value.location matches Some(location) ==> location.raw != 0,
    {
        proof {
            lemma_auto_spec_u64_to_from_le_bytes();
            lemma_auto_spec_u32_to_from_le_bytes();
            lemma_auto_spec_u16_to_from_le_bytes();
        }
        let block = u64_from_le_bytes(vstd::slice::slice_subrange(bytes, 1, 9));
        let raw: u64 = u64_from_le_bytes(vstd::slice::slice_subrange(bytes, 9, 17));
        let sectors = u16_from_le_bytes(vstd::slice::slice_subrange(bytes, 17, 19));
        let atime = u32_from_le_bytes(vstd::slice::slice_subrange(bytes, 19, 23));
        let location = if raw == 0 {
            None
        } else {
            Some(DiskLocation::from_raw(raw))
        };
        let r = IndexEntry {
            key: IndexKey { id: PoolId(bytes[0]), block: BlockId(block) },
            value: IndexValue { location, sectors, atime: Atime(atime) },
        };
        assert(entry_bytes(r) =~= bytes@);
        r
    }
}

/// An entry read back is the entry that was written. A location is never zero.
pub proof fn law_entry_round_trip(a: IndexEntry, b: IndexEntry)
    requires
        entry_bytes(a) == entry_bytes(b),
        a.value.location matches Some(location) ==> location.raw != 0,
        b.value.location matches Some(location) ==> location.raw != 0,
    ensures
        a == b,
{
    lemma_auto_spec_u64_to_from_le_bytes();
    lemma_auto_spec_u32_to_from_le_bytes();
    lemma_auto_spec_u16_to_from_le_bytes();
    let s = entry_bytes(a);
    let raw_a = match a.value.location {
        Some(location) => location.raw,
        None => 0,
    };
    let raw_b = match b.value.location {
        Some(location) => location.raw,
        None => 0,
    };
    assert(s[0] == a.key.id.0);
    assert(entry_bytes(b)[0] == b.key.id.0);
    assert(s.subrange(1, 9) =~= spec_u64_to_le_bytes(a.key.block.0));
    assert(s.subrange(1, 9) =~= spec_u64_to_le_bytes(b.key.block.0));
    assert(s.subrange(9, 17) =~= spec_u64_to_le_bytes(raw_a));
    assert(s.subrange(9, 17) =~= spec_u64_to_le_bytes(raw_b));
    assert(s.subrange(17, 19) =~= spec_u16_to_le_bytes(a.value.sectors));
    assert(s.subrange(17, 19) =~= spec_u16_to_le_bytes(b.value.sectors));
    assert(s.subrange(19, 23) =~= spec_u32_to_le_bytes(a.value.atime.0));
    assert(s.subrange(19, 23) =~= spec_u32_to_le_bytes(b.value.atime.0));
    assert(raw_a == raw_b);
}

/// Keys are in order of their pools, and those of one pool in order of their blocks.
pub proof fn law_keys_in_order(a: IndexKey, b: IndexKey)
    ensures
        a.place() < b.place() <==> a.id.0 < b.id.0 || a.id.0 == b.id.0 && a.block.0 < b.block.0,
{
}

/// An entry is stored as its pool, its block, its location, its size in sectors and its access
/// time, the least significant byte of each first. A location of zero stands for none.
pub proof fn law_entry_layout(e: IndexEntry)
    ensures
        entry_bytes(e).len() == 23,
        entry_bytes(e)[0] == e.key.id.0,
        entry_bytes(e).subrange(1, 9) == spec_u64_to_le_bytes(e.key.block.0),
        e.value.location matches Some(location) ==> entry_bytes(e).subrange(9, 17)
            == spec_u64_to_le_bytes(location.raw),
        e.value.location is None ==> entry_bytes(e).subrange(9, 17) == spec_u64_to_le_bytes(0),
        entry_bytes(e).subrange(17, 19) == spec_u16_to_le_bytes(e.value.sectors),
        entry_bytes(e).subrange(19, 23) == spec_u32_to_le_bytes(e.value.atime.0),
{
    lemma_auto_spec_u64_to_from_le_bytes();
    lemma_auto_spec_u32_to_from_le_bytes();
    lemma_auto_spec_u16_to_from_le_bytes();
    let s = entry_bytes(e);
    let raw = match e.value.location {
        Some(location) => location.raw,
        None => 0,
    };
    assert(s.subrange(1, 9) =~= spec_u64_to_le_bytes(e.key.block.0));
    assert(s.subrange(9, 17) =~= spec_u64_to_le_bytes(raw));
    assert(s.subrange(17, 19) =~= spec_u16_to_le_bytes(e.value.sectors));
    assert(s.subrange(19, 23) =~= spec_u32_to_le_bytes(e.value.atime.0));
}

} // verus!
