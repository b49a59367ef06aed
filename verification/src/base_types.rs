//! Identifiers, disk locations and extents.
use std::ops::Add;
use std::ops::Sub;
use vstd::prelude::*;

verus! {

/// Size of the unit in which disk offsets and sizes are counted.
pub const SECTOR: u64 = 512;

/// Number of distinct sector numbers that fit beside the disk number in a `DiskLocation`.
pub const SECTORS_PER_DISK: u64 = 0x80_0000_0000_0000;

pub open spec fn is_digit(c: char) -> bool {
    '0' <= c && c <= '9'
}

/// The number written by a sequence of decimal digits, most significant first.
pub open spec fn digits_value(s: Seq<char>) -> nat
    decreases s.len(),
{
    if s.len() == 0 {
        0
    } else {
        digits_value(s.drop_last()) * 10 + (s.last() as nat - '0' as nat) as nat
    }
}

pub open spec fn all_digits(s: Seq<char>) -> bool {
    forall|i: int| 0 <= i < s.len() ==> is_digit(#[trigger] s[i])
}

/// The value of a decimal number with an optional leading plus sign; `None` if the text is
/// anything else or the value does not fit in 64 bits.
pub open spec fn decimal_value(s: Seq<char>) -> Option<u64> {
    let digits = if s.len() > 1 && s[0] == '+' {
        s.subrange(1, s.len() as int)
    } else {
        s
    };
    if digits.len() > 0 && all_digits(digits) && digits_value(digits) <= u64::MAX {
        Some(digits_value(digits) as u64)
    } else {
        None
    }
}

/// `<u64 as std::str::FromStr>::from_str`: decimal digits after an optional `+`, and an error
/// for any other text, the empty one and an out-of-range value among them.
#[verifier::external_body]
fn parse_u64(s: &str) -> (value: Option<u64>)
    ensures
        value == decimal_value(s@),
{
    s.parse::<u64>().ok()
}

/// `std::fmt` of an unsigned integer with the zero flag and a width of twenty: decimal digits,
/// left-padded with zeros. No 64-bit value has more than twenty digits.
#[verifier::external_body]
fn format_padded_20(value: u64) -> (text: String)
    ensures
        text@.len() == 20,
        all_digits(text@),
        digits_value(text@) == value,
{
    format!("{:020}", value)
}

/// `std::fmt` of an unsigned integer with the zero flag and a width of five. No 16-bit value
/// has more than five digits.
#[verifier::external_body]
fn format_padded_5(value: u16) -> (text: String)
    ensures
        text@.len() == 5,
        all_digits(text@),
        digits_value(text@) == value,
{
    format!("{:05}", value)
}

/// `std::fmt` of an unsigned integer: decimal digits without a leading zero (but `0` itself).
#[verifier::external_body]
fn format_u64(value: u64) -> (text: String)
    ensures
        text@.len() > 0,
        all_digits(text@),
        digits_value(text@) == value,
        text@.len() > 1 ==> text@[0] != '0',
{
    format!("{}", value)
}

/// `rand::random`: a value drawn by the thread's generator. Nothing is promised of it.
#[verifier::external_body]
fn random_u64() -> u64 {
    rand::random::<u64>()
}

/// Identifies a storage pool.
#[derive(Debug, Clone, Copy, PartialEq, Eq, Structural, PartialOrd, Ord, Hash)]
pub struct PoolGuid(pub u64);

impl PoolGuid {
    /// The guid as twenty decimal digits.
    pub fn to_text(&self) -> (text: String)
        ensures
            text@.len() == 20,
            all_digits(text@),
            digits_value(text@) == self.0,
    {
        format_padded_20(self.0)
    }
}

/// Identifies a cache, on every disk that belongs to it.
#[derive(Debug, Clone, Copy, PartialEq, Eq, Structural, Hash)]
pub struct CacheGuid(pub u64);

impl CacheGuid {
    /// A random guid. Any 64-bit value may come out.
    pub fn new() -> Self {
        CacheGuid(random_u64())
    }

    /// Reads a guid in decimal; `None` if the text is not a number of 64 bits.
    pub fn from_text(s: &str) -> (guid: Option<CacheGuid>)
        ensures
            guid == (match decimal_value(s@) {
                Some(v) => Some(CacheGuid(v)),
                None => None,
            }),
    {
        match parse_u64(s) {
            Some(v) => Some(CacheGuid(v)),
            None => None,
        }
    }
}

/// Identifies one disk of a cache.
#[derive(Debug, Clone, Copy, PartialEq, Eq, Structural, PartialOrd, Ord, Hash)]
pub struct DiskGuid(pub u64);

impl DiskGuid {
    /// A random guid. Any 64-bit value may come out.
    pub fn new() -> Self {
        DiskGuid(random_u64())
    }
}

/// Identifies a block of a pool.
#[derive(Debug, Clone, Copy, PartialEq, Eq, Structural, PartialOrd, Ord, Hash)]
pub struct BlockId(pub u64);

impl BlockId {
    pub fn next(&self) -> (r: BlockId)
        requires
            self.0 < u64::MAX,
        ensures
            r.0 == self.0 + 1,
    {
        BlockId(self.0 + 1)
    }

    /// The id in decimal.
    pub fn to_text(&self) -> (text: String)
        ensures
            text@.len() > 0,
            all_digits(text@),
            digits_value(text@) == self.0,
            text@.len() > 1 ==> text@[0] != '0',
    {
        format_u64(self.0)
    }
}

impl Sub<BlockId> for BlockId {
    type Output = u64;

    fn sub(self, rhs: BlockId) -> u64 {
        self.0 - rhs.0
    }
}

impl vstd::std_specs::ops::SubSpecImpl<BlockId> for BlockId {
    open spec fn obeys_sub_spec() -> bool {
        true
    }

    open spec fn sub_req(self, rhs: BlockId) -> bool {
        rhs.0 <= self.0
    }

    open spec fn sub_spec(self, rhs: BlockId) -> u64 {
        (self.0 - rhs.0) as u64
    }
}

impl Add<usize> for BlockId {
    type Output = BlockId;

    fn add(self, rhs: usize) -> BlockId {
        BlockId(self.0 + rhs as u64)
    }
}

impl vstd::std_specs::ops::AddSpecImpl<usize> for BlockId {
    open spec fn obeys_add_spec() -> bool {
        true
    }

    open spec fn add_req(self, rhs: usize) -> bool {
        self.0 + rhs <= u64::MAX
    }

    open spec fn add_spec(self, rhs: usize) -> BlockId {
        BlockId((self.0 + rhs) as u64)
    }
}

/// The number of a disk within its cache.
#[derive(Debug, Clone, Copy, PartialEq, Eq, Structural, PartialOrd, Ord, Hash)]
pub struct DiskId(pub u16);

/// The disk number plus one has to fit into the nine bits that a `DiskLocation` has for it.
pub const MAX_DISK_ID: u16 = 510;

impl DiskId {
    pub open spec fn wf(self) -> bool {
        self.0 <= MAX_DISK_ID
    }

    pub fn new(value: usize) -> (r: Self)
        requires
            value <= MAX_DISK_ID,
        ensures
            r.wf(),
            r.0 == value,
    {
        DiskId(value as u16)
    }

    pub fn index(self) -> (r: usize)
        ensures
            r == self.0,
    {
        self.0 as usize
    }

    pub fn next(&self) -> (r: DiskId)
        requires
            self.0 < u16::MAX,
        ensures
            r.0 == self.0 + 1,
    {
        DiskId(self.0 + 1)
    }
}

/// A disk and a sector-aligned byte offset on it, packed into one word: the disk number plus one
/// in the high nine bits, the sector number in the rest. So a location is never zero, and the
/// order of the words is the order by disk and then by offset.
#[derive(Debug, Clone, Copy, PartialEq, Eq, Structural, PartialOrd, Ord, Hash)]
pub struct DiskLocation {
    pub raw: u64,
}

impl DiskLocation {
    pub open spec fn wf(self) -> bool {
        self.raw >= SECTORS_PER_DISK
    }

    /// The disk number.
    pub open spec fn disk_no(self) -> int {
        self.raw as int / SECTORS_PER_DISK as int - 1
    }

    /// The byte offset.
    pub open spec fn off(self) -> int {
        (self.raw as int % SECTORS_PER_DISK as int) * 512
    }

    /// The location at a given byte offset of a disk.
    pub open spec fn at(disk: int, offset: int) -> DiskLocation {
        DiskLocation { raw: ((disk + 1) * SECTORS_PER_DISK + offset / 512) as u64 }
    }

    pub fn new(disk: DiskId, offset: u64) -> (r: Self)
        requires
            disk.wf(),
            offset % SECTOR == 0,
        ensures
            r.wf(),
            r.disk_no() == disk.0,
            r.off() == offset,
            r == DiskLocation::at(disk.0 as int, offset as int),
    {
        DiskLocation { raw: (disk.0 as u64 + 1) * SECTORS_PER_DISK + offset / SECTOR }
    }

    pub fn disk(&self) -> (r: DiskId)
        requires
            self.wf(),
        ensures
            r.wf(),
            r.0 == self.disk_no(),
    {
        DiskId((self.raw / SECTORS_PER_DISK - 1) as u16)
    }

    pub fn offset(&self) -> (r: u64)
        ensures
            r == self.off(),
            r % SECTOR == 0,
    {
        (self.raw % SECTORS_PER_DISK) * SECTOR
    }

    /// The location that `raw` encodes; zero encodes none.
    pub fn from_raw(raw: u64) -> (r: Self)
        requires
            raw != 0,
        ensures
            r.raw == raw,
    {
        DiskLocation { raw }
    }

    pub fn to_raw(&self) -> (r: u64)
        ensures
            r == self.raw,
    {
        self.raw
    }
}

/// A location read back gives the disk and the offset it was made of.
pub proof fn law_location_round_trip(disk: int, offset: int)
    requires
        0 <= disk <= MAX_DISK_ID,
        0 <= offset <= u64::MAX,
        offset % 512 == 0,
    ensures
        DiskLocation::at(disk, offset).wf(),
        DiskLocation::at(disk, offset).disk_no() == disk,
        DiskLocation::at(disk, offset).off() == offset,
{
}

/// A location is determined by its disk and its offset.
pub proof fn law_location_injective(a: DiskLocation, b: DiskLocation)
    requires
        a.disk_no() == b.disk_no(),
        a.off() == b.off(),
    ensures
        a == b,
{
}

/// A location is the one at its disk and offset.
pub proof fn law_location_at(a: DiskLocation)
    requires
        a.wf(),
    ensures
        DiskLocation::at(a.disk_no(), a.off()) == a,
{
}

/// Locations are ordered by disk first and then by offset.
pub proof fn law_location_order(a: DiskLocation, b: DiskLocation)
    ensures
        a.raw < b.raw <==> (a.disk_no() < b.disk_no() || (a.disk_no() == b.disk_no() && a.off()
            < b.off())),
{
}

impl Add<u64> for DiskLocation {
    type Output = DiskLocation;

    fn add(self, rhs: u64) -> DiskLocation {
        DiskLocation::new(self.disk(), self.offset() + rhs)
    }
}

impl vstd::std_specs::ops::AddSpecImpl<u64> for DiskLocation {
    open spec fn obeys_add_spec() -> bool {
        true
    }

    open spec fn add_req(self, rhs: u64) -> bool {
        self.wf() && rhs % SECTOR == 0 && self.off() + rhs <= u64::MAX
    }

    open spec fn add_spec(self, rhs: u64) -> DiskLocation {
        DiskLocation::at(self.disk_no(), self.off() + rhs)
    }
}

impl Sub<DiskLocation> for DiskLocation {
    type Output = u64;

    fn sub(self, rhs: DiskLocation) -> u64 {
        self.offset() - rhs.offset()
    }
}

impl vstd::std_specs::ops::SubSpecImpl<DiskLocation> for DiskLocation {
    open spec fn obeys_sub_spec() -> bool {
        true
    }

    open spec fn sub_req(self, rhs: DiskLocation) -> bool {
        self.disk_no() == rhs.disk_no() && rhs.off() <= self.off()
    }

    open spec fn sub_spec(self, rhs: DiskLocation) -> u64 {
        (self.off() - rhs.off()) as u64
    }
}

/// A contiguous range of bytes of one disk.
#[derive(Debug, Clone, Copy, PartialEq, Eq, Structural, PartialOrd, Ord)]
pub struct Extent {
    pub location: DiskLocation,
    pub size: u64,
}

impl Extent {
    /// The location is one, and the end of the extent is an offset.
    pub open spec fn wf(self) -> bool {
        &&& self.location.wf()
        &&& self.end() <= u64::MAX
    }

    /// Starts and ends on a sector boundary.
    pub open spec fn aligned(self) -> bool {
        self.size % SECTOR == 0
    }

    pub open spec fn disk_no(self) -> int {
        self.location.disk_no()
    }

    pub open spec fn start(self) -> int {
        self.location.off()
    }

    pub open spec fn end(self) -> int {
        self.location.off() + self.size
    }

    /// Whether the byte at `offset` of disk `disk` belongs to the extent.
    pub open spec fn has_byte(self, disk: int, offset: int) -> bool {
        self.disk_no() == disk && self.start() <= offset < self.end()
    }

    pub open spec fn spec_contains(self, sub: Extent) -> bool {
        &&& sub.disk_no() == self.disk_no()
        &&& self.start() <= sub.start()
        &&& sub.end() <= self.end()
    }

    pub open spec fn overlaps(self, other: Extent) -> bool {
        &&& other.disk_no() == self.disk_no()
        &&& other.start() < self.end()
        &&& self.start() < other.end()
    }

    pub open spec fn at(disk: int, offset: int, size: int) -> Extent {
        Extent { location: DiskLocation::at(disk, offset), size: size as u64 }
    }

    pub fn new(disk: DiskId, offset: u64, size: u64) -> (r: Extent)
        requires
            disk.wf(),
            offset % SECTOR == 0,
            size % SECTOR == 0,
        ensures
            r.location.wf(),
            r.aligned(),
            r.disk_no() == disk.0,
            r.start() == offset,
            r.size == size,
            r == Extent::at(disk.0 as int, offset as int, size as int),
    {
        Extent { location: DiskLocation::new(disk, offset), size }
    }

    /// The part of this extent of length `size` that starts `relative_offset` bytes into it.
    pub fn range(&self, relative_offset: u64, size: u64) -> (r: Extent)
        requires
            self.wf(),
            relative_offset % SECTOR == 0,
            relative_offset + size <= self.size,
        ensures
            r.wf(),
            r.disk_no() == self.disk_no(),
            r.start() == self.start() + relative_offset,
            r.size == size,
            r == Extent::at(self.disk_no(), self.start() + relative_offset, size as int),
    {
        Extent { location: self.location + relative_offset, size }
    }

    /// Trims the beginning off of this extent.
    pub fn trim_start(&self, relative_offset: u64) -> (r: Extent)
        requires
            self.wf(),
            relative_offset % SECTOR == 0,
            relative_offset <= self.size,
        ensures
            r.wf(),
            r.disk_no() == self.disk_no(),
            r.start() == self.start() + relative_offset,
            r.size == self.size - relative_offset,
            r.end() == self.end(),
    {
        Extent { location: self.location + relative_offset, size: self.size - relative_offset }
    }

    /// Reduces the size to the specified value. If it is larger than the extent's size, this
    /// is a no-op.
    pub fn trim_end(&self, size: u64) -> (r: Extent)
        ensures
            r.location == self.location,
            r.size == if size < self.size {
                size
            } else {
                self.size
            },
            r.size <= size && r.size <= self.size,
            r.size == size || r.size == self.size,
    {
        Extent { location: self.location, size: if size < self.size { size } else { self.size } }
    }

    /// Returns true if `sub` is entirely contained within this extent.
    pub fn contains(&self, sub: &Extent) -> (r: bool)
        requires
            self.wf(),
            sub.wf(),
        ensures
            r == self.spec_contains(*sub),
    {
        sub.location.disk() == self.location.disk() && sub.location.offset()
            >= self.location.offset() && sub.location.offset() + sub.size <= self.location.offset()
            + self.size
    }

    /// Returns the sub-range of self that is after `sub`, or None if self does not contain sub.
    pub fn after(&self, sub: &Extent) -> (r: Option<Extent>)
        requires
            self.wf(),
            sub.wf(),
            self.aligned(),
            sub.aligned(),
        ensures
            r is Some <==> self.spec_contains(*sub),
            r matches Some(e) ==> e.wf() && e.aligned() && e.disk_no() == self.disk_no()
                && e.start() == sub.end() && e.end() == self.end(),
    {
        if self.contains(sub) {
            let sub_end: u64 = sub.location.offset() + sub.size;
            Some(
                Extent::new(
                    self.location.disk(),
                    sub_end,
                    self.location.offset() + self.size - sub_end,
                ),
            )
        } else {
            None
        }
    }

    /// Joins two extents of which one ends where the other starts, in either order.
    pub fn merge(self, other: Extent) -> (r: Option<Extent>)
        requires
            self.wf(),
            other.wf(),
        ensures
            r == self.spec_merge(other),
            r matches Some(e) ==> e.wf(),
    {
        if other.location.disk() == self.location.disk() && other.location.offset()
            == self.location.offset() + self.size {
            // other is directly after self
            Some(Extent { location: self.location, size: self.size + other.size })
        } else if other.location.disk() == self.location.disk() && self.location.offset()
            == other.location.offset() + other.size {
            // self is directly after other
            Some(Extent { location: other.location, size: other.size + self.size })
        } else {
            None
        }
    }

    pub open spec fn spec_merge(self, other: Extent) -> Option<Extent> {
        if self.disk_no() == other.disk_no() && other.start() == self.end() {
            Some(Extent { location: self.location, size: (self.size + other.size) as u64 })
        } else if self.disk_no() == other.disk_no() && self.start() == other.end() {
            Some(Extent { location: other.location, size: (self.size + other.size) as u64 })
        } else {
            None
        }
    }
}

/// A merged extent holds the bytes of both of its parts and no others, and no byte was in both.
pub proof fn law_merge_bytes(a: Extent, b: Extent)
    requires
        a.wf(),
        b.wf(),
        a.spec_merge(b) is Some,
    ensures
        forall|d: int, o: int|
            a.spec_merge(b).unwrap().has_byte(d, o) <==> a.has_byte(d, o) || b.has_byte(d, o),
        forall|d: int, o: int| !(a.has_byte(d, o) && b.has_byte(d, o)),
{
}

/// Which of two extents is merged into which does not matter.
pub proof fn law_merge_symmetric(a: Extent, b: Extent)
    requires
        a.wf(),
        b.wf(),
    ensures
        a.spec_merge(b) == b.spec_merge(a),
{
    if a.spec_merge(b) is Some && a.start() == b.start() {
        law_location_injective(a.location, b.location);
    }
}

/// An extent contains another exactly if it has all the bytes of the other (one that has any).
pub proof fn law_contains_bytes(a: Extent, b: Extent)
    requires
        b.size > 0,
    ensures
        a.spec_contains(b) <==> forall|d: int, o: int| b.has_byte(d, o) ==> a.has_byte(d, o),
{
    if forall|d: int, o: int| b.has_byte(d, o) ==> a.has_byte(d, o) {
        assert(b.has_byte(b.disk_no(), b.start()));
        assert(b.has_byte(b.disk_no(), b.end() - 1));
        assert(a.has_byte(b.disk_no(), b.start()));
        assert(a.has_byte(b.disk_no(), b.end() - 1));
    }
}

/// The time of an access, counted in ticks.
#[derive(Debug, Clone, Copy, PartialEq, Eq, Structural, PartialOrd, Ord)]
pub struct Atime(pub u32);

impl Atime {
    pub fn next(&self) -> (r: Atime)
        requires
            self.0 < u32::MAX,
        ensures
            r.0 == self.0 + 1,
    {
        Atime(self.0 + 1)
    }

    pub fn checked_sub(&self, rhs: Self) -> (r: Option<usize>)
        ensures
            r == if rhs.0 <= self.0 {
                Some((self.0 - rhs.0) as usize)
            } else {
                None
            },
            r matches Some(d) ==> self.0 - rhs.0 <= usize::MAX ==> rhs.0 + d == self.0,
            r is None ==> self.0 < rhs.0,
    {
        if rhs.0 <= self.0 {
            Some((self.0 - rhs.0) as usize)
        } else {
            None
        }
    }
}

impl Default for Atime {
    fn default() -> (r: Atime)
        ensures
            r.0 == 0,
    {
        Atime(0)
    }
}

impl Sub<Atime> for Atime {
    type Output = usize;

    fn sub(self, rhs: Atime) -> usize {
        (self.0 - rhs.0) as usize
    }
}

impl vstd::std_specs::ops::SubSpecImpl<Atime> for Atime {
    open spec fn obeys_sub_spec() -> bool {
        true
    }

    open spec fn sub_req(self, rhs: Atime) -> bool {
        rhs.0 <= self.0
    }

    open spec fn sub_spec(self, rhs: Atime) -> usize {
        (self.0 - rhs.0) as usize
    }
}

impl Add<usize> for Atime {
    type Output = Atime;

    fn add(self, rhs: usize) -> Atime {
        Atime(self.0 + rhs as u32)
    }
}

impl vstd::std_specs::ops::AddSpecImpl<usize> for Atime {
    open spec fn obeys_add_spec() -> bool {
        true
    }

    open spec fn add_req(self, rhs: usize) -> bool {
        self.0 + rhs <= u32::MAX
    }

    open spec fn add_spec(self, rhs: usize) -> Atime {
        Atime((self.0 + rhs) as u32)
    }
}

/// Identifies one of the logs of a reclaim.
#[derive(Debug, Clone, Copy, PartialEq, Eq, Structural, PartialOrd, Ord)]
pub struct ReclaimLogId(pub u16);

impl ReclaimLogId {
    pub fn as_index(self) -> (r: usize)
        ensures
            r == self.0,
    {
        self.0 as usize
    }

    /// The id as five decimal digits, so that the texts of two ids sort as the ids do.
    pub fn to_text(&self) -> (text: String)
        ensures
            text@.len() == 5,
            all_digits(text@),
            digits_value(text@) == self.0,
    {
        format_padded_5(self.0)
    }
}

/// Two extents make one exactly if one of them starts where the other one ends. The one that they
/// make starts with the first of them, and is as large as both.
pub proof fn law_adjacent_extents_merge(a: Extent, b: Extent)
    requires
        a.wf(),
        b.wf(),
    ensures
        a.spec_merge(b) is Some <==> a.disk_no() == b.disk_no() && (a.end() == b.start() || b.end()
            == a.start()),
        a.spec_merge(b) matches Some(c) ==> c.disk_no() == a.disk_no() && c.size == a.size + b.size
            && (c.start() == a.start() || c.start() == b.start()) && c.start() <= a.start()
            && c.start() <= b.start(),
{
}

/// A number is made of digits only, but for a plus sign before them. It is none without a digit.
pub proof fn law_number_has_digits(s: Seq<char>)
    ensures
        s.len() == 0 ==> decimal_value(s) is None,
        s.len() == 1 && s[0] == '+' ==> decimal_value(s) is None,
        decimal_value(s) is Some ==> forall|i: int|
            0 <= i < s.len() ==> ('0' <= #[trigger] s[i] && s[i] <= '9') || (i == 0 && s[i] == '+'),
{
    if decimal_value(s) is Some {
        let digits = if s.len() > 1 && s[0] == '+' {
            s.subrange(1, s.len() as int)
        } else {
            s
        };
        assert(all_digits(digits));
        assert forall|i: int| 0 <= i < s.len() implies ('0' <= #[trigger] s[i] && s[i] <= '9') || (i
            == 0 && s[i] == '+') by {
            if s.len() > 1 && s[0] == '+' {
                if i > 0 {
                    assert(digits[i - 1] == s[i]);
                    assert(is_digit(digits[i - 1]));
                }
            } else {
                assert(is_digit(digits[i]));
            }
        }
    }
}

/// One more digit makes a number ten times as large, and adds the digit. A digit alone is the
/// number.
pub proof fn law_number_by_digits(s: Seq<char>, v: u64, c: char)
    requires
        '0' <= c && c <= '9',
    ensures
        decimal_value(seq![c]) == Some((c as u32 - '0' as u32) as u64),
        decimal_value(s) == Some(v) && v * 10 + (c as u32 - '0' as u32) <= u64::MAX
            ==> decimal_value(s.push(c)) == Some((v * 10 + (c as u32 - '0' as u32)) as u64),
        decimal_value(s) == Some(v) && v * 10 + (c as u32 - '0' as u32) > u64::MAX
            ==> decimal_value(s.push(c)) is None,
{
    reveal_with_fuel(digits_value, 2);
    assert(seq![c].drop_last() =~= Seq::<char>::empty());
    assert(all_digits(seq![c]));
    assert(digits_value(seq![c]) == (c as nat - '0' as nat) as nat);
    if decimal_value(s) == Some(v) {
        let t = s.push(c);
        let digits = if s.len() > 1 && s[0] == '+' {
            s.subrange(1, s.len() as int)
        } else {
            s
        };
        let more = if t.len() > 1 && t[0] == '+' {
            t.subrange(1, t.len() as int)
        } else {
            t
        };
        if s.len() == 1 && s[0] == '+' {
            assert(is_digit(digits[0]));
        }
        assert(more =~= digits.push(c));
        assert(more.drop_last() =~= digits);
        assert(all_digits(more)) by {
            assert forall|i: int| 0 <= i < more.len() implies is_digit(#[trigger] more[i]) by {
                if i < digits.len() {
                    assert(is_digit(digits[i]));
                }
            }
        }
    }
}

/// A plus sign before a number makes no difference.
pub proof fn law_number_with_sign(s: Seq<char>)
    requires
        s.len() > 0,
        s[0] != '+',
    ensures
        decimal_value(seq!['+'] + s) == decimal_value(s),
{
    let t = seq!['+'] + s;
    assert(t.subrange(1, t.len() as int) =~= s);
}

/// The number of a location counts the sectors of a disk, and that of the next disk starts where
/// those of the one before can end. No location has the number zero.
pub proof fn law_location_numbers(disk: int, offset: int)
    requires
        0 <= disk < MAX_DISK_ID,
        0 <= offset,
        offset + 512 <= u64::MAX,
        offset % 512 == 0,
    ensures
        DiskLocation::at(disk, offset + 512).raw == DiskLocation::at(disk, offset).raw + 1,
        DiskLocation::at(disk + 1, offset).raw == DiskLocation::at(disk, offset).raw
            + SECTORS_PER_DISK,
        DiskLocation::at(0, 0).raw == SECTORS_PER_DISK,
        DiskLocation::at(disk, offset).raw != 0,
{
}

} // verus!
