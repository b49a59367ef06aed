//! The disks are divided into equal-size slabs. The slab allocator knows which slabs are
//! allocated and which are free; logs, checkpoints and the block allocator get slabs from it for
//! their own use.
//!
//! The persistent form does not say which slabs are allocated. When a cache is opened, whoever
//! holds a slab has to claim it before anything can be allocated.
use crate::base_types::{DiskId, DiskLocation, Extent, MAX_DISK_ID, SECTOR};
use crate::bitmap_range_iterator::lemma_span_len;
use crate::range_tree::span;
use crate::vec_map::VecMap;
use bimap::BiBTreeMap;
use rand::seq::SliceRandom;
use std::ops::Add;
use std::ops::Sub;
use vstd::prelude::*;

verus! {

#[derive(Debug, Clone, Copy, PartialEq, Eq, Structural, PartialOrd, Ord, Hash)]
pub struct SlabId(pub u64);

impl SlabId {
    pub fn next(&self) -> (r: SlabId)
        requires
            self.0 < u64::MAX,
        ensures
            r.0 == self.0 + 1,
    {
        SlabId(self.0 + 1)
    }
}

impl Add<u64> for SlabId {
    type Output = SlabId;

    fn add(self, rhs: u64) -> SlabId {
        SlabId(self.0 + rhs)
    }
}

impl vstd::std_specs::ops::AddSpecImpl<u64> for SlabId {
    open spec fn obeys_add_spec() -> bool {
        true
    }

    open spec fn add_req(self, rhs: u64) -> bool {
        self.0 + rhs <= u64::MAX
    }

    open spec fn add_spec(self, rhs: u64) -> SlabId {
        SlabId((self.0 + rhs) as u64)
    }
}

impl Sub<SlabId> for SlabId {
    type Output = u64;

    fn sub(self, rhs: SlabId) -> u64 {
        self.0 - rhs.0
    }
}

impl vstd::std_specs::ops::SubSpecImpl<SlabId> for SlabId {
    open spec fn obeys_sub_spec() -> bool {
        true
    }

    open spec fn sub_req(self, rhs: SlabId) -> bool {
        rhs.0 <= self.0
    }

    open spec fn sub_spec(self, rhs: SlabId) -> u64 {
        (self.0 - rhs.0) as u64
    }
}

/// `bimap::BiBTreeMap`, an ordered one-to-one relation.
#[verifier::external_type_specification]
#[verifier::external_body]
#[verifier::reject_recursive_types(L)]
#[verifier::reject_recursive_types(R)]
pub struct ExBiBTreeMap<L, R>(BiBTreeMap<L, R>);

/// A relation between slab numbers and extents.
pub type SlabBimap = BiBTreeMap<u64, (u64, u64)>;

/// The pairs of a relation between slab numbers and extents (location and size), as a map from
/// left to right.
pub uninterp spec fn bimap_pairs(m: SlabBimap) -> Map<u64, (u64, u64)>;

/// `BiBTreeMap::new`: no pairs.
#[verifier::external_body]
fn bimap_new() -> (m: SlabBimap)
    ensures
        bimap_pairs(m).dom() == Set::<u64>::empty(),
{
    BiBTreeMap::new()
}

/// `BiBTreeMap::insert` of a pair neither of whose sides is in the relation yet: adds the pair.
#[verifier::external_body]
fn bimap_insert(m: &mut SlabBimap, left: u64, right: (u64, u64))
    requires
        !bimap_pairs(*old(m)).contains_key(left),
        !bimap_pairs(*old(m)).contains_value(right),
    ensures
        bimap_pairs(*final(m)) == bimap_pairs(*old(m)).insert(left, right),
{
    m.insert(left, right);
}

/// `BiBTreeMap::remove_by_left`: removes the pair with the given left side, if there is one.
#[verifier::external_body]
fn bimap_remove_by_left(m: &mut SlabBimap, left: u64)
    ensures
        bimap_pairs(*final(m)) == bimap_pairs(*old(m)).remove(left),
{
    m.remove_by_left(&left);
}

/// The last item of `BiBTreeMap::left_range` up to `left` inclusive: the pair with the greatest
/// left side that is not above `left`.
#[verifier::external_body]
fn bimap_last_by_left(m: &SlabBimap, left: u64) -> (r: Option<(u64, (u64, u64))>)
    ensures
        r is None ==> forall|k: u64| bimap_pairs(*m).contains_key(k) ==> k > left,
        r matches Some(p) ==> bimap_pairs(*m).contains_key(p.0) && bimap_pairs(*m)[p.0] == p.1
            && p.0 <= left && (forall|k: u64|
            bimap_pairs(*m).contains_key(k) && k <= left ==> k <= p.0),
{
    m.left_range(..=left).next_back().map(|p| (*p.0, *p.1))
}

/// The last item of `BiBTreeMap::right_range` up to the greatest pair that starts with `raw`:
/// of the pairs whose right side starts with a number not above `raw`, the one with the greatest
/// right side in the order of tuples.
#[verifier::external_body]
fn bimap_last_by_right(m: &SlabBimap, raw: u64) -> (r: Option<(u64, (u64, u64))>)
    ensures
        r is None ==> forall|k: u64|
            #[trigger] bimap_pairs(*m).contains_key(k) ==> bimap_pairs(*m)[k].0 > raw,
        r matches Some(p) ==> bimap_pairs(*m).contains_key(p.0) && bimap_pairs(*m)[p.0] == p.1
            && p.1.0 <= raw && (forall|k: u64|
            #[trigger] bimap_pairs(*m).contains_key(k) && bimap_pairs(*m)[k].0 <= raw
                ==> bimap_pairs(*m)[k].0 < p.1.0 || (bimap_pairs(*m)[k].0 == p.1.0
                && bimap_pairs(*m)[k].1 <= p.1.1)),
{
    m.right_range(..=(raw, u64::MAX)).next_back().map(|p| (*p.0, *p.1))
}

/// `rand::seq::SliceRandom::shuffle` with the thread's generator: the same slabs in some order.
/// Which order, nothing says.
#[verifier::external_body]
fn shuffle_slabs(slabs: &mut Vec<SlabId>)
    ensures
        final(slabs)@.to_multiset() == old(slabs)@.to_multiset(),
{
    slabs.shuffle(&mut rand::thread_rng());
}

pub open spec fn id_between(id: SlabId, lo: int, hi: int) -> bool {
    lo <= id.0 < hi
}

/// `n` consecutive slabs.
pub open spec fn new_slab_ids(first: int, n: int) -> Seq<SlabId> {
    Seq::new(n as nat, |i: int| SlabId((first + i) as u64))
}

/// A piece of capacity. The slabs of a removed disk keep their numbers, which are never used
/// again.
#[derive(Debug, Clone, Copy, PartialEq, Eq, Structural)]
pub enum SlabExtentPhys {
    Present { extent: Extent },
    Removed { extent: Extent },
}

impl SlabExtentPhys {
    pub open spec fn spec_extent(self) -> Extent {
        match self {
            SlabExtentPhys::Present { extent } => extent,
            SlabExtentPhys::Removed { extent } => extent,
        }
    }

    pub fn extent(&self) -> (r: Extent)
        ensures
            r == self.spec_extent(),
    {
        match self {
            SlabExtentPhys::Present { extent } => *extent,
            SlabExtentPhys::Removed { extent } => *extent,
        }
    }

    /// Whether this is capacity that can be used, on the given disk.
    pub open spec fn on_disk(self, disk: int) -> bool {
        self is Present && self.spec_extent().disk_no() == disk
    }
}

#[derive(Debug)]
pub struct SlabAllocatorPhys {
    pub slab_size: u64,
    pub capacity: Vec<SlabExtentPhys>,
}

/// The largest multiple of the slab size that fits in an extent.
pub open spec fn whole_slabs(extent: Extent, slab_size: u64) -> Extent {
    Extent {
        location: extent.location,
        size: (extent.size - extent.size % slab_size) as u64,
    }
}

/// The usable bytes of a list of capacity.
pub open spec fn present_bytes(cap: Seq<SlabExtentPhys>) -> int
    decreases cap.len(),
{
    if cap.len() == 0 {
        0
    } else {
        present_bytes(cap.drop_last()) + if cap.last() is Present {
            cap.last().spec_extent().size as int
        } else {
            0
        }
    }
}

proof fn lemma_present_bytes_prefix(cap: Seq<SlabExtentPhys>, n: int)
    requires
        0 <= n <= cap.len(),
    ensures
        0 <= present_bytes(cap.take(n)) <= present_bytes(cap),
    decreases cap.len(),
{
    if n == cap.len() {
        assert(cap.take(n) =~= cap);
        if cap.len() > 0 {
            lemma_present_bytes_prefix(cap.drop_last(), cap.len() - 1);
            assert(cap.drop_last().take(cap.len() - 1) =~= cap.drop_last());
        }
    } else {
        lemma_present_bytes_prefix(cap.drop_last(), n);
        assert(cap.drop_last().take(n) =~= cap.take(n));
    }
}

impl SlabAllocatorPhys {
    pub fn new(capacity: &Vec<Extent>, slab_size: u64) -> (r: Self)
        requires
            slab_size > 0,
            forall|i: int| 0 <= i < capacity@.len() ==> (#[trigger] capacity@[i]).location.wf(),
        ensures
            r.slab_size == slab_size,
            r.capacity@ == capacity@.map_values(
                |e: Extent| SlabExtentPhys::Present { extent: whole_slabs(e, slab_size) },
            ),
    {
        let mut this = SlabAllocatorPhys { slab_size, capacity: Vec::new() };
        this.extend(capacity);
        assert(this.capacity@ =~= capacity@.map_values(
            |e: Extent| SlabExtentPhys::Present { extent: whole_slabs(e, slab_size) },
        ));
        this
    }

    /// Adds new capacity.
    pub fn extend(&mut self, capacity: &Vec<Extent>)
        requires
            old(self).slab_size > 0,
            forall|i: int| 0 <= i < capacity@.len() ==> (#[trigger] capacity@[i]).location.wf(),
        ensures
            final(self).slab_size == old(self).slab_size,
            final(self).capacity@ == old(self).capacity@ + capacity@.map_values(
                |e: Extent|
                    SlabExtentPhys::Present { extent: whole_slabs(e, old(self).slab_size) },
            ),
    {
        let ghost c0 = self.capacity@;
        let ghost z = self.slab_size;
        let ghost added = capacity@.map_values(
            |e: Extent| SlabExtentPhys::Present { extent: whole_slabs(e, z) },
        );
        let mut i: usize = 0;
        while i < capacity.len()
            invariant
                i <= capacity@.len(),
                self.slab_size == z,
                z > 0,
                added == capacity@.map_values(
                    |e: Extent| SlabExtentPhys::Present { extent: whole_slabs(e, z) },
                ),
                self.capacity@ == c0 + added.take(i as int),
            decreases capacity@.len() - i,
        {
            let extent = capacity[i];
            proof {
                lemma_mod_at_most(extent.size as int, z as int);
            }
            // capacity is aligned to be a multiple of slabsize
            self.capacity.push(
                SlabExtentPhys::Present {
                    extent: extent.trim_end(extent.size - extent.size % self.slab_size),
                },
            );
            i += 1;
            assert(self.capacity@ =~= c0 + added.take(i as int));
        }
        assert(added.take(i as int) =~= added);
    }

    pub fn active_capacity_bytes(&self) -> (r: u64)
        requires
            present_bytes(self.capacity@) <= u64::MAX,
        ensures
            r == present_bytes(self.capacity@),
    {
        let mut r: u64 = 0;
        let mut i: usize = 0;
        assert(self.capacity@.take(0) =~= Seq::<SlabExtentPhys>::empty());
        while i < self.capacity.len()
            invariant
                i <= self.capacity@.len(),
                r == present_bytes(self.capacity@.take(i as int)),
                present_bytes(self.capacity@) <= u64::MAX,
            decreases self.capacity@.len() - i,
        {
            proof {
                let t = self.capacity@.take(i + 1);
                assert(t.drop_last() =~= self.capacity@.take(i as int));
                lemma_present_bytes_prefix(self.capacity@, i + 1);
            }
            if let SlabExtentPhys::Present { extent } = self.capacity[i] {
                r = r + extent.size;
            }
            i += 1;
        }
        assert(self.capacity@.take(i as int) =~= self.capacity@);
        r
    }
}

/// Number of slabs in an extent.
pub open spec fn n_slabs(e: Extent, slab_size: u64) -> int {
    e.size as int / slab_size as int
}

/// Number of slabs before entry `i`, which is the number of its first slab.
pub open spec fn start_id(cap: Seq<(SlabId, SlabExtentPhys)>, slab_size: u64, i: int) -> int
    decreases i,
{
    if i <= 0 {
        0
    } else {
        start_id(cap, slab_size, i - 1) + n_slabs(cap[i - 1].1.spec_extent(), slab_size)
    }
}

/// Number of slabs in the first `n` entries on disks that have not been removed.
pub open spec fn present_slabs(cap: Seq<(SlabId, SlabExtentPhys)>, slab_size: u64, n: int) -> int
    decreases n,
{
    if n <= 0 {
        0
    } else {
        present_slabs(cap, slab_size, n - 1) + if cap[n - 1].1 is Present {
            n_slabs(cap[n - 1].1.spec_extent(), slab_size)
        } else {
            0
        }
    }
}

/// Number of slabs in the first `n` entries on the given disk.
pub open spec fn disk_slabs(
    cap: Seq<(SlabId, SlabExtentPhys)>,
    slab_size: u64,
    disk: int,
    n: int,
) -> int
    decreases n,
{
    if n <= 0 {
        0
    } else {
        disk_slabs(cap, slab_size, disk, n - 1) + if cap[n - 1].1.on_disk(disk) {
            n_slabs(cap[n - 1].1.spec_extent(), slab_size)
        } else {
            0
        }
    }
}

/// Number of slabs on the disks below `d` that are in `disks`.
pub open spec fn slabs_on(
    cap: Seq<(SlabId, SlabExtentPhys)>,
    slab_size: u64,
    disks: Set<int>,
    d: int,
) -> int
    decreases d,
{
    if d <= 0 {
        0
    } else {
        slabs_on(cap, slab_size, disks, d - 1) + if disks.contains(d - 1) {
            disk_slabs(cap, slab_size, d - 1, cap.len() as int)
        } else {
            0
        }
    }
}

/// Two extents on different disks, or one before the other.
pub open spec fn apart(a: Extent, b: Extent) -> bool {
    a.disk_no() != b.disk_no() || a.end() <= b.start() || b.end() <= a.start()
}

pub open spec fn capacity_wf(
    cap: Seq<(SlabId, SlabExtentPhys)>,
    slab_size: u64,
    next_slab_id: int,
) -> bool {
    &&& slab_size > 0
    &&& slab_size % SECTOR == 0
    &&& forall|i: int|
        0 <= i < cap.len() ==> {
            let e = (#[trigger] cap[i]).1.spec_extent();
            &&& e.wf()
            &&& e.size > 0
            &&& e.size % slab_size == 0
            &&& cap[i].0.0 == start_id(cap, slab_size, i)
        }
    &&& next_slab_id == start_id(cap, slab_size, cap.len() as int)
    &&& forall|i: int, j: int|
        0 <= i < j < cap.len() && (#[trigger] cap[i]).1 is Present && (
        #[trigger] cap[j]).1 is Present ==> apart(cap[i].1.spec_extent(), cap[j].1.spec_extent())
    &&& present_slabs(cap, slab_size, cap.len() as int) * slab_size <= u64::MAX
}

proof fn lemma_n_slabs(e: Extent, slab_size: u64)
    requires
        slab_size > 0,
        e.size > 0,
        e.size % slab_size == 0,
    ensures
        n_slabs(e, slab_size) >= 1,
        n_slabs(e, slab_size) * slab_size == e.size,
{
    let s = e.size as int;
    let z = slab_size as int;
    assert(s / z >= 1 && (s / z) * z == s) by (nonlinear_arith)
        requires
            s > 0,
            z > 0,
            s % z == 0,
    ;
}

proof fn lemma_start_id_mono(cap: Seq<(SlabId, SlabExtentPhys)>, slab_size: u64, i: int, j: int)
    requires
        slab_size > 0,
        0 <= i <= j <= cap.len(),
        forall|k: int|
            0 <= k < cap.len() ==> (#[trigger] cap[k]).1.spec_extent().size > 0
                && cap[k].1.spec_extent().size % slab_size == 0,
    ensures
        start_id(cap, slab_size, i) <= start_id(cap, slab_size, j),
        i < j ==> start_id(cap, slab_size, i) + n_slabs(cap[i].1.spec_extent(), slab_size)
            <= start_id(cap, slab_size, j),
    decreases j - i,
{
    if i < j {
        lemma_start_id_mono(cap, slab_size, i, j - 1);
        lemma_n_slabs(cap[j - 1].1.spec_extent(), slab_size);
    }
}

/// The first entries do not depend on those after them.
proof fn lemma_prefix_sums(
    a: Seq<(SlabId, SlabExtentPhys)>,
    b: Seq<(SlabId, SlabExtentPhys)>,
    slab_size: u64,
    n: int,
)
    requires
        0 <= n <= a.len(),
        n <= b.len(),
        forall|i: int| 0 <= i < n ==> a[i] == b[i],
    ensures
        start_id(a, slab_size, n) == start_id(b, slab_size, n),
        present_slabs(a, slab_size, n) == present_slabs(b, slab_size, n),
        forall|d: int|
            #[trigger] disk_slabs(a, slab_size, d, n) == disk_slabs(b, slab_size, d, n),
    decreases n,
{
    if n > 0 {
        lemma_prefix_sums(a, b, slab_size, n - 1);
        assert forall|d: int|
            #[trigger] disk_slabs(a, slab_size, d, n) == disk_slabs(b, slab_size, d, n) by {
            assert(disk_slabs(a, slab_size, d, n - 1) == disk_slabs(b, slab_size, d, n - 1));
        }
    }
}

proof fn lemma_disk_slabs_bound(
    cap: Seq<(SlabId, SlabExtentPhys)>,
    slab_size: u64,
    disk: int,
    n: int,
)
    requires
        slab_size > 0,
        0 <= n <= cap.len(),
        forall|k: int|
            0 <= k < cap.len() ==> (#[trigger] cap[k]).1.spec_extent().size > 0
                && cap[k].1.spec_extent().size % slab_size == 0,
    ensures
        0 <= disk_slabs(cap, slab_size, disk, n) <= present_slabs(cap, slab_size, n),
        present_slabs(cap, slab_size, n) <= present_slabs(cap, slab_size, cap.len() as int),
        disk_slabs(cap, slab_size, disk, n) <= disk_slabs(
            cap,
            slab_size,
            disk,
            cap.len() as int,
        ),
    decreases n, cap.len() - n,
{
    if n > 0 {
        lemma_disk_slabs_bound(cap, slab_size, disk, n - 1);
        lemma_n_slabs(cap[n - 1].1.spec_extent(), slab_size);
    }
    lemma_disk_slabs_mono(cap, slab_size, disk, n, cap.len() as int);
}

proof fn lemma_disk_slabs_mono(
    cap: Seq<(SlabId, SlabExtentPhys)>,
    slab_size: u64,
    disk: int,
    n: int,
    m: int,
)
    requires
        slab_size > 0,
        0 <= n <= m <= cap.len(),
        forall|k: int|
            0 <= k < cap.len() ==> (#[trigger] cap[k]).1.spec_extent().size > 0
                && cap[k].1.spec_extent().size % slab_size == 0,
    ensures
        present_slabs(cap, slab_size, n) <= present_slabs(cap, slab_size, m),
        disk_slabs(cap, slab_size, disk, n) <= disk_slabs(cap, slab_size, disk, m),
    decreases m - n,
{
    if n < m {
        lemma_disk_slabs_mono(cap, slab_size, disk, n, m - 1);
        lemma_n_slabs(cap[m - 1].1.spec_extent(), slab_size);
    }
}

/// `slabs_on`, counting only the first `n` entries.
spec fn slabs_on_prefix(
    cap: Seq<(SlabId, SlabExtentPhys)>,
    slab_size: u64,
    disks: Set<int>,
    d: int,
    n: int,
) -> int
    decreases d,
{
    if d <= 0 {
        0
    } else {
        slabs_on_prefix(cap, slab_size, disks, d - 1, n) + if disks.contains(d - 1) {
            disk_slabs(cap, slab_size, d - 1, n)
        } else {
            0
        }
    }
}

proof fn lemma_slabs_on_prefix_full(
    cap: Seq<(SlabId, SlabExtentPhys)>,
    slab_size: u64,
    disks: Set<int>,
    d: int,
)
    ensures
        slabs_on_prefix(cap, slab_size, disks, d, cap.len() as int) == slabs_on(
            cap,
            slab_size,
            disks,
            d,
        ),
    decreases d,
{
    if d > 0 {
        lemma_slabs_on_prefix_full(cap, slab_size, disks, d - 1);
    }
}

/// One more entry adds its slabs for at most one disk.
proof fn lemma_slabs_on_prefix_step(
    cap: Seq<(SlabId, SlabExtentPhys)>,
    slab_size: u64,
    disks: Set<int>,
    d: int,
    n: int,
)
    requires
        0 < n <= cap.len(),
        slab_size > 0,
        n_slabs(cap[n - 1].1.spec_extent(), slab_size) >= 0,
    ensures
        ({
            let e = cap[n - 1].1;
            let before = slabs_on_prefix(cap, slab_size, disks, d, n - 1);
            let after = slabs_on_prefix(cap, slab_size, disks, d, n);
            &&& before <= after
            &&& after == before || (e is Present && 0 <= e.spec_extent().disk_no() < d && after
                == before + n_slabs(e.spec_extent(), slab_size))
        }),
    decreases d,
{
    if d > 0 {
        lemma_slabs_on_prefix_step(cap, slab_size, disks, d - 1, n);
    }
}

/// The disks of a set have no more slabs together than there are.
proof fn lemma_slabs_on_bound(
    cap: Seq<(SlabId, SlabExtentPhys)>,
    slab_size: u64,
    disks: Set<int>,
    d: int,
    n: int,
)
    requires
        slab_size > 0,
        0 <= n <= cap.len(),
        forall|k: int|
            0 <= k < cap.len() ==> (#[trigger] cap[k]).1.spec_extent().size > 0
                && cap[k].1.spec_extent().size % slab_size == 0,
    ensures
        0 <= slabs_on_prefix(cap, slab_size, disks, d, n) <= present_slabs(cap, slab_size, n),
    decreases n,
{
    if n == 0 {
        lemma_slabs_on_zero(cap, slab_size, disks, d);
    } else {
        lemma_slabs_on_bound(cap, slab_size, disks, d, n - 1);
        lemma_n_slabs(cap[n - 1].1.spec_extent(), slab_size);
        lemma_slabs_on_prefix_step(cap, slab_size, disks, d, n);
    }
}

proof fn lemma_slabs_on_zero(
    cap: Seq<(SlabId, SlabExtentPhys)>,
    slab_size: u64,
    disks: Set<int>,
    d: int,
)
    ensures
        slabs_on_prefix(cap, slab_size, disks, d, 0) == 0,
    decreases d,
{
    if d > 0 {
        lemma_slabs_on_zero(cap, slab_size, disks, d - 1);
    }
}

proof fn lemma_slabs_on_mono(
    cap: Seq<(SlabId, SlabExtentPhys)>,
    slab_size: u64,
    disks: Set<int>,
    d: int,
    e: int,
)
    requires
        slab_size > 0,
        0 <= d <= e,
        forall|k: int|
            0 <= k < cap.len() ==> (#[trigger] cap[k]).1.spec_extent().size > 0
                && cap[k].1.spec_extent().size % slab_size == 0,
    ensures
        slabs_on(cap, slab_size, disks, d) <= slabs_on(cap, slab_size, disks, e),
    decreases e - d,
{
    if d < e {
        lemma_slabs_on_mono(cap, slab_size, disks, d, e - 1);
        lemma_disk_slabs_bound(cap, slab_size, e - 1, cap.len() as int);
    }
}

/// Where the slabs are.
pub struct SlabAccess {
    pub capacity: Vec<(SlabId, SlabExtentPhys)>,
    pub active_capacity: SlabBimap,
    pub num_slabs: u64,
    pub next_slab_id: SlabId,
    pub slab_size: u64,
}

impl SlabAccess {
    /// Whether entry `i` of the capacity is in use and holds the slab.
    pub open spec fn holds(&self, i: int, id: int) -> bool {
        &&& 0 <= i < self.capacity@.len()
        &&& self.capacity@[i].1 is Present
        &&& self.capacity@[i].0.0 <= id < self.capacity@[i].0.0 + n_slabs(
            self.capacity@[i].1.spec_extent(),
            self.slab_size,
        )
    }

    /// Whether there is a slab of that number, on a disk that has not been removed.
    pub open spec fn valid(&self, id: SlabId) -> bool {
        exists|i: int| self.holds(i, id.0 as int)
    }

    pub open spec fn holder(&self, id: SlabId) -> int {
        choose|i: int| self.holds(i, id.0 as int)
    }

    /// Where a slab is.
    pub open spec fn slab_extent(&self, id: SlabId) -> Extent {
        let i = self.holder(id);
        let e = self.capacity@[i].1.spec_extent();
        Extent::at(
            e.disk_no(),
            e.start() + (id.0 - self.capacity@[i].0.0) * self.slab_size,
            self.slab_size as int,
        )
    }

    /// The disk that a slab is on.
    pub open spec fn slab_disk(&self, id: SlabId) -> int {
        self.slab_extent(id).disk_no()
    }

    /// The relation holds the entries that are in use.
    pub open spec fn active_ok(&self) -> bool {
        let pairs = bimap_pairs(self.active_capacity);
        &&& forall|i: int|
            0 <= i < self.capacity@.len() && (#[trigger] self.capacity@[i]).1 is Present ==> {
                let e = self.capacity@[i].1.spec_extent();
                &&& pairs.contains_key(self.capacity@[i].0.0)
                &&& pairs[self.capacity@[i].0.0] == (e.location.raw, e.size)
            }
        &&& forall|k: u64|
            #[trigger] pairs.contains_key(k) ==> exists|i: int|
                0 <= i < self.capacity@.len() && (#[trigger] self.capacity@[i]).1 is Present
                    && self.capacity@[i].0.0 == k
    }

    pub open spec fn wf(&self) -> bool {
        &&& capacity_wf(self.capacity@, self.slab_size, self.next_slab_id.0 as int)
        &&& self.num_slabs == present_slabs(
            self.capacity@,
            self.slab_size,
            self.capacity@.len() as int,
        )
        &&& self.active_ok()
    }

    pub open spec fn disk_slab_count(&self, disk: int) -> int {
        disk_slabs(self.capacity@, self.slab_size, disk, self.capacity@.len() as int)
    }

    /// The extent of a slab, from the entry that holds it.
    #[verifier::spinoff_prover]
    #[verifier::rlimit(40)]
    pub proof fn lemma_slab_extent(&self, i: int, id: SlabId)
        requires
            self.wf(),
            self.holds(i, id.0 as int),
        ensures
            self.valid(id),
            self.holder(id) == i,
            ({
                let e = self.capacity@[i].1.spec_extent();
                let s = self.slab_extent(id);
                &&& s.wf()
                &&& s.aligned()
                &&& s.size == self.slab_size
                &&& s.disk_no() == e.disk_no()
                &&& 0 <= s.disk_no() <= MAX_DISK_ID
                &&& s.start() == e.start() + (id.0 - self.capacity@[i].0.0) * self.slab_size
                &&& e.spec_contains(s)
            }),
    {
        let j = self.holder(id);
        assert(self.holds(j, id.0 as int));
        if i < j {
            lemma_start_id_mono(self.capacity@, self.slab_size, i, j);
        } else if j < i {
            lemma_start_id_mono(self.capacity@, self.slab_size, j, i);
        }
        assert(i == j);
        let e = self.capacity@[i].1.spec_extent();
        lemma_n_slabs(e, self.slab_size);
        let k = id.0 - self.capacity@[i].0.0;
        let n = n_slabs(e, self.slab_size);
        let z = self.slab_size as int;
        assert(0 <= k * z && k * z + z <= n * z) by (nonlinear_arith)
            requires
                0 <= k < n,
                z > 0,
        ;
        assert((k * z) % 512 == 0) by {
            lemma_multiple_of_sector(k, z);
        }
        assert(e.start() % 512 == 0);
        assert((e.start() + k * z) % 512 == 0);
        crate::base_types::law_location_round_trip(e.disk_no(), e.start() + k * z);
    }

    /// There are not more slabs than were counted, and their numbers are below the next one.
    pub proof fn lemma_ids_bound(&self, ids: Set<int>)
        requires
            self.wf(),
            forall|x: int| ids.contains(x) ==> 0 <= x <= u64::MAX && self.valid(SlabId(x as u64)),
        ensures
            ids.finite(),
            ids.len() <= self.num_slabs,
            self.num_slabs * self.slab_size <= u64::MAX,
    {
        let n = self.capacity@.len() as int;
        lemma_ids_len(*self, 0, n);
        assert forall|x: int| ids.contains(x) implies all_ids(*self, n).contains(x) by {
            let id = SlabId(x as u64);
            assert(self.holds(self.holder(id), x));
        }
        assert(ids.subset_of(all_ids(*self, n)));
        vstd::set_lib::lemma_len_subset(ids, all_ids(*self, n));
    }

    pub proof fn lemma_id_below_next(&self, id: SlabId)
        requires
            self.wf(),
            self.valid(id),
        ensures
            id.0 < self.next_slab_id.0,
    {
        let i = self.holder(id);
        let n = self.capacity@.len() as int;
        lemma_start_id_mono(self.capacity@, self.slab_size, i, n);
    }

    /// Different slabs do not overlap.
    pub proof fn law_slabs_disjoint(&self, a: SlabId, b: SlabId)
        requires
            self.wf(),
            self.valid(a),
            self.valid(b),
            a != b,
        ensures
            apart(self.slab_extent(a), self.slab_extent(b)),
    {
        let i = self.holder(a);
        let j = self.holder(b);
        self.lemma_slab_extent(i, a);
        self.lemma_slab_extent(j, b);
        if i == j {
            let z = self.slab_size as int;
            let ka = a.0 - self.capacity@[i].0.0;
            let kb = b.0 - self.capacity@[i].0.0;
            assert(ka * z + z <= kb * z || kb * z + z <= ka * z) by (nonlinear_arith)
                requires
                    ka != kb,
                    z > 0,
            ;
        } else if i < j {
            assert(apart(
                self.capacity@[i].1.spec_extent(),
                self.capacity@[j].1.spec_extent(),
            ));
        } else {
            assert(apart(
                self.capacity@[j].1.spec_extent(),
                self.capacity@[i].1.spec_extent(),
            ));
        }
    }

    /// A non-empty extent lies in at most one slab, so the slab that `extent_to_slab_id` finds
    /// for a part of the extent of a slab is that slab.
    pub proof fn law_slab_of_extent_unique(&self, a: SlabId, b: SlabId, e: Extent)
        requires
            self.wf(),
            self.valid(a),
            self.valid(b),
            e.size > 0,
            self.slab_extent(a).spec_contains(e),
            self.slab_extent(b).spec_contains(e),
        ensures
            a == b,
    {
        if a != b {
            self.law_slabs_disjoint(a, b);
        }
    }

    pub fn slab_id_to_extent(&self, slab_id: SlabId) -> (r: Extent)
        requires
            self.wf(),
            self.valid(slab_id),
        ensures
            r == self.slab_extent(slab_id),
            r.wf(),
            r.aligned(),
            r.size == self.slab_size,
    {
        let ghost i = self.holder(slab_id);
        let ghost e = self.capacity@[i].1.spec_extent();
        proof {
            self.lemma_slab_extent(i, slab_id);
            lemma_n_slabs(e, self.slab_size);
        }
        match bimap_last_by_left(&self.active_capacity, slab_id.0) {
            Some((start, (raw, size))) => {
                proof {
                    let j = choose|j: int|
                        0 <= j < self.capacity@.len() && (#[trigger] self.capacity@[j]).1 is Present
                            && self.capacity@[j].0.0 == start;
                    if i < j {
                        lemma_start_id_mono(self.capacity@, self.slab_size, i, j);
                    } else if j < i {
                        lemma_start_id_mono(self.capacity@, self.slab_size, j, i);
                        lemma_n_slabs(self.capacity@[j].1.spec_extent(), self.slab_size);
                    }
                    assert(i == j);
                    let k = slab_id.0 - start;
                    let n = n_slabs(e, self.slab_size);
                    let z = self.slab_size as int;
                    assert(0 <= k * z && k * z + z <= n * z) by (nonlinear_arith)
                        requires
                            0 <= k < n,
                            z > 0,
                    ;
                    lemma_multiple_of_sector(k, z);
                }
                let extent = Extent { location: DiskLocation { raw }, size };
                extent.range((slab_id.0 - start) * self.slab_size, self.slab_size)
            },
            None => {
                proof {
                    assert(bimap_pairs(self.active_capacity).contains_key(self.capacity@[i].0.0));
                    assert(false);
                }
                Extent { location: DiskLocation { raw: 0 }, size: 0 }
            },
        }
    }

    /// The slab that an extent lies in.
    pub fn extent_to_slab_id(&self, extent: Extent) -> (r: SlabId)
        requires
            self.wf(),
            extent.wf(),
            extent.size > 0,
            exists|id: SlabId| self.valid(id) && self.slab_extent(id).spec_contains(extent),
        ensures
            self.valid(r),
            self.slab_extent(r).spec_contains(extent),
    {
        let ghost id = choose|id: SlabId|
            self.valid(id) && self.slab_extent(id).spec_contains(extent);
        let ghost i = self.holder(id);
        let ghost e = self.capacity@[i].1.spec_extent();
        proof {
            self.lemma_slab_extent(i, id);
            lemma_n_slabs(e, self.slab_size);
        }
        match bimap_last_by_right(&self.active_capacity, extent.location.raw) {
            Some((start, (raw, size))) => {
                let capacity_extent = Extent { location: DiskLocation { raw }, size };
                proof {
                    let j = choose|j: int|
                        0 <= j < self.capacity@.len() && (#[trigger] self.capacity@[j]).1 is Present
                            && self.capacity@[j].0.0 == start;
                    let f = self.capacity@[j].1.spec_extent();
                    assert(f == capacity_extent);
                    crate::base_types::law_location_order(extent.location, e.location);
                    assert(e.location.raw <= extent.location.raw);
                    assert(e.location.raw <= f.location.raw);
                    crate::base_types::law_location_order(f.location, e.location);
                    crate::base_types::law_location_order(extent.location, f.location);
                    assert(f.disk_no() == e.disk_no());
                    assert(e.start() <= f.start() <= extent.start());
                    if i < j {
                        assert(apart(e, f));
                    } else if j < i {
                        assert(apart(f, e));
                    }
                    assert(i == j);
                    let k = id.0 - start;
                    let z = self.slab_size as int;
                    let d = extent.start() - e.start();
                    assert(d / z == k) by (nonlinear_arith)
                        requires
                            z > 0,
                            k * z <= d < k * z + z,
                    ;
                }
                SlabId(start + (extent.location - capacity_extent.location) / self.slab_size)
            },
            None => {
                proof {
                    crate::base_types::law_location_order(extent.location, e.location);
                    assert(bimap_pairs(self.active_capacity).contains_key(self.capacity@[i].0.0));
                    assert(false);
                }
                SlabId(0)
            },
        }
    }

    /// Adds capacity; its slabs get the next numbers.
    fn push_capacity(&mut self, entry: SlabExtentPhys)
        requires
            old(self).wf(),
            entry.spec_extent().wf(),
            entry.spec_extent().size > 0,
            entry.spec_extent().size % old(self).slab_size == 0,
            old(self).next_slab_id.0 + n_slabs(entry.spec_extent(), old(self).slab_size)
                <= u64::MAX,
            entry is Present ==> (old(self).num_slabs + n_slabs(
                entry.spec_extent(),
                old(self).slab_size,
            )) * old(self).slab_size <= u64::MAX,
            entry is Present ==> forall|i: int|
                0 <= i < old(self).capacity@.len() && (
                #[trigger] old(self).capacity@[i]).1 is Present ==> apart(
                    old(self).capacity@[i].1.spec_extent(),
                    entry.spec_extent(),
                ),
        ensures
            final(self).wf(),
            final(self).slab_size == old(self).slab_size,
            final(self).capacity@ == old(self).capacity@.push((old(self).next_slab_id, entry)),
            final(self).next_slab_id.0 == old(self).next_slab_id.0 + n_slabs(
                entry.spec_extent(),
                old(self).slab_size,
            ),
            forall|id: SlabId|
                (#[trigger] old(self).valid(id)) ==> final(self).valid(id) && final(self).slab_extent(id) == old(self).slab_extent(id),
            forall|id: SlabId|
                (#[trigger] final(self).valid(id)) ==> old(self).valid(id) || (entry is Present
                    && old(self).next_slab_id.0 <= id.0 < final(self).next_slab_id.0),
            forall|id: SlabId|
                entry is Present && #[trigger] id_between(
                    id,
                    old(self).next_slab_id.0 as int,
                    final(self).next_slab_id.0 as int,
                ) ==> final(self).valid(id) && final(self).slab_extent(id).disk_no()
                    == entry.spec_extent().disk_no(),
            forall|id: SlabId|
                (#[trigger] old(self).valid(id)) ==> id.0 < old(self).next_slab_id.0,
            forall|d: int|
                #[trigger] final(self).disk_slab_count(d) == old(self).disk_slab_count(d)
                    + if entry.on_disk(d) {
                    n_slabs(entry.spec_extent(), old(self).slab_size)
                } else {
                    0
                },
    {
        let ghost a = *self;
        let extent = entry.extent();
        proof {
            lemma_n_slabs(extent, self.slab_size);
            lemma_next_id_fresh(a);
            let t = self.num_slabs + n_slabs(extent, self.slab_size);
            let z = self.slab_size as int;
            assert(entry is Present ==> t <= t * z) by (nonlinear_arith)
                requires
                    z > 0,
                    t >= 0,
            ;
        }
        let n: u64 = extent.size / self.slab_size;
        let start = self.next_slab_id;
        let present = match entry {
            SlabExtentPhys::Present { extent: _ } => true,
            SlabExtentPhys::Removed { extent: _ } => false,
        };
        if present {
            proof {
                lemma_fresh_entry(a, start, extent);
            }
            bimap_insert(
                &mut self.active_capacity,
                start.0,
                (extent.location.raw, extent.size),
            );
            self.num_slabs = self.num_slabs + n;
        }
        self.capacity.push((start, entry));
        self.next_slab_id = SlabId(start.0 + n);
        proof {
            lemma_extended(a, *self, entry);
        }
    }

    pub fn slab_size(&self) -> (r: u64)
        ensures
            r == self.slab_size,
    {
        self.slab_size
    }

    pub fn num_slabs(&self) -> (r: u64)
        ensures
            r == self.num_slabs,
    {
        self.num_slabs
    }

    pub fn capacity(&self) -> (r: u64)
        requires
            self.wf(),
        ensures
            r == self.num_slabs * self.slab_size,
    {
        self.num_slabs * self.slab_size
    }

    pub fn disk_capacity(&self, disk: DiskId) -> (r: u64)
        requires
            self.wf(),
            disk.wf(),
        ensures
            r == self.disk_slab_count(disk.0 as int) * self.slab_size,
    {
        let mut r: u64 = 0;
        let mut i: usize = 0;
        while i < self.capacity.len()
            invariant
                self.wf(),
                disk.wf(),
                i <= self.capacity@.len(),
                r == disk_slabs(self.capacity@, self.slab_size, disk.0 as int, i as int)
                    * self.slab_size,
            decreases self.capacity@.len() - i,
        {
            proof {
                let cap = self.capacity@;
                let z = self.slab_size;
                lemma_disk_slabs_bound(cap, z, disk.0 as int, i + 1);
                let all = present_slabs(cap, z, cap.len() as int);
                let a = disk_slabs(cap, z, disk.0 as int, i as int);
                let b = disk_slabs(cap, z, disk.0 as int, i + 1);
                assert(b * z <= all * z) by (nonlinear_arith)
                    requires
                        b <= all,
                        z > 0,
                ;
                lemma_n_slabs(cap[i as int].1.spec_extent(), z);
                let n = n_slabs(cap[i as int].1.spec_extent(), z);
                assert((a + n) * z == a * z + n * z) by (nonlinear_arith);
            }
            if let SlabExtentPhys::Present { extent } = self.capacity[i].1 {
                if extent.location.disk() == disk {
                    r = r + extent.size;
                }
            }
            i += 1;
        }
        r
    }

    pub fn disk_num_slabs(&self, disk: DiskId) -> (r: u64)
        requires
            self.wf(),
            disk.wf(),
        ensures
            r == self.disk_slab_count(disk.0 as int),
    {
        proof {
            let n = self.disk_slab_count(disk.0 as int);
            let z = self.slab_size as int;
            lemma_disk_slabs_bound(
                self.capacity@,
                self.slab_size,
                disk.0 as int,
                self.capacity@.len() as int,
            );
            assert((n * z) / z == n) by (nonlinear_arith)
                requires
                    z > 0,
                    n >= 0,
            ;
        }
        self.disk_capacity(disk) / self.slab_size
    }
}

pub proof fn lemma_multiple_of_sector(k: int, z: int)
    requires
        z % 512 == 0,
    ensures
        (k * z) % 512 == 0,
{
    let m = z / 512;
    assert(z == 512 * m);
    assert(k * z == 512 * (k * m)) by (nonlinear_arith)
        requires
            z == 512 * m,
    ;
}


pub proof fn lemma_mod_at_most(x: int, z: int)
    requires
        0 <= x,
        0 < z,
    ensures
        0 <= x % z <= x,
        (x - x % z) % z == 0,
        x >= z ==> x - x % z >= z,
{
    assert(0 <= x % z <= x && (x - x % z) % z == 0 && (x >= z ==> x - x % z >= z)) by (
    nonlinear_arith)
        requires
            0 <= x,
            0 < z,
    {
        let q = x / z;
        assert(x == q * z + x % z);
        assert(x - x % z == q * z);
        assert((q * z) % z == 0);
    }
}

/// How often a slab occurs in a list.
pub open spec fn times(slabs: Seq<SlabId>, id: SlabId) -> nat {
    slabs.to_multiset().count(id)
}

proof fn lemma_times_push(slabs: Seq<SlabId>, added: SlabId)
    ensures
        forall|id: SlabId|
            #[trigger] times(slabs.push(added), id) == times(slabs, id) + if id == added {
                1nat
            } else {
                0nat
            },
{
    slabs.to_multiset_ensures();
    assert(slabs.push(added).to_multiset() =~= slabs.to_multiset().insert(added));
}

proof fn lemma_times_empty(slabs: Seq<SlabId>)
    requires
        slabs.len() == 0,
    ensures
        forall|id: SlabId| #[trigger] times(slabs, id) == 0,
{
    slabs.to_multiset_ensures();
    assert forall|id: SlabId| #[trigger] times(slabs, id) == 0 by {
        if times(slabs, id) > 0 {
            assert(slabs.contains(id));
        }
    }
}

pub proof fn lemma_times_contains(slabs: Seq<SlabId>, id: SlabId)
    ensures
        times(slabs, id) > 0 <==> slabs.contains(id),
{
    slabs.to_multiset_ensures();
}

proof fn lemma_times_append(a: Seq<SlabId>, b: Seq<SlabId>)
    ensures
        forall|id: SlabId| #[trigger] times(a + b, id) == times(a, id) + times(b, id),
{
    assert((a + b).to_multiset() =~= a.to_multiset().add(b.to_multiset())) by {
        vstd::seq_lib::lemma_multiset_commutative(a, b);
    }
}

proof fn lemma_times_drop_last(slabs: Seq<SlabId>)
    requires
        slabs.len() > 0,
    ensures
        forall|id: SlabId|
            #[trigger] times(slabs.drop_last(), id) == times(slabs, id) - if id == slabs.last() {
                1int
            } else {
                0int
            },
{
    lemma_times_push(slabs.drop_last(), slabs.last());
    assert(slabs.drop_last().push(slabs.last()) =~= slabs);
    assert forall|id: SlabId|
        #[trigger] times(slabs.drop_last(), id) == times(slabs, id) - if id == slabs.last() {
            1int
        } else {
            0int
        } by {
        assert(times(slabs.drop_last().push(slabs.last()), id) == times(slabs.drop_last(), id)
            + if id == slabs.last() {
            1nat
        } else {
            0nat
        });
    }
}

/// The slabs of a list that are on a disk, in their order.
pub open spec fn slabs_of_disk(access: SlabAccess, slabs: Seq<SlabId>, disk: int) -> Seq<SlabId>
    decreases slabs.len(),
{
    if slabs.len() == 0 {
        Seq::empty()
    } else {
        let r = slabs_of_disk(access, slabs.drop_last(), disk);
        if access.slab_disk(slabs.last()) == disk {
            r.push(slabs.last())
        } else {
            r
        }
    }
}

/// The slabs of a list that are on other disks, in their order.
pub open spec fn slabs_of_others(access: SlabAccess, slabs: Seq<SlabId>, disk: int) -> Seq<SlabId>
    decreases slabs.len(),
{
    if slabs.len() == 0 {
        Seq::empty()
    } else {
        let r = slabs_of_others(access, slabs.drop_last(), disk);
        if access.slab_disk(slabs.last()) == disk {
            r
        } else {
            r.push(slabs.last())
        }
    }
}

/// Sorting a list by disk keeps every slab once.
proof fn lemma_split_by_disk(access: SlabAccess, slabs: Seq<SlabId>, disk: int)
    ensures
        forall|id: SlabId|
            #[trigger] times(slabs_of_disk(access, slabs, disk), id) == if access.slab_disk(id)
                == disk {
                times(slabs, id)
            } else {
                0
            },
        forall|id: SlabId|
            #[trigger] times(slabs_of_others(access, slabs, disk), id) == if access.slab_disk(id)
                == disk {
                0
            } else {
                times(slabs, id)
            },
    decreases slabs.len(),
{
    if slabs.len() == 0 {
        lemma_times_empty(slabs);
        lemma_times_empty(slabs_of_disk(access, slabs, disk));
        lemma_times_empty(slabs_of_others(access, slabs, disk));
    } else {
        let d = slabs.drop_last();
        let l = slabs.last();
        lemma_split_by_disk(access, d, disk);
        lemma_times_push(d, l);
        assert(d.push(l) =~= slabs);
        lemma_times_push(slabs_of_disk(access, d, disk), l);
        lemma_times_push(slabs_of_others(access, d, disk), l);
        assert forall|id: SlabId|
            #[trigger] times(slabs_of_disk(access, slabs, disk), id) == if access.slab_disk(id)
                == disk {
                times(slabs, id)
            } else {
                0
            } by {
            assert(times(d.push(l), id) == times(d, id) + if id == l {
                1nat
            } else {
                0nat
            });
            assert(times(slabs_of_disk(access, d, disk), id) == if access.slab_disk(id) == disk {
                times(d, id)
            } else {
                0
            });
        }
        assert forall|id: SlabId|
            #[trigger] times(slabs_of_others(access, slabs, disk), id) == if access.slab_disk(id)
                == disk {
                0
            } else {
                times(slabs, id)
            } by {
            assert(times(d.push(l), id) == times(d, id) + if id == l {
                1nat
            } else {
                0nat
            });
            assert(times(slabs_of_others(access, d, disk), id) == if access.slab_disk(id) == disk {
                0
            } else {
                times(d, id)
            });
        }
    }
}

/// Collects the claims on slabs before the slab allocator is built.
pub struct SlabAllocatorBuilder {
    pub access: SlabAccess,
    /// By slab number: whether the slab has not been claimed.
    pub allocatable: Vec<bool>,
}

/// The numbers that the extents of a persistent list of capacity get.
pub open spec fn numbered(cap: Seq<SlabExtentPhys>, slab_size: u64) -> Seq<
    (SlabId, SlabExtentPhys),
>
    decreases cap.len(),
{
    if cap.len() == 0 {
        Seq::empty()
    } else {
        let r = numbered(cap.drop_last(), slab_size);
        r.push((SlabId(start_id(r, slab_size, r.len() as int) as u64), cap.last()))
    }
}

/// The capacity that holds slabs: what is smaller than a slab has none, and is left out.
pub open spec fn with_slabs(cap: Seq<SlabExtentPhys>) -> Seq<SlabExtentPhys> {
    cap.filter(|e: SlabExtentPhys| e.spec_extent().size > 0)
}

/// A persistent list of capacity that can be opened: whole slabs, none of them in two extents,
/// and no more of them than an index can count.
pub open spec fn phys_wf(cap: Seq<SlabExtentPhys>, slab_size: u64) -> bool {
    &&& forall|i: int|
        0 <= i < cap.len() ==> {
            let e = (#[trigger] cap[i]).spec_extent();
            e.wf() && e.size % slab_size == 0
        }
    &&& slabs_wf(with_slabs(cap), slab_size)
}

/// Capacity of at least one slab each.
pub open spec fn slabs_wf(cap: Seq<SlabExtentPhys>, slab_size: u64) -> bool {
    let n = numbered(cap, slab_size);
    &&& slab_size > 0
    &&& slab_size % SECTOR == 0
    &&& forall|i: int, j: int|
        0 <= i < j < cap.len() && (#[trigger] cap[i]) is Present && (
        #[trigger] cap[j]) is Present ==> apart(cap[i].spec_extent(), cap[j].spec_extent())
    &&& start_id(n, slab_size, cap.len() as int) <= usize::MAX
    &&& present_slabs(n, slab_size, cap.len() as int) * slab_size <= u64::MAX
}

/// What is left of a list without the capacity that holds no slab.
fn keep_with_slabs(cap: &Vec<SlabExtentPhys>) -> (r: Vec<SlabExtentPhys>)
    ensures
        r@ == with_slabs(cap@),
        forall|i: int|
            0 <= i < r@.len() ==> cap@.contains(#[trigger] r@[i]) && r@[i].spec_extent().size > 0,
{
    let mut r: Vec<SlabExtentPhys> = Vec::new();
    let mut i: usize = 0;
    let ghost f = |e: SlabExtentPhys| e.spec_extent().size > 0;
    proof {
        reveal(Seq::filter);
        assert(cap@.take(0) =~= Seq::<SlabExtentPhys>::empty());
    }
    while i < cap.len()
        invariant
            i <= cap@.len(),
            f == (|e: SlabExtentPhys| e.spec_extent().size > 0),
            r@ == cap@.take(i as int).filter(f),
            forall|k: int|
                0 <= k < r@.len() ==> cap@.contains(#[trigger] r@[k])
                    && r@[k].spec_extent().size > 0,
        decreases cap@.len() - i,
    {
        proof {
            reveal(Seq::filter);
            assert(cap@.take(i + 1).drop_last() =~= cap@.take(i as int));
        }
        let entry = cap[i];
        if entry.extent().size > 0 {
            r.push(entry);
        }
        i += 1;
    }
    assert(cap@.take(i as int) =~= cap@);
    r
}

proof fn lemma_numbered(cap: Seq<SlabExtentPhys>, slab_size: u64, n: int)
    requires
        0 <= n <= cap.len(),
    ensures
        numbered(cap, slab_size).len() == cap.len(),
        forall|i: int| 0 <= i < cap.len() ==> (#[trigger] numbered(cap, slab_size)[i]).1 == cap[i],
        numbered(cap.take(n), slab_size) == numbered(cap, slab_size).take(n),
    decreases cap.len(),
{
    if cap.len() == 0 {
        assert(cap.take(n) =~= cap);
        assert(numbered(cap, slab_size).take(n) =~= numbered(cap, slab_size));
    } else {
        lemma_numbered(cap.drop_last(), slab_size, if n == cap.len() {
            n - 1
        } else {
            n
        });
        let r = numbered(cap.drop_last(), slab_size);
        assert forall|i: int| 0 <= i < cap.len() implies (#[trigger] numbered(
            cap,
            slab_size,
        )[i]).1 == cap[i] by {
            if i < cap.len() - 1 {
                assert(r[i].1 == cap.drop_last()[i]);
            }
        }
        if n == cap.len() {
            assert(cap.take(n) =~= cap);
            assert(numbered(cap, slab_size).take(n) =~= numbered(cap, slab_size));
        } else {
            assert(cap.take(n) =~= cap.drop_last().take(n));
            assert(numbered(cap, slab_size).take(n) =~= r.take(n));
        }
    }
}

impl SlabAllocatorBuilder {
    pub open spec fn wf(&self) -> bool {
        &&& self.access.wf()
        &&& self.allocatable@.len() == self.access.next_slab_id.0
        &&& forall|i: int|
            0 <= i < self.allocatable@.len() && #[trigger] self.allocatable@[i] ==> self.access.valid(
                SlabId(i as u64),
            )
    }

    /// Whether a slab exists and has not been claimed.
    pub open spec fn unclaimed(&self, id: SlabId) -> bool {
        id.0 < self.allocatable@.len() && self.allocatable@[id.0 as int]
    }

    /// Every slab of a disk that has not been removed can be claimed.
    pub fn new(phys: &SlabAllocatorPhys) -> (r: Self)
        requires
            phys_wf(phys.capacity@, phys.slab_size),
        ensures
            r.wf(),
            r.access.slab_size == phys.slab_size,
            r.access.capacity@ == numbered(with_slabs(phys.capacity@), phys.slab_size),
            forall|id: SlabId| r.unclaimed(id) <==> r.access.valid(id),
    {
        let kept = keep_with_slabs(&phys.capacity);
        let ghost z = phys.slab_size;
        let ghost all = numbered(kept@, z);
        let ghost len = kept@.len() as int;
        let mut access = SlabAccess {
            capacity: Vec::new(),
            active_capacity: bimap_new(),
            num_slabs: 0,
            next_slab_id: SlabId(0),
            slab_size: phys.slab_size,
        };
        let mut allocatable: Vec<bool> = Vec::new();
        let mut i: usize = 0;
        proof {
            lemma_numbered(kept@, z, 0);
            assert forall|k: int| 0 <= k < all.len() implies (
            #[trigger] all[k]).1.spec_extent().size > 0 && all[k].1.spec_extent().size % z == 0
                && all[k].1.spec_extent().wf() by {
                assert(phys.capacity@.contains(kept@[k]));
            }
            assert(access.capacity@ =~= all.take(0));
        }
        while i < kept.len()
            invariant
                i <= len,
                len == kept@.len(),
                all == numbered(kept@, z),
                all.len() == len,
                z == phys.slab_size,
                slabs_wf(kept@, z),
                forall|k: int| 0 <= k < len ==> (#[trigger] all[k]).1 == kept@[k],
                forall|k: int|
                    0 <= k < all.len() ==> (#[trigger] all[k]).1.spec_extent().size > 0
                        && all[k].1.spec_extent().size % z == 0
                        && all[k].1.spec_extent().wf(),
                access.slab_size == z,
                access.capacity@ == all.take(i as int),
                access.next_slab_id.0 == start_id(all, z, i as int),
                access.wf(),
                allocatable@.len() == access.next_slab_id.0,
                forall|k: int|
                    0 <= k < allocatable@.len() ==> (#[trigger] allocatable@[k] <==> access.valid(
                        SlabId(k as u64),
                    )),
            decreases len - i,
        {
            let entry = kept[i];
            let extent = entry.extent();
            let ghost a0 = access;
            proof {
                lemma_numbered(kept@, z, i as int);
                lemma_numbered(kept@, z, i + 1);
                assert(all[i as int].1 == kept@[i as int]);
                lemma_n_slabs(extent, z);
                lemma_prefix_sums(all, all.take(i as int), z, i as int);
                assert(kept@.take(i + 1).drop_last() =~= kept@.take(i as int));
                assert(all.take(i + 1) =~= all.take(i as int).push((access.next_slab_id, entry)));
                lemma_start_id_mono(all, z, i + 1, len);
                lemma_disk_slabs_mono(all, z, 0, i + 1, len);
                let p = present_slabs(all, z, i + 1);
                let t = present_slabs(all, z, len);
                assert(p * z <= t * z) by (nonlinear_arith)
                    requires
                        p <= t,
                        z > 0,
                ;
                assert forall|k: int|
                    0 <= k < access.capacity@.len() && (
                    #[trigger] access.capacity@[k]).1 is Present && entry is Present implies apart(
                    access.capacity@[k].1.spec_extent(),
                    entry.spec_extent(),
                ) by {
                    assert(access.capacity@[k] == all[k]);
                    assert(apart(kept@[k].spec_extent(), kept@[i as int].spec_extent()));
                }
            }
            let n: u64 = extent.size / access.slab_size;
            let present = match entry {
                SlabExtentPhys::Present { extent: _ } => true,
                SlabExtentPhys::Removed { extent: _ } => false,
            };
            access.push_capacity(entry);
            let ghost flags0 = allocatable@;
            let mut k: u64 = 0;
            while k < n
                invariant
                    k <= n,
                    allocatable@.len() == flags0.len() + k,
                    flags0.len() + n <= usize::MAX,
                    forall|j: int| 0 <= j < flags0.len() ==> allocatable@[j] == flags0[j],
                    forall|j: int|
                        flags0.len() <= j < allocatable@.len() ==> allocatable@[j] == present,
                decreases n - k,
            {
                allocatable.push(present);
                k += 1;
            }
            i += 1;
            proof {
                assert(access.capacity@ =~= all.take(i as int));
                assert forall|k: int| 0 <= k < allocatable@.len() implies (
                #[trigger] allocatable@[k] <==> access.valid(SlabId(k as u64))) by {
                    let id = SlabId(k as u64);
                    if k < flags0.len() {
                        assert(flags0[k] == allocatable@[k]);
                        assert(flags0[k] <==> a0.valid(id));
                        if a0.valid(id) {
                            assert(access.slab_extent(id) == a0.slab_extent(id));
                        }
                    } else {
                        assert(allocatable@[k] == present);
                        assert(id_between(
                            id,
                            a0.next_slab_id.0 as int,
                            access.next_slab_id.0 as int,
                        ));
                        if access.valid(id) && a0.valid(id) {
                            assert(id.0 < a0.next_slab_id.0);
                        }
                    }
                }
            }
        }
        proof {
            assert(all.take(i as int) =~= all);
            lemma_next_id_fresh(access);
        }
        SlabAllocatorBuilder { access, allocatable }
    }

    /// Marks a slab as in use. A slab can be claimed once.
    pub fn claim(&mut self, slab_id: SlabId)
        requires
            old(self).wf(),
            old(self).unclaimed(slab_id),
        ensures
            final(self).wf(),
            final(self).access == old(self).access,
            forall|id: SlabId|
                final(self).unclaimed(id) <==> old(self).unclaimed(id) && id != slab_id,
    {
        assert(self.allocatable.len() <= usize::MAX);
        let i: usize = slab_id.0 as usize;
        self.allocatable.set(i, false);
    }

    /// The slabs that were not claimed are free; those on disks that are being removed cannot be
    /// allocated.
    pub fn build(self, removing_disks: &Vec<DiskId>, reserved_slabs: u64) -> (r: SlabAllocator)
        requires
            self.wf(),
            forall|i: int| 0 <= i < removing_disks@.len() ==> (#[trigger] removing_disks@[i]).wf(),
        ensures
            r.wf(),
            r.separate(),
            r.access == self.access,
            r.reserved_slabs == reserved_slabs,
            r.freeing@.len() == 0,
            r.noallocing@.len() == 0,
            forall|d: int|
                r.removing(d) <==> exists|i: int|
                    0 <= i < removing_disks@.len() && (#[trigger] removing_disks@[i]).0 == d,
            forall|id: SlabId| r.places(id) == 1 <==> self.unclaimed(id),
    {
        let mut noalloc_state: VecMap<Vec<SlabId>> = VecMap::new();
        let mut i: usize = 0;
        while i < removing_disks.len()
            invariant
                i <= removing_disks@.len(),
                forall|k: int|
                    0 <= k < removing_disks@.len() ==> (#[trigger] removing_disks@[k]).wf(),
                forall|d: int|
                    noalloc_state@.contains_key(d) <==> exists|k: int|
                        0 <= k < i && (#[trigger] removing_disks@[k]).0 == d,
                forall|d: int|
                    noalloc_state@.contains_key(d) ==> (#[trigger] noalloc_state@[d])@.len() == 0,
            decreases removing_disks@.len() - i,
        {
            let disk = removing_disks[i];
            let ghost m0 = noalloc_state@;
            noalloc_state.insert(disk.index(), Vec::new());
            i += 1;
            proof {
                assert forall|d: int| noalloc_state@.contains_key(d) <==> exists|k: int|
                    0 <= k < i && (#[trigger] removing_disks@[k]).0 == d by {
                    if m0.contains_key(d) {
                        let k = choose|k: int|
                            0 <= k < i - 1 && (#[trigger] removing_disks@[k]).0 == d;
                        assert(removing_disks@[k].0 == d);
                    }
                    if d == disk.0 {
                        assert(removing_disks@[i - 1].0 == d);
                    }
                }
            }
        }
        let ghost dom = noalloc_state@.dom();
        let mut r = SlabAllocator {
            access: self.access,
            allocatable: Vec::new(),
            freeing: Vec::new(),
            noalloc_state,
            noallocing: Vec::new(),
            reserved_slabs,
        };
        let flags = self.allocatable;
        let mut k: usize = 0;
        proof {
            lemma_times_empty(r.allocatable@);
            lemma_times_empty(r.freeing@);
            lemma_times_empty(r.noallocing@);
            assert forall|id: SlabId| r.places(id) == 0 by {
                let d = r.access.slab_disk(id);
                if r.removing(d) {
                    lemma_times_empty(r.noalloc_state@[d]@);
                }
            }
            assert forall|d: int, id: SlabId|
                r.removing(d) && times(#[trigger] r.noalloc_state@[d]@, id) > 0 implies
                #[trigger] r.access.slab_disk(id) == d by {
                lemma_times_empty(r.noalloc_state@[d]@);
            }
            assert forall|d: int| #[trigger] r.removing(d) implies 0 <= d <= MAX_DISK_ID by {
                let i = choose|i: int|
                    0 <= i < removing_disks@.len() && (#[trigger] removing_disks@[i]).0 == d;
                assert(removing_disks@[i].wf());
            }
        }
        while k < flags.len()
            invariant
                k <= flags@.len(),
                self.wf(),
                flags == self.allocatable,
                r.access == self.access,
                r.wf(),
                r.separate(),
                r.reserved_slabs == reserved_slabs,
                r.freeing@.len() == 0,
                r.noallocing@.len() == 0,
                r.noalloc_state@.dom() == dom,
                forall|id: SlabId|
                    #[trigger] r.places(id) == if id.0 < k && flags@[id.0 as int] {
                        1nat
                    } else {
                        0nat
                    },
            decreases flags@.len() - k,
        {
            let ghost r0 = r;
            if flags[k] {
                let id = SlabId(k as u64);
                proof {
                    assert(flags@[id.0 as int]);
                    assert(self.access.valid(id));
                }
                r.put_free(id);
            }
            k += 1;
        }
        r
    }

    pub fn access(&self) -> (r: &SlabAccess)
        ensures
            *r == self.access,
    {
        &self.access
    }

    pub fn slab_id_to_extent(&self, slab_id: SlabId) -> (r: Extent)
        requires
            self.wf(),
            self.access.valid(slab_id),
        ensures
            r == self.access.slab_extent(slab_id),
    {
        self.access.slab_id_to_extent(slab_id)
    }

    pub fn extent_to_slab_id(&self, extent: Extent) -> (r: SlabId)
        requires
            self.wf(),
            extent.wf(),
            extent.size > 0,
            exists|id: SlabId|
                self.access.valid(id) && self.access.slab_extent(id).spec_contains(extent),
        ensures
            self.access.valid(r),
            self.access.slab_extent(r).spec_contains(extent),
    {
        self.access.extent_to_slab_id(extent)
    }

    pub fn slab_size(&self) -> (r: u64)
        ensures
            r == self.access.slab_size,
    {
        self.access.slab_size()
    }

    pub fn num_slabs(&self) -> (r: u64)
        ensures
            r == self.access.num_slabs,
    {
        self.access.num_slabs()
    }

    pub fn capacity(&self) -> (r: u64)
        requires
            self.wf(),
        ensures
            r == self.access.num_slabs * self.access.slab_size,
    {
        self.access.capacity()
    }
}

/// The next number is that of no slab.
proof fn lemma_next_id_fresh(access: SlabAccess)
    requires
        access.wf(),
    ensures
        !bimap_pairs(access.active_capacity).contains_key(access.next_slab_id.0),
        forall|id: SlabId| (#[trigger] access.valid(id)) ==> id.0 < access.next_slab_id.0,
{
    let cap = access.capacity@;
    let pairs = bimap_pairs(access.active_capacity);
    if pairs.contains_key(access.next_slab_id.0) {
        let i = choose|i: int|
            0 <= i < cap.len() && (#[trigger] cap[i]).1 is Present && cap[i].0.0
                == access.next_slab_id.0;
        lemma_start_id_mono(cap, access.slab_size, i, cap.len() as int);
        lemma_n_slabs(cap[i].1.spec_extent(), access.slab_size);
    }
    assert forall|id: SlabId| (#[trigger] access.valid(id)) implies id.0
        < access.next_slab_id.0 by {
        let i = access.holder(id);
        assert(access.holds(i, id.0 as int));
        lemma_start_id_mono(cap, access.slab_size, i, cap.len() as int);
    }
}

/// A new extent that is apart from those in use is in neither side of the relation.
proof fn lemma_fresh_entry(access: SlabAccess, start: SlabId, extent: Extent)
    requires
        access.wf(),
        start == access.next_slab_id,
        extent.wf(),
        extent.size > 0,
        forall|i: int|
            0 <= i < access.capacity@.len() && (#[trigger] access.capacity@[i]).1 is Present
                ==> apart(access.capacity@[i].1.spec_extent(), extent),
    ensures
        !bimap_pairs(access.active_capacity).contains_key(start.0),
        !bimap_pairs(access.active_capacity).contains_value((extent.location.raw, extent.size)),
{
    let cap = access.capacity@;
    let pairs = bimap_pairs(access.active_capacity);
    lemma_next_id_fresh(access);
    if pairs.contains_value((extent.location.raw, extent.size)) {
        let k = choose|k: u64|
            #[trigger] pairs.contains_key(k) && pairs[k] == (extent.location.raw, extent.size);
        let i = choose|i: int|
            0 <= i < cap.len() && (#[trigger] cap[i]).1 is Present && cap[i].0.0 == k;
        assert(cap[i].1.spec_extent() == extent);
    }
}

/// Capacity that is added after what is there leaves everything about the old slabs as it was.
proof fn lemma_extended(a: SlabAccess, b: SlabAccess, entry: SlabExtentPhys)
    requires
        a.wf(),
        a.slab_size == b.slab_size,
        b.capacity@ == a.capacity@.push((a.next_slab_id, entry)),
        entry.spec_extent().wf(),
        entry.spec_extent().size > 0,
        entry.spec_extent().size % a.slab_size == 0,
        b.next_slab_id.0 == a.next_slab_id.0 + n_slabs(entry.spec_extent(), a.slab_size),
        b.num_slabs == a.num_slabs + if entry is Present {
            n_slabs(entry.spec_extent(), a.slab_size)
        } else {
            0
        },
        b.num_slabs * a.slab_size <= u64::MAX,
        bimap_pairs(b.active_capacity) == if entry is Present {
            bimap_pairs(a.active_capacity).insert(
                a.next_slab_id.0,
                (entry.spec_extent().location.raw, entry.spec_extent().size),
            )
        } else {
            bimap_pairs(a.active_capacity)
        },
        !bimap_pairs(a.active_capacity).contains_key(a.next_slab_id.0),
        entry is Present ==> forall|i: int|
            0 <= i < a.capacity@.len() && (#[trigger] a.capacity@[i]).1 is Present ==> apart(
                a.capacity@[i].1.spec_extent(),
                entry.spec_extent(),
            ),
    ensures
        b.wf(),
        forall|i: int, id: int| i < a.capacity@.len() ==> (a.holds(i, id) <==> b.holds(i, id)),
        forall|id: SlabId|
            (#[trigger] a.valid(id)) ==> b.valid(id) && b.slab_extent(id) == a.slab_extent(id),
        forall|id: SlabId|
            b.valid(id) ==> a.valid(id) || (entry is Present && a.next_slab_id.0 <= id.0
                < b.next_slab_id.0),
        forall|id: SlabId|
            entry is Present && #[trigger] id_between(
                id,
                a.next_slab_id.0 as int,
                b.next_slab_id.0 as int,
            ) ==> b.valid(id) && b.slab_extent(id).disk_no() == entry.spec_extent().disk_no(),
        forall|d: int|
            #[trigger] b.disk_slab_count(d) == a.disk_slab_count(d) + if entry.on_disk(d) {
                n_slabs(entry.spec_extent(), a.slab_size)
            } else {
                0
            },
{
    let ca = a.capacity@;
    let cb = b.capacity@;
    let z = a.slab_size;
    let n = ca.len() as int;
    lemma_prefix_sums(ca, cb, z, n);
    lemma_n_slabs(entry.spec_extent(), z);
    assert forall|i: int| 0 <= i < cb.len() implies ({
        let e = (#[trigger] cb[i]).1.spec_extent();
        &&& e.wf()
        &&& e.size > 0
        &&& e.size % z == 0
        &&& cb[i].0.0 == start_id(cb, z, i)
    }) by {
        if i < n {
            assert(cb[i] == ca[i]);
            lemma_prefix_sums(ca, cb, z, i);
        }
    }
    assert forall|i: int, j: int|
        0 <= i < j < cb.len() && (#[trigger] cb[i]).1 is Present && (
        #[trigger] cb[j]).1 is Present implies apart(
        cb[i].1.spec_extent(),
        cb[j].1.spec_extent(),
    ) by {
        assert(cb[i] == ca[i]);
        if j < n {
            assert(cb[j] == ca[j]);
        }
    }
    assert(b.active_ok()) by {
        let pb = bimap_pairs(b.active_capacity);
        assert forall|i: int| 0 <= i < cb.len() && (#[trigger] cb[i]).1 is Present implies {
            let e = cb[i].1.spec_extent();
            &&& pb.contains_key(cb[i].0.0)
            &&& pb[cb[i].0.0] == (e.location.raw, e.size)
        } by {
            if i < n {
                assert(cb[i] == ca[i]);
                lemma_start_id_mono(ca, z, i, n);
                lemma_n_slabs(ca[i].1.spec_extent(), z);
            }
        }
        assert forall|k: u64| #[trigger] pb.contains_key(k) implies exists|i: int|
            0 <= i < cb.len() && (#[trigger] cb[i]).1 is Present && cb[i].0.0 == k by {
            if entry is Present && k == a.next_slab_id.0 {
                assert(cb[n].1 is Present);
            } else {
                assert(bimap_pairs(a.active_capacity).contains_key(k));
                let i = choose|i: int|
                    0 <= i < ca.len() && (#[trigger] ca[i]).1 is Present && ca[i].0.0 == k;
                assert(cb[i] == ca[i]);
            }
        }
    }
    assert(b.wf());
    assert forall|i: int, id: int| i < n implies (a.holds(i, id) <==> b.holds(i, id)) by {
        if 0 <= i < n {
            assert(cb[i] == ca[i]);
        }
    }
    assert forall|id: SlabId| (#[trigger] a.valid(id)) implies b.valid(id) && b.slab_extent(id)
        == a.slab_extent(id) by {
        let i = a.holder(id);
        assert(a.holds(i, id.0 as int));
        assert(cb[i] == ca[i]);
        assert(b.holds(i, id.0 as int));
        a.lemma_slab_extent(i, id);
        b.lemma_slab_extent(i, id);
    }
    assert forall|id: SlabId| b.valid(id) implies a.valid(id) || (entry is Present
        && a.next_slab_id.0 <= id.0 < b.next_slab_id.0) by {
        let i = b.holder(id);
        assert(b.holds(i, id.0 as int));
        if i < n {
            assert(a.holds(i, id.0 as int));
        }
    }
    assert forall|id: SlabId|
        entry is Present && #[trigger] id_between(
            id,
            a.next_slab_id.0 as int,
            b.next_slab_id.0 as int,
        ) implies b.valid(id) && b.slab_extent(id).disk_no() == entry.spec_extent().disk_no() by {
        assert(b.holds(n, id.0 as int));
        b.lemma_slab_extent(n, id);
    }
    assert forall|d: int|
        #[trigger] b.disk_slab_count(d) == a.disk_slab_count(d) + if entry.on_disk(d) {
            n_slabs(entry.spec_extent(), z)
        } else {
            0
        } by {
        assert(disk_slabs(ca, z, d, n) == disk_slabs(cb, z, d, n));
    }
}

pub struct SlabAllocator {
    pub access: SlabAccess,
    pub allocatable: Vec<SlabId>,
    /// Freed slabs, which can be allocated again once the checkpoint has been written.
    pub freeing: Vec<SlabId>,
    /// By disk that is being removed: its free slabs, none of which can be allocated. When the
    /// disk is finally removed, its key is removed from this map.
    pub noalloc_state: VecMap<Vec<SlabId>>,
    /// Freed slabs of disks that are being removed; they end up in the state above.
    pub noallocing: Vec<SlabId>,
    pub reserved_slabs: u64,
}

impl SlabAllocator {
    /// Whether the disk is being removed.
    pub open spec fn removing(&self, disk: int) -> bool {
        self.noalloc_state@.contains_key(disk)
    }

    /// How often the slab occurs among the free ones.
    pub open spec fn places(&self, id: SlabId) -> nat {
        let d = self.access.slab_disk(id);
        times(self.allocatable@, id) + times(self.freeing@, id) + times(self.noallocing@, id)
            + if self.removing(d) {
            times(self.noalloc_state@[d]@, id)
        } else {
            0
        }
    }

    /// A slab that exists and that somebody holds.
    pub open spec fn allocated(&self, id: SlabId) -> bool {
        self.access.valid(id) && self.places(id) == 0
    }

    pub open spec fn wf(&self) -> bool {
        &&& self.access.wf()
        &&& forall|id: SlabId| #[trigger] self.places(id) <= 1
        &&& forall|id: SlabId| #[trigger] self.places(id) > 0 ==> self.access.valid(id)
        &&& forall|d: int| #[trigger] self.removing(d) ==> 0 <= d <= MAX_DISK_ID
        &&& forall|d: int, id: SlabId|
            self.removing(d) && times(#[trigger] self.noalloc_state@[d]@, id) > 0
                ==> #[trigger] self.access.slab_disk(id) == d
        &&& forall|id: SlabId|
            #[trigger] times(self.noallocing@, id) > 0 ==> self.removing(self.access.slab_disk(id))
    }

    /// No slab of a disk that is being removed can be allocated, now or after the next
    /// checkpoint.
    pub open spec fn separate(&self) -> bool {
        &&& forall|id: SlabId|
            #[trigger] times(self.allocatable@, id) > 0 ==> !self.removing(
                self.access.slab_disk(id),
            )
        &&& forall|id: SlabId|
            #[trigger] times(self.freeing@, id) > 0 ==> !self.removing(self.access.slab_disk(id))
    }

    /// Adds a slab to those that can be allocated, or to those of its disk if that is being
    /// removed.
    fn put_free(&mut self, id: SlabId)
        requires
            old(self).wf(),
            old(self).separate(),
            old(self).allocated(id),
        ensures
            final(self).wf(),
            final(self).separate(),
            final(self).access == old(self).access,
            final(self).freeing == old(self).freeing,
            final(self).noallocing == old(self).noallocing,
            final(self).reserved_slabs == old(self).reserved_slabs,
            final(self).noalloc_state@.dom() == old(self).noalloc_state@.dom(),
            forall|s: SlabId|
                #[trigger] final(self).places(s) == old(self).places(s) + if s == id {
                    1nat
                } else {
                    0nat
                },
    {
        let ghost s0 = *self;
        proof {
            self.access.lemma_slab_extent(self.access.holder(id), id);
        }
        let disk: usize = self.access.slab_id_to_extent(id).location.disk().index();
        match self.noalloc_state.remove(disk) {
            Some(slabs) => {
                let mut slabs = slabs;
                proof {
                    lemma_times_push(slabs@, id);
                }
                slabs.push(id);
                self.noalloc_state.insert(disk, slabs);
                proof {
                    assert(self.noalloc_state@ =~= s0.noalloc_state@.insert(disk as int, slabs));
                    assert(self.noalloc_state@.dom() =~= s0.noalloc_state@.dom());
                    lemma_put(s0, *self, id);
                }
            },
            None => {
                proof {
                    lemma_times_push(self.allocatable@, id);
                    assert(self.noalloc_state@ =~= s0.noalloc_state@);
                }
                self.allocatable.push(id);
                proof {
                    lemma_put(s0, *self, id);
                }
            },
        }
    }
}

/// One more free slab, in one of the lists.
proof fn lemma_put(a: SlabAllocator, b: SlabAllocator, id: SlabId)
    requires
        a.wf(),
        a.allocated(id),
        b.access == a.access,
        b.noalloc_state@.dom() == a.noalloc_state@.dom(),
        forall|d: int|
            a.removing(d) && d != a.access.slab_disk(id) ==> b.noalloc_state@[d]
                == a.noalloc_state@[d],
        forall|s: SlabId| s != id ==> #[trigger] times(b.allocatable@, s) == times(a.allocatable@, s),
        forall|s: SlabId| s != id ==> #[trigger] times(b.freeing@, s) == times(a.freeing@, s),
        forall|s: SlabId| s != id ==> #[trigger] times(b.noallocing@, s) == times(a.noallocing@, s),
        a.removing(a.access.slab_disk(id)) ==> forall|s: SlabId|
            s != id ==> #[trigger] times(b.noalloc_state@[a.access.slab_disk(id)]@, s) == times(
                a.noalloc_state@[a.access.slab_disk(id)]@,
                s,
            ),
        b.places(id) == 1,
        times(b.noallocing@, id) > 0 ==> b.removing(b.access.slab_disk(id)),
    ensures
        b.wf(),
        forall|s: SlabId|
            #[trigger] b.places(s) == a.places(s) + if s == id {
                1nat
            } else {
                0nat
            },
{
    assert forall|s: SlabId|
        #[trigger] b.places(s) == a.places(s) + if s == id {
            1nat
        } else {
            0nat
        } by {
        if s != id {
            assert(times(b.allocatable@, s) == times(a.allocatable@, s));
            assert(times(b.freeing@, s) == times(a.freeing@, s));
            assert(times(b.noallocing@, s) == times(a.noallocing@, s));
            let d = a.access.slab_disk(s);
            if b.removing(d) && d == a.access.slab_disk(id) {
                assert(times(b.noalloc_state@[d]@, s) == times(a.noalloc_state@[d]@, s));
            }
        }
    }
    assert forall|s: SlabId| #[trigger] b.places(s) <= 1 by {
        assert(a.places(s) <= 1);
    }
    assert forall|s: SlabId| #[trigger] b.places(s) > 0 implies b.access.valid(s) by {
        if s != id {
            assert(a.places(s) > 0);
        }
    }
    assert forall|d: int| #[trigger] b.removing(d) implies 0 <= d <= MAX_DISK_ID by {
        assert(a.removing(d));
    }
    assert forall|d: int, s: SlabId|
        b.removing(d) && times(#[trigger] b.noalloc_state@[d]@, s) > 0 implies
        #[trigger] b.access.slab_disk(s) == d by {
        assert(a.removing(d));
        if s == id {
            if d != a.access.slab_disk(id) {
                assert(b.noalloc_state@[d] == a.noalloc_state@[d]);
                assert(a.access.slab_disk(id) == d);
            }
        } else if d == a.access.slab_disk(id) {
            assert(times(b.noalloc_state@[d]@, s) == times(a.noalloc_state@[d]@, s));
        }
    }
    assert forall|s: SlabId| #[trigger] times(b.noallocing@, s) > 0 implies b.removing(
        b.access.slab_disk(s),
    ) by {
        if s != id {
            assert(times(a.noallocing@, s) > 0);
            assert(a.removing(a.access.slab_disk(s)));
        }
    }
}


/// The numbers of the slabs that the first `n` entries hold on the given disk.
spec fn disk_ids(access: SlabAccess, disk: int, n: int) -> Set<int> {
    Set::new(
        |id: int|
            exists|i: int|
                0 <= i < n && #[trigger] access.holds(i, id) && access.capacity@[i].1.on_disk(disk),
    )
}

/// The numbers of the slabs that the first `n` entries hold.
spec fn all_ids(access: SlabAccess, n: int) -> Set<int> {
    Set::new(|id: int| exists|i: int| 0 <= i < n && #[trigger] access.holds(i, id))
}

proof fn lemma_ids_len(access: SlabAccess, disk: int, n: int)
    requires
        access.wf(),
        0 <= n <= access.capacity@.len(),
    ensures
        disk_ids(access, disk, n).finite(),
        disk_ids(access, disk, n).len() == disk_slabs(access.capacity@, access.slab_size, disk, n),
        all_ids(access, n).finite(),
        all_ids(access, n).len() == present_slabs(access.capacity@, access.slab_size, n),
    decreases n,
{
    let cap = access.capacity@;
    let z = access.slab_size;
    if n == 0 {
        assert(disk_ids(access, disk, n) =~= Set::<int>::empty());
        assert(all_ids(access, n) =~= Set::<int>::empty());
    } else {
        lemma_ids_len(access, disk, n - 1);
        let e = cap[n - 1].1;
        let first = cap[n - 1].0.0 as int;
        let count = n_slabs(e.spec_extent(), z);
        lemma_n_slabs(e.spec_extent(), z);
        lemma_span_len(first, count);
        let added = span(first, count);
        assert forall|i: int, id: int| 0 <= i < n - 1 && #[trigger] access.holds(i, id) implies id
            < first by {
            lemma_start_id_mono(cap, z, i, n - 1);
        }
        assert forall|id: int| added.contains(id) && e is Present implies access.holds(
            n - 1,
            id,
        ) by {}
        if e is Present {
            assert(all_ids(access, n) =~= all_ids(access, n - 1).union(added));
            assert(all_ids(access, n - 1).disjoint(added));
            vstd::set_lib::lemma_set_disjoint_lens(all_ids(access, n - 1), added);
        } else {
            assert(all_ids(access, n) =~= all_ids(access, n - 1));
        }
        if e.on_disk(disk) {
            assert(disk_ids(access, disk, n) =~= disk_ids(access, disk, n - 1).union(added));
            assert(disk_ids(access, disk, n - 1).disjoint(added));
            vstd::set_lib::lemma_set_disjoint_lens(disk_ids(access, disk, n - 1), added);
        } else {
            assert(disk_ids(access, disk, n) =~= disk_ids(access, disk, n - 1));
        }
    }
}

spec fn id_set(slabs: Seq<SlabId>) -> Set<int> {
    Set::new(|x: int| exists|i: int| 0 <= i < slabs.len() && (#[trigger] slabs[i]).0 == x)
}

/// A list that holds no slab twice has as many entries as slabs.
proof fn lemma_id_set_len(slabs: Seq<SlabId>)
    requires
        forall|id: SlabId| #[trigger] times(slabs, id) <= 1,
    ensures
        id_set(slabs).finite(),
        id_set(slabs).len() == slabs.len(),
        forall|id: SlabId| id_set(slabs).contains(id.0 as int) <==> times(slabs, id) > 0,
    decreases slabs.len(),
{
    if slabs.len() == 0 {
        assert(id_set(slabs) =~= Set::<int>::empty());
        lemma_times_empty(slabs);
    } else {
        let d = slabs.drop_last();
        let l = slabs.last();
        lemma_times_drop_last(slabs);
        assert forall|id: SlabId| #[trigger] times(d, id) <= 1 by {
            assert(times(slabs, id) <= 1);
        }
        lemma_id_set_len(d);
        assert(times(d, l) == times(slabs, l) - 1);
        assert(times(slabs, l) <= 1);
        assert(!id_set(d).contains(l.0 as int));
        assert forall|x: int| id_set(slabs).contains(x) <==> id_set(d).insert(
            l.0 as int,
        ).contains(x) by {
            if id_set(d).contains(x) {
                let i = choose|i: int| 0 <= i < d.len() && (#[trigger] d[i]).0 == x;
                assert(slabs[i].0 == x);
            }
            if x == l.0 {
                assert(slabs[slabs.len() - 1].0 == x);
            }
            if id_set(slabs).contains(x) {
                let i = choose|i: int| 0 <= i < slabs.len() && (#[trigger] slabs[i]).0 == x;
                if i < d.len() {
                    assert(d[i].0 == x);
                }
            }
        }
        assert(id_set(slabs) =~= id_set(d).insert(l.0 as int));
        assert forall|id: SlabId| id_set(slabs).contains(id.0 as int) <==> times(slabs, id)
            > 0 by {
            assert(times(d, id) == times(slabs, id) - if id == l {
                1int
            } else {
                0int
            });
        }
    }
}

impl SlabAllocator {
    /// A disk that is being removed has no more free slabs than slabs, and the two numbers are
    /// equal only if every one of its slabs is free.
    proof fn lemma_noalloc_len(&self, disk: int)
        requires
            self.wf(),
            self.removing(disk),
        ensures
            self.noalloc_state@[disk]@.len() <= self.access.disk_slab_count(disk),
            self.noalloc_state@[disk]@.len() == self.access.disk_slab_count(disk) ==> forall|
                id: SlabId,
            |
                #[trigger] self.access.valid(id) && self.access.slab_disk(id) == disk ==> times(
                    self.noalloc_state@[disk]@,
                    id,
                ) == 1,
    {
        let list = self.noalloc_state@[disk]@;
        let n = self.access.capacity@.len() as int;
        assert forall|id: SlabId| #[trigger] times(list, id) <= 1 by {
            if times(list, id) > 0 {
                assert(self.access.slab_disk(id) == disk);
                assert(self.places(id) <= 1);
            }
        }
        lemma_id_set_len(list);
        lemma_ids_len(self.access, disk, n);
        let ids = disk_ids(self.access, disk, n);
        assert forall|x: int| id_set(list).contains(x) implies ids.contains(x) by {
            let i = choose|i: int| 0 <= i < list.len() && (#[trigger] list[i]).0 == x;
            let id = list[i];
            lemma_times_contains(list, id);
            assert(list.contains(id));
            assert(self.access.slab_disk(id) == disk);
            assert(self.places(id) > 0);
            let h = self.access.holder(id);
            assert(self.access.holds(h, id.0 as int));
            self.access.lemma_slab_extent(h, id);
        }
        assert(id_set(list).subset_of(ids));
        vstd::set_lib::lemma_len_subset(id_set(list), ids);
        if list.len() == self.access.disk_slab_count(disk) {
            vstd::set_lib::lemma_subset_equality(id_set(list), ids);
            assert forall|id: SlabId|
                #[trigger] self.access.valid(id) && self.access.slab_disk(id) == disk implies times(
                list,
                id,
            ) == 1 by {
                let h = self.access.holder(id);
                assert(self.access.holds(h, id.0 as int));
                self.access.lemma_slab_extent(h, id);
                assert(ids.contains(id.0 as int));
                assert(times(list, id) > 0);
            }
        }
    }

    /// There are no more free slabs of a kind than slabs.
    proof fn lemma_list_len(&self, list: Seq<SlabId>)
        requires
            self.wf(),
            forall|id: SlabId| #[trigger] times(list, id) <= self.places(id),
        ensures
            list.len() <= self.access.num_slabs,
    {
        let n = self.access.capacity@.len() as int;
        assert forall|id: SlabId| #[trigger] times(list, id) <= 1 by {
            assert(self.places(id) <= 1);
        }
        lemma_id_set_len(list);
        lemma_ids_len(self.access, 0, n);
        let ids = all_ids(self.access, n);
        assert forall|x: int| id_set(list).contains(x) implies ids.contains(x) by {
            let i = choose|i: int| 0 <= i < list.len() && (#[trigger] list[i]).0 == x;
            let id = list[i];
            lemma_times_contains(list, id);
            assert(list.contains(id));
            assert(self.places(id) > 0);
            let h = self.access.holder(id);
            assert(self.access.holds(h, id.0 as int));
        }
        assert(id_set(list).subset_of(ids));
        vstd::set_lib::lemma_len_subset(id_set(list), ids);
    }

    /// There are no more slabs that are empty or held than slabs.
    pub proof fn lemma_empty_and_held(&self, held: Set<int>)
        requires
            self.wf(),
            held.finite(),
            forall|x: int|
                #[trigger] held.contains(x) ==> 0 <= x <= u64::MAX && self.allocated(
                    SlabId(x as u64),
                ),
        ensures
            self.allocatable@.len() + held.len() <= self.access.num_slabs,
    {
        let list = self.allocatable@;
        assert forall|id: SlabId| #[trigger] times(list, id) <= 1 by {
            assert(self.places(id) <= 1);
        }
        lemma_id_set_len(list);
        let empty = id_set(list);
        assert forall|x: int| #[trigger] empty.contains(x) implies 0 <= x <= u64::MAX
            && !held.contains(x) && self.access.valid(SlabId(x as u64)) by {
            let i = choose|i: int| 0 <= i < list.len() && (#[trigger] list[i]).0 == x;
            let id = list[i];
            assert(id == SlabId(x as u64));
            lemma_times_contains(list, id);
            assert(list.contains(id));
            assert(self.places(id) > 0);
        }
        assert(empty.disjoint(held));
        vstd::set_lib::lemma_set_disjoint_lens(empty, held);
        let all = empty.union(held);
        assert forall|x: int| all.contains(x) implies 0 <= x <= u64::MAX && self.access.valid(
            SlabId(x as u64),
        ) by {
            if held.contains(x) {
                assert(self.allocated(SlabId(x as u64)));
            }
        }
        self.access.lemma_ids_bound(all);
    }

    /// The number of slabs is far below what an integer can count.
    proof fn lemma_num_slabs_small(&self)
        requires
            self.access.wf(),
        ensures
            self.access.num_slabs <= u64::MAX / 512,
    {
        let n = self.access.num_slabs as int;
        let z = self.access.slab_size as int;
        assert(z >= 512);
        assert(n * 512 <= n * z) by (nonlinear_arith)
            requires
                n >= 0,
                z >= 512,
        ;
    }

    /// Takes the last allocatable slab.
    fn take_slab(&mut self) -> (id: SlabId)
        requires
            old(self).wf(),
            old(self).allocatable@.len() > 0,
        ensures
            final(self).wf(),
            id == old(self).allocatable@.last(),
            final(self).allocatable@ == old(self).allocatable@.drop_last(),
            final(self).access == old(self).access,
            final(self).freeing == old(self).freeing,
            final(self).noalloc_state == old(self).noalloc_state,
            final(self).noallocing == old(self).noallocing,
            final(self).reserved_slabs == old(self).reserved_slabs,
            old(self).places(id) == 1,
            final(self).allocated(id),
            forall|s: SlabId| s != id ==> #[trigger] final(self).places(s) == old(self).places(s),
            old(self).separate() ==> final(self).separate(),
            old(self).separate() ==> !final(self).removing(final(self).access.slab_disk(id)),
    {
        let ghost a = *self;
        let id = self.allocatable.pop().unwrap();
        proof {
            lemma_times_drop_last(a.allocatable@);
            lemma_times_contains(a.allocatable@, id);
            assert(a.places(id) <= 1);
            assert forall|s: SlabId|
                #[trigger] self.places(s) == a.places(s) - if s == id {
                    1int
                } else {
                    0int
                } by {
                assert(times(a.allocatable@.drop_last(), s) == times(a.allocatable@, s) - if s
                    == id {
                    1int
                } else {
                    0int
                });
            }
            assert forall|s: SlabId| #[trigger] self.places(s) <= 1 by {
                assert(a.places(s) <= 1);
            }
            assert forall|s: SlabId| #[trigger] self.places(s) > 0 implies self.access.valid(
                s,
            ) by {
                assert(a.places(s) > 0);
            }
            assert forall|d: int| #[trigger] self.removing(d) implies 0 <= d <= MAX_DISK_ID by {
                assert(a.removing(d));
            }
            if a.separate() {
                assert forall|s: SlabId| #[trigger] times(self.allocatable@, s) > 0 implies
                    !self.removing(self.access.slab_disk(s)) by {
                    assert(times(a.allocatable@.drop_last(), s) == times(a.allocatable@, s) - if s
                        == id {
                        1int
                    } else {
                        0int
                    });
                    assert(times(a.allocatable@, s) > 0);
                }
                assert(times(a.allocatable@, id) > 0);
            }
        }
        id
    }

    /// Allocates a slab, unless only the reserved ones are left.
    pub fn allocate(&mut self) -> (r: Option<SlabId>)
        requires
            old(self).wf(),
        ensures
            final(self).wf(),
            final(self).access == old(self).access,
            final(self).freeing == old(self).freeing,
            final(self).noalloc_state == old(self).noalloc_state,
            final(self).noallocing == old(self).noallocing,
            final(self).reserved_slabs == old(self).reserved_slabs,
            old(self).separate() ==> final(self).separate(),
            r is Some <==> old(self).allocatable@.len() > old(self).reserved_slabs,
            r is None ==> *final(self) == *old(self),
            r matches Some(id) ==> {
                &&& id == old(self).allocatable@.last()
                &&& final(self).allocatable@ == old(self).allocatable@.drop_last()
                &&& old(self).places(id) == 1
                &&& final(self).allocated(id)
                &&& old(self).separate() ==> !final(self).removing(
                    final(self).access.slab_disk(id),
                )
                &&& forall|s: SlabId|
                    s != id ==> #[trigger] final(self).places(s) == old(self).places(s)
            },
    {
        if self.allocatable.len() as u64 > self.reserved_slabs {
            Some(self.take_slab())
        } else {
            None
        }
    }

    /// Sets the amount of reserved space (in bytes), for use by metadata via
    /// `allocate_reserved`. The reserved space is not used up by it; rather, we try to always
    /// have this amount available. At least `min_slabs` are reserved.
    pub fn set_reservation(&mut self, reserved_space: u64, min_slabs: u64)
        requires
            old(self).wf(),
        ensures
            *final(self) == (SlabAllocator {
                reserved_slabs: if reserved_space / old(self).access.slab_size > min_slabs {
                    reserved_space / old(self).access.slab_size
                } else {
                    min_slabs
                },
                ..*old(self)
            }),
            final(self).reserved_slabs >= min_slabs,
            (final(self).reserved_slabs + 1) * old(self).access.slab_size > reserved_space,
            final(self).reserved_slabs > min_slabs ==> final(self).reserved_slabs * old(
                self).access.slab_size <= reserved_space,
    {
        let slabs: u64 = reserved_space / self.access.slab_size;
        proof {
            let (x, z) = (reserved_space as int, self.access.slab_size as int);
            let (q, m) = (slabs as int, min_slabs as int);
            assert(q * z <= x < (q + 1) * z) by (nonlinear_arith)
                requires
                    z > 0,
                    q == x / z,
            ;
            if q <= m {
                assert((q + 1) * z <= (m + 1) * z) by (nonlinear_arith)
                    requires
                        q <= m,
                        z > 0,
                ;
            }
        }
        self.reserved_slabs = if slabs > min_slabs {
            slabs
        } else {
            min_slabs
        };
    }

    /// Allocates a slab for metadata, be it a reserved one. The last `super_reserved` slabs are
    /// never allocated, and it is an error to run down to them.
    pub fn allocate_reserved(&mut self, super_reserved: u64) -> (id: SlabId)
        requires
            old(self).wf(),
            old(self).allocatable@.len() > super_reserved,
        ensures
            final(self).wf(),
            final(self).access == old(self).access,
            final(self).freeing == old(self).freeing,
            final(self).noalloc_state == old(self).noalloc_state,
            final(self).noallocing == old(self).noallocing,
            final(self).reserved_slabs == old(self).reserved_slabs,
            old(self).separate() ==> final(self).separate(),
            id == old(self).allocatable@.last(),
            final(self).allocatable@ == old(self).allocatable@.drop_last(),
            old(self).places(id) == 1,
            final(self).allocated(id),
            old(self).separate() ==> !final(self).removing(final(self).access.slab_disk(id)),
            forall|s: SlabId| s != id ==> #[trigger] final(self).places(s) == old(self).places(s),
    {
        self.take_slab()
    }

    /// Gives a slab back. It can be allocated again after the next `release_frees`.
    pub fn free(&mut self, slab: SlabId)
        requires
            old(self).wf(),
            old(self).allocated(slab),
        ensures
            final(self).wf(),
            final(self).access == old(self).access,
            final(self).allocatable == old(self).allocatable,
            final(self).noalloc_state == old(self).noalloc_state,
            final(self).reserved_slabs == old(self).reserved_slabs,
            old(self).separate() ==> final(self).separate(),
            ({
                let removing = old(self).removing(old(self).access.slab_disk(slab));
                &&& final(self).noallocing@ == if removing {
                    old(self).noallocing@.push(slab)
                } else {
                    old(self).noallocing@
                }
                &&& final(self).freeing@ == if removing {
                    old(self).freeing@
                } else {
                    old(self).freeing@.push(slab)
                }
            }),
            forall|s: SlabId|
                #[trigger] final(self).places(s) == old(self).places(s) + if s == slab {
                    1nat
                } else {
                    0nat
                },
    {
        let ghost a = *self;
        proof {
            self.access.lemma_slab_extent(self.access.holder(slab), slab);
            lemma_times_push(self.noallocing@, slab);
            lemma_times_push(self.freeing@, slab);
        }
        let disk: usize = self.access.slab_id_to_extent(slab).location.disk().index();
        if self.noalloc_state.contains_key(disk) {
            self.noallocing.push(slab);
        } else {
            self.freeing.push(slab);
        }
        proof {
            lemma_put(a, *self, slab);
            if a.separate() {
                assert forall|s: SlabId| #[trigger] times(self.freeing@, s) > 0 implies
                    !self.removing(self.access.slab_disk(s)) by {
                    if s != slab {
                        assert(times(a.freeing@, s) > 0);
                    }
                }
                assert forall|s: SlabId| #[trigger] times(self.allocatable@, s) > 0 implies
                    !self.removing(self.access.slab_disk(s)) by {
                    assert(times(a.allocatable@, s) > 0);
                }
            }
        }
    }

    /// Adds capacity. Its slabs cannot be allocated before the next checkpoint, when the
    /// superblocks have been updated to reflect it. Capacity smaller than a slab has none.
    pub fn extend(&mut self, capacity: Extent)
        requires
            old(self).wf(),
            capacity.wf(),
            old(self).access.next_slab_id.0 + n_slabs(
                whole_slabs(capacity, old(self).access.slab_size),
                old(self).access.slab_size,
            ) <= u64::MAX,
            (old(self).access.num_slabs + n_slabs(
                whole_slabs(capacity, old(self).access.slab_size),
                old(self).access.slab_size,
            )) * old(self).access.slab_size <= u64::MAX,
            capacity.size >= old(self).access.slab_size ==> forall|i: int|
                0 <= i < old(self).access.capacity@.len() && (
                #[trigger] old(self).access.capacity@[i]).1 is Present ==> apart(
                    old(self).access.capacity@[i].1.spec_extent(),
                    whole_slabs(capacity, old(self).access.slab_size),
                ),
        ensures
            final(self).wf(),
            final(self).access.slab_size == old(self).access.slab_size,
            capacity.size < old(self).access.slab_size ==> *final(self) == *old(self),
            capacity.size >= old(self).access.slab_size ==> final(self).access.capacity@ == old(
                self).access.capacity@.push(
                (
                    old(self).access.next_slab_id,
                    SlabExtentPhys::Present {
                        extent: whole_slabs(capacity, old(self).access.slab_size),
                    },
                ),
            ),
            final(self).freeing@ == old(self).freeing@ + new_slab_ids(
                old(self).access.next_slab_id.0 as int,
                n_slabs(
                    whole_slabs(capacity, old(self).access.slab_size),
                    old(self).access.slab_size,
                ),
            ),
            forall|id: SlabId|
                #[trigger] id_between(
                    id,
                    old(self).access.next_slab_id.0 as int,
                    old(self).access.next_slab_id.0 + n_slabs(
                        whole_slabs(capacity, old(self).access.slab_size),
                        old(self).access.slab_size,
                    ),
                ) ==> final(self).access.valid(id) && final(self).access.slab_extent(id).disk_no()
                    == capacity.disk_no(),
            forall|id: SlabId|
                (#[trigger] old(self).access.valid(id)) ==> final(self).access.valid(id) && final(self).access.slab_extent(id)
                    == old(self).access.slab_extent(id),
            final(self).allocatable == old(self).allocatable,
            final(self).noalloc_state == old(self).noalloc_state,
            final(self).noallocing == old(self).noallocing,
            final(self).reserved_slabs == old(self).reserved_slabs,
            old(self).separate() && !old(self).removing(capacity.disk_no()) ==> final(
                self).separate(),
    {
        let ghost a = *self;
        let ghost z = self.access.slab_size;
        if capacity.size < self.access.slab_size {
            proof {
                vstd::arithmetic::div_mod::lemma_small_mod(capacity.size as nat, z as nat);
                assert(n_slabs(whole_slabs(capacity, z), z) == 0) by (nonlinear_arith)
                    requires
                        whole_slabs(capacity, z).size == 0,
                        z > 0,
                ;
                assert(self.freeing@ =~= self.freeing@ + new_slab_ids(
                    self.access.next_slab_id.0 as int,
                    0,
                ));
            }
            return;
        }
        proof {
            lemma_mod_at_most(capacity.size as int, z as int);
            lemma_n_slabs(whole_slabs(capacity, z), z);
        }
        // capacity is aligned to be a multiple of slabsize
        let extent = capacity.trim_end(capacity.size - capacity.size % self.access.slab_size);
        let first: u64 = self.access.next_slab_id.0;
        let n: u64 = extent.size / self.access.slab_size;
        let ghost new_ids = new_slab_ids(first as int, n as int);
        self.access.push_capacity(SlabExtentPhys::Present { extent });
        proof {
            assert(a.freeing@ =~= a.freeing@ + new_ids.take(0));
            // nothing about the slabs that were there has changed
            assert forall|s: SlabId| #[trigger] self.places(s) == a.places(s) by {
                if a.access.valid(s) {
                    assert(self.access.slab_extent(s) == a.access.slab_extent(s));
                } else {
                    assert(a.places(s) == 0);
                    let d = self.access.slab_disk(s);
                    if self.removing(d) && times(self.noalloc_state@[d]@, s) > 0 {
                        assert(a.access.slab_disk(s) == d);
                    }
                }
            }
            lemma_after_extend(a, *self);
        }
        let mut i: u64 = 0;
        while i < n
            invariant
                i <= n,
                first + n <= u64::MAX,
                first == a.access.next_slab_id.0,
                self.wf(),
                new_ids == new_slab_ids(first as int, n as int),
                self.freeing@ == a.freeing@ + new_ids.take(i as int),
                self.allocatable == a.allocatable,
                self.noalloc_state == a.noalloc_state,
                self.noallocing == a.noallocing,
                self.reserved_slabs == a.reserved_slabs,
                self.access.slab_size == z,
                z == a.access.slab_size,
                self.access.capacity@ == a.access.capacity@.push(
                    (a.access.next_slab_id, SlabExtentPhys::Present { extent: extent }),
                ),
                forall|id: SlabId|
                    (#[trigger] a.access.valid(id)) ==> self.access.valid(id) && self.access.slab_extent(id) == a.access.slab_extent(id),
                forall|id: SlabId|
                    #[trigger] id_between(id, first as int, first + n) ==> self.access.valid(id)
                        && self.access.slab_extent(id).disk_no() == extent.disk_no(),
                forall|id: SlabId|
                    first + i <= id.0 < first + n ==> #[trigger] self.places(id) == 0,
                a.separate() && !a.removing(extent.disk_no()) ==> self.separate(),
            decreases n - i,
        {
            let id = SlabId(first + i);
            let ghost b = *self;
            proof {
                assert(id_between(id, first as int, first + n));
                assert(self.places(id) == 0);
                lemma_times_push(self.freeing@, id);
            }
            self.freeing.push(id);
            proof {
                lemma_put(b, *self, id);
                assert(new_ids.take(i + 1) =~= new_ids.take(i as int).push(id));
                assert(self.freeing@ =~= a.freeing@ + new_ids.take(i + 1));
                if a.separate() && !a.removing(extent.disk_no()) {
                    assert forall|s: SlabId| #[trigger] times(self.freeing@, s) > 0 implies
                        !self.removing(self.access.slab_disk(s)) by {
                        if s != id {
                            assert(times(b.freeing@, s) > 0);
                            assert(!b.removing(b.access.slab_disk(s)));
                        } else {
                            assert(self.access.valid(id));
                            assert(self.access.slab_disk(id) == extent.disk_no());
                        }
                    }
                    assert forall|s: SlabId| #[trigger] times(self.allocatable@, s) > 0 implies
                        !self.removing(self.access.slab_disk(s)) by {
                        assert(times(b.allocatable@, s) > 0);
                        assert(!b.removing(b.access.slab_disk(s)));
                    }
                }
            }
            i += 1;
        }
        proof {
            assert(new_ids.take(n as int) =~= new_ids);
        }
    }
}

/// The free slabs after capacity was added but before its slabs are.
proof fn lemma_after_extend(a: SlabAllocator, b: SlabAllocator)
    requires
        a.wf(),
        b.access.wf(),
        b.allocatable == a.allocatable,
        b.freeing == a.freeing,
        b.noalloc_state == a.noalloc_state,
        b.noallocing == a.noallocing,
        forall|id: SlabId|
            (#[trigger] a.access.valid(id)) ==> b.access.valid(id) && b.access.slab_extent(id)
                == a.access.slab_extent(id),
        forall|id: SlabId| (#[trigger] a.access.valid(id)) ==> id.0 < a.access.next_slab_id.0,
        forall|s: SlabId| #[trigger] b.places(s) == a.places(s),
    ensures
        b.wf(),
        a.separate() ==> b.separate(),
        forall|id: SlabId| id.0 >= a.access.next_slab_id.0 ==> #[trigger] b.places(id) == 0,
{
    assert forall|s: SlabId| #[trigger] b.places(s) <= 1 by {
        assert(a.places(s) <= 1);
    }
    assert forall|s: SlabId| #[trigger] b.places(s) > 0 implies b.access.valid(s) by {
        assert(a.places(s) > 0);
        assert(a.access.valid(s));
        assert(b.access.slab_extent(s) == a.access.slab_extent(s));
    }
    assert forall|d: int| #[trigger] b.removing(d) implies 0 <= d <= MAX_DISK_ID by {
        assert(a.removing(d));
    }
    assert forall|d: int, s: SlabId|
        b.removing(d) && times(#[trigger] b.noalloc_state@[d]@, s) > 0 implies
        #[trigger] b.access.slab_disk(s) == d by {
        assert(a.removing(d));
        assert(a.access.slab_disk(s) == d);
        assert(a.places(s) > 0);
        assert(b.access.slab_extent(s) == a.access.slab_extent(s));
    }
    assert forall|s: SlabId| #[trigger] times(b.noallocing@, s) > 0 implies b.removing(
        b.access.slab_disk(s),
    ) by {
        assert(a.removing(a.access.slab_disk(s)));
        assert(a.places(s) > 0);
        assert(b.access.slab_extent(s) == a.access.slab_extent(s));
    }
    assert forall|id: SlabId| id.0 >= a.access.next_slab_id.0 implies #[trigger] b.places(id)
        == 0 by {
        if a.places(id) > 0 {
            assert(a.access.valid(id));
        }
    }
    if a.separate() {
        assert forall|s: SlabId| #[trigger] times(b.allocatable@, s) > 0 implies !b.removing(
            b.access.slab_disk(s),
        ) by {
            assert(!a.removing(a.access.slab_disk(s)));
            assert(a.places(s) > 0);
            assert(b.access.slab_extent(s) == a.access.slab_extent(s));
        }
        assert forall|s: SlabId| #[trigger] times(b.freeing@, s) > 0 implies !b.removing(
            b.access.slab_disk(s),
        ) by {
            assert(!a.removing(a.access.slab_disk(s)));
            assert(a.places(s) > 0);
            assert(b.access.slab_extent(s) == a.access.slab_extent(s));
        }
    }
}


/// The same slabs in the same places, however the lists are ordered.
proof fn lemma_rearranged(a: SlabAllocator, b: SlabAllocator)
    requires
        a.wf(),
        b.access == a.access,
        forall|s: SlabId| #[trigger] b.places(s) == a.places(s),
        forall|d: int| #[trigger] b.removing(d) ==> 0 <= d <= MAX_DISK_ID,
        forall|d: int, s: SlabId|
            b.removing(d) && times(#[trigger] b.noalloc_state@[d]@, s) > 0
                ==> #[trigger] b.access.slab_disk(s) == d,
        forall|s: SlabId|
            #[trigger] times(b.noallocing@, s) > 0 ==> b.removing(b.access.slab_disk(s)),
    ensures
        b.wf(),
{
    assert forall|s: SlabId| #[trigger] b.places(s) <= 1 by {
        assert(a.places(s) <= 1);
    }
    assert forall|s: SlabId| #[trigger] b.places(s) > 0 implies b.access.valid(s) by {
        assert(a.places(s) > 0);
    }
}

/// The lists of the disks that are being removed, after the slabs of `ids` were added to those
/// of their disks.
pub open spec fn distributed(
    access: SlabAccess,
    state: Map<int, Seq<SlabId>>,
    ids: Seq<SlabId>,
) -> Map<int, Seq<SlabId>> {
    Map::new(|d: int| state.contains_key(d), |d: int| state[d] + slabs_of_disk(access, ids, d))
}

/// The lists of the disks that are being removed, as sequences.
pub open spec fn noalloc_lists(state: VecMap<Vec<SlabId>>) -> Map<int, Seq<SlabId>> {
    Map::new(|d: int| state@.contains_key(d), |d: int| state@[d]@)
}

/// One more slab is added to the list of its disk.
proof fn lemma_distributed_push(
    access: SlabAccess,
    state: Map<int, Seq<SlabId>>,
    ids: Seq<SlabId>,
    id: SlabId,
)
    requires
        state.contains_key(access.slab_disk(id)),
    ensures
        ({
            let d = access.slab_disk(id);
            let had = distributed(access, state, ids);
            distributed(access, state, ids.push(id)) == had.insert(d, had[d].push(id))
        }),
{
    let disk = access.slab_disk(id);
    let had = distributed(access, state, ids);
    let want = distributed(access, state, ids.push(id));
    assert(ids.push(id).drop_last() =~= ids);
    assert forall|d: int| #[trigger] want.contains_key(d) implies want[d] == had.insert(
        disk,
        had[disk].push(id),
    )[d] by {
        if d == disk {
            assert(slabs_of_disk(access, ids.push(id), d) == slabs_of_disk(access, ids, d).push(
                id,
            ));
            assert(want[d] =~= had[d].push(id));
        } else {
            assert(slabs_of_disk(access, ids.push(id), d) == slabs_of_disk(access, ids, d));
        }
    }
    assert(want =~= had.insert(disk, had[disk].push(id)));
}

/// Splits a list by whether the slabs are on a disk.
fn split_by_disk(access: &SlabAccess, slabs: &Vec<SlabId>, disk: DiskId) -> (r: (
    Vec<SlabId>,
    Vec<SlabId>,
))
    requires
        access.wf(),
        disk.wf(),
        forall|i: int| 0 <= i < slabs@.len() ==> access.valid(#[trigger] slabs@[i]),
    ensures
        r.0@ == slabs_of_disk(*access, slabs@, disk.0 as int),
        r.1@ == slabs_of_others(*access, slabs@, disk.0 as int),
{
    let mut on: Vec<SlabId> = Vec::new();
    let mut off: Vec<SlabId> = Vec::new();
    let mut i: usize = 0;
    assert(slabs@.take(0) =~= Seq::<SlabId>::empty());
    while i < slabs.len()
        invariant
            access.wf(),
            disk.wf(),
            i <= slabs@.len(),
            forall|i: int| 0 <= i < slabs@.len() ==> access.valid(#[trigger] slabs@[i]),
            on@ == slabs_of_disk(*access, slabs@.take(i as int), disk.0 as int),
            off@ == slabs_of_others(*access, slabs@.take(i as int), disk.0 as int),
        decreases slabs@.len() - i,
    {
        let id = slabs[i];
        proof {
            assert(slabs@.take(i + 1).drop_last() =~= slabs@.take(i as int));
            assert(slabs@.take(i + 1).last() == id);
            access.lemma_slab_extent(access.holder(id), id);
        }
        if access.slab_id_to_extent(id).location.disk() == disk {
            on.push(id);
        } else {
            off.push(id);
        }
        i += 1;
    }
    assert(slabs@.take(i as int) =~= slabs@);
    (on, off)
}

impl SlabAllocator {
    proof fn lemma_listed_valid(&self, list: Seq<SlabId>)
        requires
            self.wf(),
            forall|id: SlabId| #[trigger] times(list, id) <= self.places(id),
        ensures
            forall|i: int| 0 <= i < list.len() ==> self.access.valid(#[trigger] list[i]),
    {
        assert forall|i: int| 0 <= i < list.len() implies self.access.valid(#[trigger] list[i]) by {
            lemma_times_contains(list, list[i]);
            assert(list.contains(list[i]));
            assert(self.places(list[i]) > 0);
        }
    }

    /// Marks all slabs that are part of `disk` as non-allocatable. No further allocations can be
    /// made from these slabs and they won't be reused once freed.
    pub fn mark_noalloc_disk(&mut self, disk: DiskId)
        requires
            old(self).wf(),
            disk.wf(),
            !old(self).removing(disk.0 as int),
        ensures
            final(self).wf(),
            final(self).access == old(self).access,
            final(self).reserved_slabs == old(self).reserved_slabs,
            final(self).allocatable@ == slabs_of_others(
                old(self).access,
                old(self).allocatable@,
                disk.0 as int,
            ),
            final(self).freeing@ == slabs_of_others(
                old(self).access,
                old(self).freeing@,
                disk.0 as int,
            ),
            final(self).noallocing@ == old(self).noallocing@ + slabs_of_disk(
                old(self).access,
                old(self).freeing@,
                disk.0 as int,
            ),
            noalloc_lists(final(self).noalloc_state) == noalloc_lists(
                old(self).noalloc_state,
            ).insert(
                disk.0 as int,
                slabs_of_disk(old(self).access, old(self).allocatable@, disk.0 as int),
            ),
            forall|s: SlabId| #[trigger] final(self).places(s) == old(self).places(s),
            old(self).separate() ==> final(self).separate(),
    {
        let ghost a = *self;
        let ghost dn = disk.0 as int;
        proof {
            self.lemma_listed_valid(self.allocatable@);
            self.lemma_listed_valid(self.freeing@);
            lemma_split_by_disk(self.access, self.allocatable@, dn);
            lemma_split_by_disk(self.access, self.freeing@, dn);
        }
        let (on, off) = split_by_disk(&self.access, &self.allocatable, disk);
        let (freeing_on, freeing_off) = split_by_disk(&self.access, &self.freeing, disk);
        proof {
            lemma_times_append(self.noallocing@, freeing_on@);
        }
        self.allocatable = off;
        self.freeing = freeing_off;
        let mut freeing_on = freeing_on;
        self.noallocing.append(&mut freeing_on);
        let ghost on_seq = on@;
        self.noalloc_state.insert(disk.index(), on);
        proof {
            assert(noalloc_lists(self.noalloc_state) =~= noalloc_lists(a.noalloc_state).insert(
                dn,
                on_seq,
            ));
            assert forall|s: SlabId| #[trigger] self.places(s) == a.places(s) by {
                let d = a.access.slab_disk(s);
                assert(times(self.noallocing@, s) == times(a.noallocing@, s) + times(
                    slabs_of_disk(a.access, a.freeing@, dn),
                    s,
                ));
                assert(times(self.allocatable@, s) + times(on_seq, s) == times(a.allocatable@, s));
            }
            assert forall|d: int| #[trigger] self.removing(d) implies 0 <= d <= MAX_DISK_ID by {
                if d != dn {
                    assert(a.removing(d));
                }
            }
            assert forall|d: int, s: SlabId|
                self.removing(d) && times(#[trigger] self.noalloc_state@[d]@, s) > 0 implies
                #[trigger] self.access.slab_disk(s) == d by {
                if d != dn {
                    assert(a.removing(d));
                    assert(self.noalloc_state@[d] == a.noalloc_state@[d]);
                } else {
                    assert(times(on_seq, s) > 0);
                }
            }
            assert forall|s: SlabId| #[trigger] times(self.noallocing@, s) > 0 implies
                self.removing(self.access.slab_disk(s)) by {
                if times(a.noallocing@, s) > 0 {
                    assert(a.removing(a.access.slab_disk(s)));
                } else {
                    assert(times(slabs_of_disk(a.access, a.freeing@, dn), s) > 0);
                }
            }
            lemma_rearranged(a, *self);
            if a.separate() {
                assert forall|s: SlabId| #[trigger] times(self.allocatable@, s) > 0 implies
                    !self.removing(self.access.slab_disk(s)) by {
                    assert(times(a.allocatable@, s) > 0);
                }
                assert forall|s: SlabId| #[trigger] times(self.freeing@, s) > 0 implies
                    !self.removing(self.access.slab_disk(s)) by {
                    assert(times(a.freeing@, s) > 0);
                }
            }
        }
    }

    /// As long as a disk is marked, no slab of it is allocated, also not after a checkpoint.
    pub proof fn law_marked_not_allocated(&self, id: SlabId)
        requires
            self.separate(),
            self.removing(self.access.slab_disk(id)),
        ensures
            !self.allocatable@.contains(id),
            !self.freeing@.contains(id),
    {
        lemma_times_contains(self.allocatable@, id);
        lemma_times_contains(self.freeing@, id);
    }

    /// Unmarking a disk leaves the slabs of other disks where they are.
    pub proof fn law_unmark_leaves_others(&self, other: SlabAllocator, disk: int, id: SlabId)
        requires
            self.wf(),
            self.removing(disk),
            other.allocatable@.to_multiset() == (self.allocatable@
                + self.noalloc_state@[disk]@).to_multiset(),
            other.freeing@ == self.freeing@ + slabs_of_disk(self.access, self.noallocing@, disk),
            other.noallocing@ == slabs_of_others(self.access, self.noallocing@, disk),
            noalloc_lists(other.noalloc_state) == noalloc_lists(self.noalloc_state).remove(disk),
            self.access.slab_disk(id) != disk,
        ensures
            times(other.allocatable@, id) == times(self.allocatable@, id),
            times(other.freeing@, id) == times(self.freeing@, id),
            times(other.noallocing@, id) == times(self.noallocing@, id),
            other.removing(self.access.slab_disk(id)) == self.removing(self.access.slab_disk(id)),
    {
        let list = self.noalloc_state@[disk]@;
        lemma_times_append(self.allocatable@, list);
        lemma_times_append(
            self.freeing@,
            slabs_of_disk(self.access, self.noallocing@, disk),
        );
        lemma_split_by_disk(self.access, self.noallocing@, disk);
        lemma_times_contains(list, id);
        let d = self.access.slab_disk(id);
        assert(noalloc_lists(other.noalloc_state).contains_key(d) == noalloc_lists(
            self.noalloc_state,
        ).contains_key(d));
        assert(times(other.allocatable@, id) == times(self.allocatable@ + list, id));
        assert(times(self.freeing@ + slabs_of_disk(self.access, self.noallocing@, disk), id)
            == times(self.freeing@, id) + times(
            slabs_of_disk(self.access, self.noallocing@, disk),
            id,
        ));
    }

    /// Marks all free slabs that are part of `disk` as allocatable. This also enables
    /// the reuse of allocated slabs that are freed. Slabs of other disks stay as they are.
    pub fn unmark_noalloc_disk(&mut self, disk: DiskId)
        requires
            old(self).wf(),
            old(self).removing(disk.0 as int),
        ensures
            final(self).wf(),
            final(self).access == old(self).access,
            final(self).reserved_slabs == old(self).reserved_slabs,
            final(self).allocatable@.to_multiset() == (old(self).allocatable@
                + old(self).noalloc_state@[disk.0 as int]@).to_multiset(),
            final(self).freeing@ == old(self).freeing@ + slabs_of_disk(
                old(self).access,
                old(self).noallocing@,
                disk.0 as int,
            ),
            final(self).noallocing@ == slabs_of_others(
                old(self).access,
                old(self).noallocing@,
                disk.0 as int,
            ),
            noalloc_lists(final(self).noalloc_state) == noalloc_lists(
                old(self).noalloc_state,
            ).remove(disk.0 as int),
            forall|s: SlabId| #[trigger] final(self).places(s) == old(self).places(s),
            old(self).separate() ==> final(self).separate(),
    {
        let ghost a = *self;
        let ghost dn = disk.0 as int;
        let mut slabs = self.noalloc_state.remove(disk.index()).unwrap();
        let ghost list = slabs@;
        proof {
            lemma_times_append(a.allocatable@, list);
            a.lemma_listed_valid(a.noallocing@);
            lemma_split_by_disk(a.access, a.noallocing@, dn);
            assert(a.removing(dn));
        }
        let (freed_on, freed_off) = split_by_disk(&self.access, &self.noallocing, disk);
        let ghost on_seq = freed_on@;
        let ghost off_seq = freed_off@;
        proof {
            lemma_times_append(a.freeing@, on_seq);
        }
        self.allocatable.append(&mut slabs);
        let mut freed_on = freed_on;
        self.freeing.append(&mut freed_on);
        self.noallocing = freed_off;
        proof {
            assert(self.allocatable@ == a.allocatable@ + list);
        }
        shuffle_slabs(&mut self.allocatable);
        proof {
            assert(noalloc_lists(self.noalloc_state) =~= noalloc_lists(a.noalloc_state).remove(dn));
            assert forall|s: SlabId| #[trigger] times(self.allocatable@, s) == times(
                a.allocatable@,
                s,
            ) + times(list, s) by {
                assert(times(a.allocatable@ + list, s) == times(a.allocatable@, s) + times(
                    list,
                    s,
                ));
            }
            assert forall|s: SlabId| #[trigger] self.places(s) == a.places(s) by {
                let d = a.access.slab_disk(s);
                assert(times(a.freeing@ + on_seq, s) == times(a.freeing@, s) + times(on_seq, s));
                assert(times(on_seq, s) + times(off_seq, s) == times(a.noallocing@, s));
                assert(times(self.allocatable@, s) == times(a.allocatable@, s) + times(list, s));
                if d != dn && times(list, s) > 0 {
                    assert(times(a.noalloc_state@[dn]@, s) > 0);
                }
            }
            assert forall|d: int| #[trigger] self.removing(d) implies 0 <= d <= MAX_DISK_ID by {
                assert(a.removing(d));
            }
            assert forall|d: int, s: SlabId|
                self.removing(d) && times(#[trigger] self.noalloc_state@[d]@, s) > 0 implies
                #[trigger] self.access.slab_disk(s) == d by {
                assert(a.removing(d));
                assert(self.noalloc_state@[d] == a.noalloc_state@[d]);
            }
            assert forall|s: SlabId| #[trigger] times(self.noallocing@, s) > 0 implies
                self.removing(self.access.slab_disk(s)) by {
                assert(times(on_seq, s) + times(off_seq, s) == times(a.noallocing@, s));
                assert(a.removing(a.access.slab_disk(s)));
            }
            lemma_rearranged(a, *self);
            if a.separate() {
                assert forall|s: SlabId| #[trigger] times(self.allocatable@, s) > 0 implies
                    !self.removing(self.access.slab_disk(s)) by {
                    if times(list, s) > 0 {
                        assert(times(a.noalloc_state@[dn]@, s) > 0);
                        assert(a.access.slab_disk(s) == dn);
                    } else {
                        assert(times(a.allocatable@, s) > 0);
                    }
                }
                assert forall|s: SlabId| #[trigger] times(self.freeing@, s) > 0 implies
                    !self.removing(self.access.slab_disk(s)) by {
                    assert(times(a.freeing@ + on_seq, s) == times(a.freeing@, s) + times(
                        on_seq,
                        s,
                    ));
                    if times(a.freeing@, s) > 0 {
                        assert(!a.removing(a.access.slab_disk(s)));
                    }
                }
            }
        }
    }

    /// Releases the space held by freed slabs, allowing them to be re-allocated. This is safe
    /// to call after the checkpoint has been persisted to disk.
    pub fn release_frees(&mut self)
        requires
            old(self).wf(),
        ensures
            final(self).wf(),
            final(self).access == old(self).access,
            final(self).reserved_slabs == old(self).reserved_slabs,
            final(self).allocatable@.to_multiset() == (old(self).allocatable@
                + old(self).freeing@).to_multiset(),
            final(self).freeing@.len() == 0,
            final(self).noallocing@.len() == 0,
            final(self).noalloc_state@.dom() == old(self).noalloc_state@.dom(),
            noalloc_lists(final(self).noalloc_state) == distributed(
                old(self).access,
                noalloc_lists(old(self).noalloc_state),
                old(self).noallocing@,
            ),
            forall|s: SlabId| #[trigger] final(self).places(s) == old(self).places(s),
            old(self).separate() ==> final(self).separate(),
    {
        let ghost a = *self;
        let mut moved: Vec<SlabId> = Vec::new();
        std::mem::swap(&mut moved, &mut self.noallocing);
        let ghost lists0 = noalloc_lists(a.noalloc_state);
        let mut i: usize = 0;
        proof {
            a.lemma_listed_valid(a.noallocing@);
            assert(moved@.take(0) =~= Seq::<SlabId>::empty());
            assert(noalloc_lists(self.noalloc_state) =~= distributed(
                a.access,
                lists0,
                moved@.take(0),
            ));
        }
        while i < moved.len()
            invariant
                i <= moved@.len(),
                moved@ == a.noallocing@,
                a.wf(),
                self.access == a.access,
                self.allocatable == a.allocatable,
                self.freeing == a.freeing,
                self.noallocing@.len() == 0,
                self.reserved_slabs == a.reserved_slabs,
                lists0 == noalloc_lists(a.noalloc_state),
                self.noalloc_state@.dom() == a.noalloc_state@.dom(),
                forall|k: int| 0 <= k < moved@.len() ==> a.access.valid(#[trigger] moved@[k]),
                noalloc_lists(self.noalloc_state) == distributed(
                    a.access,
                    lists0,
                    moved@.take(i as int),
                ),
            decreases moved@.len() - i,
        {
            let id = moved[i];
            proof {
                lemma_times_contains(moved@, id);
                assert(moved@.contains(id));
                assert(a.removing(a.access.slab_disk(id)));
                a.access.lemma_slab_extent(a.access.holder(id), id);
                assert(moved@.take(i + 1).drop_last() =~= moved@.take(i as int));
                assert(moved@.take(i + 1).last() == id);
                assert(self.removing(a.access.slab_disk(id)));
            }
            let disk: usize = self.access.slab_id_to_extent(id).location.disk().index();
            let ghost n0 = self.noalloc_state@;
            let mut slabs = self.noalloc_state.remove(disk).unwrap();
            slabs.push(id);
            self.noalloc_state.insert(disk, slabs);
            proof {
                assert(self.noalloc_state@ =~= n0.insert(disk as int, slabs));
                assert(self.noalloc_state@.dom() =~= n0.dom());
                lemma_distributed_push(a.access, lists0, moved@.take(i as int), id);
                assert(moved@.take(i + 1) =~= moved@.take(i as int).push(id));
                let had = distributed(a.access, lists0, moved@.take(i as int));
                assert(had.contains_key(disk as int));
                assert(had[disk as int].push(id) == slabs@);
                assert(noalloc_lists(self.noalloc_state) =~= had.insert(disk as int, slabs@));
            }
            i += 1;
        }
        proof {
            assert(moved@.take(i as int) =~= moved@);
            lemma_times_append(a.allocatable@, a.freeing@);
        }
        self.allocatable.append(&mut self.freeing);
        proof {
            assert(self.allocatable@ == a.allocatable@ + a.freeing@);
        }
        shuffle_slabs(&mut self.allocatable);
        proof {
            lemma_times_empty(self.noallocing@);
            lemma_times_empty(self.freeing@);
            assert forall|s: SlabId| #[trigger] times(self.allocatable@, s) == times(
                a.allocatable@,
                s,
            ) + times(a.freeing@, s) by {
                assert(times(a.allocatable@ + a.freeing@, s) == times(a.allocatable@, s) + times(
                    a.freeing@,
                    s,
                ));
            }
            assert forall|d: int, s: SlabId| self.removing(d) implies #[trigger] times(
                self.noalloc_state@[d]@,
                s,
            ) == times(a.noalloc_state@[d]@, s) + (if a.access.slab_disk(s) == d {
                times(a.noallocing@, s)
            } else {
                0
            }) by {
                let l = distributed(a.access, lists0, a.noallocing@);
                assert(noalloc_lists(self.noalloc_state).contains_key(d));
                assert(l.contains_key(d));
                assert(lists0.contains_key(d));
                assert(lists0[d] == a.noalloc_state@[d]@);
                assert(noalloc_lists(self.noalloc_state)[d] == l[d]);
                assert(self.noalloc_state@[d]@ == a.noalloc_state@[d]@ + slabs_of_disk(
                    a.access,
                    a.noallocing@,
                    d,
                ));
                lemma_times_append(
                    a.noalloc_state@[d]@,
                    slabs_of_disk(a.access, a.noallocing@, d),
                );
                lemma_split_by_disk(a.access, a.noallocing@, d);
                assert(times(slabs_of_disk(a.access, a.noallocing@, d), s) == if a.access.slab_disk(
                    s,
                ) == d {
                    times(a.noallocing@, s)
                } else {
                    0
                });
                assert(times(
                    a.noalloc_state@[d]@ + slabs_of_disk(a.access, a.noallocing@, d),
                    s,
                ) == times(a.noalloc_state@[d]@, s) + times(
                    slabs_of_disk(a.access, a.noallocing@, d),
                    s,
                ));
            }
            assert forall|s: SlabId| #[trigger] self.places(s) == a.places(s) by {
                let d = a.access.slab_disk(s);
                assert(times(self.allocatable@, s) == times(a.allocatable@, s) + times(
                    a.freeing@,
                    s,
                ));
                if self.removing(d) {
                    assert(times(self.noalloc_state@[d]@, s) == times(a.noalloc_state@[d]@, s)
                        + times(a.noallocing@, s));
                } else {
                    assert(!a.removing(d));
                    if times(a.noallocing@, s) > 0 {
                        assert(a.removing(d));
                    }
                }
            }
            assert forall|d: int| #[trigger] self.removing(d) implies 0 <= d <= MAX_DISK_ID by {
                assert(a.removing(d));
            }
            assert forall|d: int, s: SlabId|
                self.removing(d) && times(#[trigger] self.noalloc_state@[d]@, s) > 0 implies
                #[trigger] self.access.slab_disk(s) == d by {
                assert(a.removing(d));
                assert(times(self.noalloc_state@[d]@, s) == times(a.noalloc_state@[d]@, s) + (
                if a.access.slab_disk(s) == d {
                    times(a.noallocing@, s)
                } else {
                    0
                }));
            }
            lemma_rearranged(a, *self);
            if a.separate() {
                assert forall|s: SlabId| #[trigger] times(self.allocatable@, s) > 0 implies
                    !self.removing(self.access.slab_disk(s)) by {
                    if times(a.allocatable@, s) > 0 {
                    } else {
                        assert(times(a.freeing@, s) > 0);
                    }
                    assert(!a.removing(a.access.slab_disk(s)));
                }
            }
        }
    }

    /// The persistent form: the capacity, without which slabs are allocated.
    pub fn get_phys(&self) -> (r: SlabAllocatorPhys)
        ensures
            r.slab_size == self.access.slab_size,
            r.capacity@ == self.access.capacity@.map_values(|e: (SlabId, SlabExtentPhys)| e.1),
    {
        let mut capacity: Vec<SlabExtentPhys> = Vec::new();
        let ghost want = self.access.capacity@.map_values(|e: (SlabId, SlabExtentPhys)| e.1);
        let mut i: usize = 0;
        while i < self.access.capacity.len()
            invariant
                i <= self.access.capacity@.len(),
                want == self.access.capacity@.map_values(|e: (SlabId, SlabExtentPhys)| e.1),
                capacity@ == want.take(i as int),
            decreases self.access.capacity@.len() - i,
        {
            capacity.push(self.access.capacity[i].1);
            i += 1;
            assert(capacity@ =~= want.take(i as int));
        }
        assert(want.take(i as int) =~= want);
        SlabAllocatorPhys { slab_size: self.access.slab_size, capacity }
    }

    /// Returns the amount of non-reserved available space, in bytes, i.e. the amount that could
    /// be allocated by `allocate`. Slabs of a disk that is being removed are not included.
    pub fn allocatable_bytes(&self) -> (r: u64)
        requires
            self.wf(),
        ensures
            r == if self.allocatable@.len() > self.reserved_slabs {
                (self.allocatable@.len() - self.reserved_slabs) * self.access.slab_size
            } else {
                0
            },
            self.allocatable@.len() >= self.reserved_slabs ==> r + self.reserved_slabs
                * self.access.slab_size == self.allocatable@.len() * self.access.slab_size,
            self.allocatable@.len() <= self.reserved_slabs ==> r == 0,
    {
        proof {
            let (n, k) = (self.allocatable@.len() as int, self.reserved_slabs as int);
            let z = self.access.slab_size as int;
            assert((n - k) * z + k * z == n * z) by (nonlinear_arith);
        }
        let n: u64 = self.allocatable.len() as u64;
        if n > self.reserved_slabs {
            proof {
                self.lemma_list_len(self.allocatable@);
                let a = n - self.reserved_slabs;
                let b = self.access.num_slabs as int;
                let z = self.access.slab_size as int;
                assert(a * z <= b * z) by (nonlinear_arith)
                    requires
                        a <= b,
                        z > 0,
                ;
            }
            (n - self.reserved_slabs) * self.access.slab_size
        } else {
            0
        }
    }

    /// Free slabs on the disks below `d` that are being removed.
    pub open spec fn noalloc_total(&self, d: int) -> int
        decreases d,
    {
        if d <= 0 {
            0
        } else {
            self.noalloc_total(d - 1) + if self.removing(d - 1) {
                self.noalloc_state@[d - 1]@.len() as int
            } else {
                0
            }
        }
    }

    proof fn lemma_noalloc_total(&self, d: int)
        requires
            self.wf(),
        ensures
            0 <= self.noalloc_total(d) <= slabs_on(
                self.access.capacity@,
                self.access.slab_size,
                self.noalloc_state@.dom(),
                d,
            ),
        decreases d,
    {
        if d > 0 {
            self.lemma_noalloc_total(d - 1);
            if self.removing(d - 1) {
                self.lemma_noalloc_len(d - 1);
            }
        }
    }

    /// Number of slabs on the disks that are being removed.
    pub open spec fn removing_slabs(&self) -> int {
        slabs_on(
            self.access.capacity@,
            self.access.slab_size,
            self.noalloc_state@.dom(),
            MAX_DISK_ID + 1,
        )
    }

    proof fn lemma_removing_slabs(&self, d: int)
        requires
            self.wf(),
            0 <= d <= MAX_DISK_ID + 1,
        ensures
            0 <= slabs_on(
                self.access.capacity@,
                self.access.slab_size,
                self.noalloc_state@.dom(),
                d,
            ) <= self.removing_slabs() <= self.access.num_slabs,
    {
        let cap = self.access.capacity@;
        let z = self.access.slab_size;
        let dom = self.noalloc_state@.dom();
        lemma_slabs_on_mono(cap, z, dom, d, MAX_DISK_ID + 1);
        lemma_slabs_on_bound(cap, z, dom, MAX_DISK_ID + 1, cap.len() as int);
        lemma_slabs_on_prefix_full(cap, z, dom, MAX_DISK_ID + 1);
        lemma_slabs_on_bound(cap, z, dom, d, cap.len() as int);
        lemma_slabs_on_prefix_full(cap, z, dom, d);
    }

    fn num_removing_slabs(&self) -> (r: u64)
        requires
            self.wf(),
        ensures
            r == self.removing_slabs(),
            r <= self.access.num_slabs,
    {
        let mut r: u64 = 0;
        let mut d: usize = 0;
        while d <= 510
            invariant
                self.wf(),
                d <= 511,
                r == slabs_on(
                    self.access.capacity@,
                    self.access.slab_size,
                    self.noalloc_state@.dom(),
                    d as int,
                ),
            decreases 511 - d,
        {
            proof {
                self.lemma_removing_slabs(d + 1);
            }
            if self.noalloc_state.contains_key(d) {
                r = r + self.access.disk_num_slabs(DiskId::new(d));
            }
            d += 1;
        }
        proof {
            self.lemma_removing_slabs(511);
        }
        r
    }

    /// Returns the number of slabs that are not currently allocated. This includes reserved and
    /// super-reserved slabs and the ones of disks that are being removed.
    pub fn free_slabs(&self) -> (r: u64)
        requires
            self.wf(),
        ensures
            r == self.allocatable@.len() + self.noalloc_total(MAX_DISK_ID + 1),
    {
        let mut r: u64 = self.allocatable.len() as u64;
        let mut d: usize = 0;
        proof {
            self.lemma_list_len(self.allocatable@);
            self.lemma_num_slabs_small();
        }
        while d <= 510
            invariant
                self.wf(),
                d <= 511,
                self.allocatable@.len() <= self.access.num_slabs <= u64::MAX / 512,
                r == self.allocatable@.len() + self.noalloc_total(d as int),
            decreases 511 - d,
        {
            proof {
                self.lemma_noalloc_total(d + 1);
                self.lemma_removing_slabs(d + 1);
            }
            if let Some(slabs) = self.noalloc_state.get(d) {
                r = r + slabs.len() as u64;
            }
            d += 1;
        }
        r
    }

    /// Returns the number of slabs that we would like the block allocator to evacuate and free,
    /// so that there are `target_available` slabs beside the reserved ones.
    pub fn num_slabs_to_evacuate(&self, target_available: u64) -> (r: u64)
        requires
            self.wf(),
            self.reserved_slabs + target_available <= u64::MAX,
        ensures
            ({
                let target = self.reserved_slabs + target_available;
                let current = self.allocatable@.len() + self.freeing@.len();
                r == if target > current {
                    target - current
                } else {
                    0
                }
            }),
            self.allocatable@.len() + self.freeing@.len() + r >= self.reserved_slabs
                + target_available,
            r > 0 ==> self.allocatable@.len() + self.freeing@.len() + r == self.reserved_slabs
                + target_available,
    {
        proof {
            self.lemma_list_len(self.allocatable@);
            self.lemma_list_len(self.freeing@);
            self.lemma_num_slabs_small();
        }
        let target: u64 = self.reserved_slabs + target_available;
        let current: u64 = self.allocatable.len() as u64 + self.freeing.len() as u64;
        if target > current {
            target - current
        } else {
            0
        }
    }

    /// Number of slabs on disks that are not being removed.
    pub fn num_slabs(&self) -> (r: u64)
        requires
            self.wf(),
        ensures
            r == self.access.num_slabs - self.removing_slabs(),
            r <= self.access.num_slabs,
    {
        self.access.num_slabs() - self.num_removing_slabs()
    }

    /// Returns the number of slabs that are currently allocated. To be called only for devices
    /// that are being removed.
    pub fn disk_slabs_to_evacuate(&self, disk: DiskId) -> (r: u64)
        requires
            self.wf(),
            self.removing(disk.0 as int),
        ensures
            r == self.access.disk_slab_count(disk.0 as int)
                - self.noalloc_state@[disk.0 as int]@.len(),
    {
        proof {
            self.lemma_noalloc_len(disk.0 as int);
        }
        let noalloc: u64 = self.noalloc_state.get(disk.index()).unwrap().len() as u64;
        self.access.disk_num_slabs(disk) - noalloc
    }

    pub fn disk_is_fully_evacuated(&self, disk: DiskId) -> (r: bool)
        requires
            self.wf(),
            self.removing(disk.0 as int),
        ensures
            r <==> self.access.disk_slab_count(disk.0 as int)
                == self.noalloc_state@[disk.0 as int]@.len(),
    {
        self.disk_slabs_to_evacuate(disk) == 0
    }

    /// A disk is fully evacuated exactly if nobody holds one of its slabs and none was freed
    /// since the last checkpoint.
    pub proof fn law_fully_evacuated(&self, disk: int)
        requires
            self.wf(),
            self.removing(disk),
            self.noalloc_state@[disk]@.len() == self.access.disk_slab_count(disk),
        ensures
            forall|id: SlabId|
                #[trigger] self.access.valid(id) && self.access.slab_disk(id) == disk
                    ==> !self.allocated(id) && times(self.allocatable@, id) == 0 && times(
                    self.freeing@,
                    id,
                ) == 0 && times(self.noallocing@, id) == 0,
    {
        self.lemma_noalloc_len(disk);
        assert forall|id: SlabId|
            #[trigger] self.access.valid(id) && self.access.slab_disk(id) == disk implies
            !self.allocated(id) && times(self.allocatable@, id) == 0 && times(self.freeing@, id)
            == 0 && times(self.noallocing@, id) == 0 by {
            assert(times(self.noalloc_state@[disk]@, id) == 1);
            assert(self.places(id) <= 1);
        }
    }

    pub fn removing_capacity(&self) -> (r: u64)
        requires
            self.wf(),
        ensures
            r == self.removing_slabs() * self.access.slab_size,
    {
        let mut r: u64 = 0;
        let mut d: usize = 0;
        while d <= 510
            invariant
                self.wf(),
                d <= 511,
                r == slabs_on(
                    self.access.capacity@,
                    self.access.slab_size,
                    self.noalloc_state@.dom(),
                    d as int,
                ) * self.access.slab_size,
            decreases 511 - d,
        {
            proof {
                self.lemma_removing_slabs(d + 1);
                let cap = self.access.capacity@;
                let z = self.access.slab_size as int;
                let dom = self.noalloc_state@.dom();
                let x = slabs_on(cap, self.access.slab_size, dom, d as int);
                let y = slabs_on(cap, self.access.slab_size, dom, d + 1);
                let k = self.access.disk_slab_count(d as int);
                let n = self.access.num_slabs as int;
                assert(y * z <= n * z) by (nonlinear_arith)
                    requires
                        y <= n,
                        z > 0,
                ;
                assert((x + k) * z == x * z + k * z) by (nonlinear_arith);
            }
            if self.noalloc_state.contains_key(d) {
                r = r + self.access.disk_capacity(DiskId::new(d));
            }
            d += 1;
        }
        r
    }

    /// The disks that are being removed, in ascending order.
    pub fn removing_disks(&self) -> (r: Vec<DiskId>)
        requires
            self.wf(),
        ensures
            forall|i: int, j: int| 0 <= i < j < r@.len() ==> (#[trigger] r@[i]).0 < (
            #[trigger] r@[j]).0,
            forall|d: int|
                self.removing(d) <==> exists|i: int| 0 <= i < r@.len() && (#[trigger] r@[i]).0 == d,
            forall|i: int| 0 <= i < r@.len() ==> (#[trigger] r@[i]).wf(),
    {
        let keys = self.noalloc_state.keys();
        let mut r: Vec<DiskId> = Vec::new();
        let mut i: usize = 0;
        while i < keys.len()
            invariant
                self.wf(),
                i <= keys@.len(),
                forall|a: int, b: int| 0 <= a < b < keys@.len() ==> keys@[a] < keys@[b],
                forall|a: int|
                    0 <= a < keys@.len() ==> self.noalloc_state@.contains_key(
                        #[trigger] keys@[a] as int,
                    ),
                r@.len() == i,
                forall|a: int|
                    0 <= a < i ==> (#[trigger] r@[a]).0 == keys@[a] && r@[a].wf(),
            decreases keys@.len() - i,
        {
            assert(self.removing(keys@[i as int] as int));
            r.push(DiskId::new(keys[i]));
            i += 1;
        }
        proof {
            assert forall|d: int| self.removing(d) <==> exists|i: int|
                0 <= i < r@.len() && (#[trigger] r@[i]).0 == d by {
                if self.removing(d) {
                    let k = choose|k: int| 0 <= k < keys@.len() && keys@[k] == d;
                    assert(r@[k].0 == d);
                }
                if exists|i: int| 0 <= i < r@.len() && (#[trigger] r@[i]).0 == d {
                    let k = choose|k: int| 0 <= k < r@.len() && (#[trigger] r@[k]).0 == d;
                    assert(self.noalloc_state@.contains_key(keys@[k] as int));
                }
            }
        }
        r
    }

    pub fn access(&self) -> (r: &SlabAccess)
        ensures
            *r == self.access,
    {
        &self.access
    }

    pub fn slab_id_to_extent(&self, slab_id: SlabId) -> (r: Extent)
        requires
            self.wf(),
            self.access.valid(slab_id),
        ensures
            r == self.access.slab_extent(slab_id),
            r.wf(),
            r.aligned(),
            r.size == self.access.slab_size,
    {
        self.access.slab_id_to_extent(slab_id)
    }

    pub fn extent_to_slab_id(&self, extent: Extent) -> (r: SlabId)
        requires
            self.wf(),
            extent.wf(),
            extent.size > 0,
            exists|id: SlabId|
                self.access.valid(id) && self.access.slab_extent(id).spec_contains(extent),
        ensures
            self.access.valid(r),
            self.access.slab_extent(r).spec_contains(extent),
    {
        self.access.extent_to_slab_id(extent)
    }

    pub fn slab_size(&self) -> (r: u64)
        ensures
            r == self.access.slab_size,
    {
        self.access.slab_size()
    }

    pub fn capacity(&self) -> (r: u64)
        requires
            self.wf(),
        ensures
            r == self.access.num_slabs * self.access.slab_size,
    {
        self.access.capacity()
    }

    pub fn disk_capacity(&self, disk: DiskId) -> (r: u64)
        requires
            self.wf(),
            disk.wf(),
        ensures
            r == self.access.disk_slab_count(disk.0 as int) * self.access.slab_size,
    {
        self.access.disk_capacity(disk)
    }
}


/// A list of capacity in which the extents of one disk have been removed.
pub open spec fn retired(cap: Seq<(SlabId, SlabExtentPhys)>, disk: int) -> Seq<
    (SlabId, SlabExtentPhys),
> {
    cap.map_values(|e: (SlabId, SlabExtentPhys)| retired_entry(e, disk))
}

pub open spec fn retired_entry(e: (SlabId, SlabExtentPhys), disk: int) -> (SlabId, SlabExtentPhys) {
    if e.1.on_disk(disk) {
        (e.0, SlabExtentPhys::Removed { extent: e.1.spec_extent() })
    } else {
        e
    }
}

proof fn lemma_retired_sums(cap: Seq<(SlabId, SlabExtentPhys)>, slab_size: u64, disk: int, n: int)
    requires
        0 <= n <= cap.len(),
    ensures
        start_id(retired(cap, disk), slab_size, n) == start_id(cap, slab_size, n),
        present_slabs(retired(cap, disk), slab_size, n) == present_slabs(cap, slab_size, n)
            - disk_slabs(cap, slab_size, disk, n),
        forall|d: int|
            #[trigger] disk_slabs(retired(cap, disk), slab_size, d, n) == if d == disk {
                0
            } else {
                disk_slabs(cap, slab_size, d, n)
            },
    decreases n,
{
    if n > 0 {
        lemma_retired_sums(cap, slab_size, disk, n - 1);
        assert(retired(cap, disk)[n - 1] == retired_entry(cap[n - 1], disk));
        assert forall|d: int|
            #[trigger] disk_slabs(retired(cap, disk), slab_size, d, n) == if d == disk {
                0
            } else {
                disk_slabs(cap, slab_size, d, n)
            } by {
            assert(disk_slabs(retired(cap, disk), slab_size, d, n - 1) == if d == disk {
                0
            } else {
                disk_slabs(cap, slab_size, d, n - 1)
            });
        }
    }
}

/// Removing a disk leaves the slabs of the others where they are.
#[verifier::rlimit(30)]
proof fn lemma_retired_access(a: SlabAccess, b: SlabAccess, disk: int)
    requires
        a.wf(),
        b.slab_size == a.slab_size,
        b.next_slab_id == a.next_slab_id,
        b.capacity@ == retired(a.capacity@, disk),
        b.num_slabs == a.num_slabs - a.disk_slab_count(disk),
        forall|k: u64|
            #[trigger] bimap_pairs(b.active_capacity).contains_key(k) <==> bimap_pairs(
                a.active_capacity,
            ).contains_key(k) && !gone(a.capacity@, disk, k, a.capacity@.len() as int),
        forall|k: u64|
            #[trigger] bimap_pairs(b.active_capacity).contains_key(k) ==> bimap_pairs(
                b.active_capacity,
            )[k] == bimap_pairs(a.active_capacity)[k],
    ensures
        b.wf(),
        forall|id: SlabId|
            #[trigger] b.valid(id) <==> a.valid(id) && a.slab_extent(id).disk_no() != disk,
        forall|id: SlabId| #[trigger] b.valid(id) ==> b.slab_extent(id) == a.slab_extent(id),
{
    let ca = a.capacity@;
    let cb = b.capacity@;
    let z = a.slab_size;
    let n = ca.len() as int;
    assert forall|i: int| 0 <= i < n implies cb[i] == retired_entry(ca[i], disk) by {}
    lemma_retired_sums(ca, z, disk, n);
    lemma_disk_slabs_bound(ca, z, disk, n);
    assert forall|i: int| 0 <= i < cb.len() implies ({
        let e = (#[trigger] cb[i]).1.spec_extent();
        &&& e.wf()
        &&& e.size > 0
        &&& e.size % z == 0
        &&& cb[i].0.0 == start_id(cb, z, i)
    }) by {
        assert(ca[i].1.spec_extent() == cb[i].1.spec_extent());
        lemma_retired_sums(ca, z, disk, i);
    }
    assert forall|i: int, j: int|
        0 <= i < j < cb.len() && (#[trigger] cb[i]).1 is Present && (
        #[trigger] cb[j]).1 is Present implies apart(
        cb[i].1.spec_extent(),
        cb[j].1.spec_extent(),
    ) by {
        assert(cb[i] == ca[i] && cb[j] == ca[j]);
    }
    let x = present_slabs(cb, z, n);
    let y = present_slabs(ca, z, n);
    assert(x * z <= y * z) by (nonlinear_arith)
        requires
            x <= y,
            z > 0,
    ;
    assert(b.active_ok()) by {
        let pa = bimap_pairs(a.active_capacity);
        let pb = bimap_pairs(b.active_capacity);
        assert forall|i: int| 0 <= i < cb.len() && (#[trigger] cb[i]).1 is Present implies {
            let e = cb[i].1.spec_extent();
            &&& pb.contains_key(cb[i].0.0)
            &&& pb[cb[i].0.0] == (e.location.raw, e.size)
        } by {
            assert(cb[i] == ca[i]);
            assert(!ca[i].1.on_disk(disk));
            if gone(ca, disk, ca[i].0.0, n) {
                let j = choose|j: int|
                    0 <= j < n && (#[trigger] ca[j]).1.on_disk(disk) && ca[j].0.0 == ca[i].0.0;
                if i < j {
                    lemma_start_id_mono(ca, z, i, j);
                    lemma_n_slabs(ca[i].1.spec_extent(), z);
                } else if j < i {
                    lemma_start_id_mono(ca, z, j, i);
                    lemma_n_slabs(ca[j].1.spec_extent(), z);
                }
            }
            assert(pa.contains_key(ca[i].0.0));
            assert(pb.contains_key(ca[i].0.0));
        }
        assert forall|k: u64| #[trigger] pb.contains_key(k) implies exists|i: int|
            0 <= i < cb.len() && (#[trigger] cb[i]).1 is Present && cb[i].0.0 == k by {
            assert(pa.contains_key(k));
            let i = choose|i: int|
                0 <= i < n && (#[trigger] ca[i]).1 is Present && ca[i].0.0 == k;
            assert(!gone(ca, disk, k, n));
            assert(!ca[i].1.on_disk(disk));
            assert(cb[i] == ca[i]);
        }
    }
    assert(b.wf());
    assert forall|id: SlabId| #[trigger] b.valid(id) implies a.valid(id) && a.slab_extent(
        id,
    ).disk_no() != disk && b.slab_extent(id) == a.slab_extent(id) by {
        let i = b.holder(id);
        assert(b.holds(i, id.0 as int));
        assert(cb[i] == ca[i]);
        assert(a.holds(i, id.0 as int));
        a.lemma_slab_extent(i, id);
        b.lemma_slab_extent(i, id);
    }
    assert forall|id: SlabId| a.valid(id) && a.slab_extent(id).disk_no() != disk implies
        #[trigger] b.valid(id) by {
        let i = a.holder(id);
        assert(a.holds(i, id.0 as int));
        a.lemma_slab_extent(i, id);
        assert(cb[i] == ca[i]);
        assert(b.holds(i, id.0 as int));
    }
}

/// Whether one of the first `n` extents is on the disk and starts with the given slab.
spec fn gone(cap: Seq<(SlabId, SlabExtentPhys)>, disk: int, k: u64, n: int) -> bool {
    exists|j: int| 0 <= j < n && (#[trigger] cap[j]).1.on_disk(disk) && cap[j].0.0 == k
}

impl SlabAllocator {
    /// Removes a disk all of whose slabs have been given back.
    pub fn remove_disk(&mut self, disk: DiskId)
        requires
            old(self).wf(),
            old(self).removing(disk.0 as int),
            old(self).access.disk_slab_count(disk.0 as int)
                == old(self).noalloc_state@[disk.0 as int]@.len(),
        ensures
            final(self).wf(),
            final(self).access.slab_size == old(self).access.slab_size,
            final(self).access.capacity@ == retired(old(self).access.capacity@, disk.0 as int),
            final(self).access.next_slab_id == old(self).access.next_slab_id,
            final(self).access.num_slabs == old(self).access.num_slabs
                - old(self).access.disk_slab_count(disk.0 as int),
            forall|id: SlabId|
                #[trigger] final(self).access.valid(id) <==> old(self).access.valid(id)
                    && old(self).access.slab_extent(id).disk_no() != disk.0,
            forall|id: SlabId|
                #[trigger] final(self).access.valid(id) ==> final(self).access.slab_extent(id)
                    == old(self).access.slab_extent(id),
            final(self).allocatable == old(self).allocatable,
            final(self).freeing == old(self).freeing,
            final(self).noallocing == old(self).noallocing,
            final(self).reserved_slabs == old(self).reserved_slabs,
            final(self).noalloc_state@ == old(self).noalloc_state@.remove(disk.0 as int),
            old(self).separate() ==> final(self).separate(),
    {
        let ghost a = *self;
        let ghost dn = disk.0 as int;
        let ghost ca = self.access.capacity@;
        let ghost pa = bimap_pairs(self.access.active_capacity);
        proof {
            self.law_fully_evacuated(dn);
            lemma_disk_slabs_bound(ca, self.access.slab_size, dn, ca.len() as int);
            assert(self.removing(dn));
            assert(retired(ca, dn).take(0) + ca.skip(0) =~= ca);
        }
        let removed: u64 = match self.noalloc_state.remove(disk.index()) {
            Some(slabs) => slabs.len() as u64,
            None => 0,
        };
        let mut i: usize = 0;
        while i < self.access.capacity.len()
            invariant
                i <= ca.len(),
                disk.wf(),
                dn == disk.0,
                self.access.capacity@ == retired(ca, dn).take(i as int) + ca.skip(i as int),
                forall|k: int|
                    0 <= k < ca.len() ==> (#[trigger] ca[k]).1.spec_extent().wf(),
                self.access.slab_size == a.access.slab_size,
                self.access.num_slabs == a.access.num_slabs,
                self.access.next_slab_id == a.access.next_slab_id,
                self.allocatable == a.allocatable,
                self.freeing == a.freeing,
                self.noallocing == a.noallocing,
                self.reserved_slabs == a.reserved_slabs,
                self.noalloc_state@ == a.noalloc_state@.remove(dn),
                forall|k: u64|
                    #[trigger] bimap_pairs(self.access.active_capacity).contains_key(k)
                        <==> pa.contains_key(k) && !gone(ca, dn, k, i as int),
                forall|k: u64|
                    #[trigger] bimap_pairs(self.access.active_capacity).contains_key(k)
                        ==> bimap_pairs(self.access.active_capacity)[k] == pa[k],
            decreases ca.len() - i,
        {
            let entry = self.access.capacity[i];
            let ghost c0 = self.access.capacity@;
            let ghost p0 = bimap_pairs(self.access.active_capacity);
            proof {
                assert(c0[i as int] == ca[i as int]);
                assert(retired(ca, dn)[i as int] == retired_entry(ca[i as int], dn));
            }
            if let SlabExtentPhys::Present { extent } = entry.1 {
                if extent.location.disk() == disk {
                    self.access.capacity.set(i, (entry.0, SlabExtentPhys::Removed { extent }));
                    bimap_remove_by_left(&mut self.access.active_capacity, entry.0.0);
                }
            }
            proof {
                assert(self.access.capacity@ =~= retired(ca, dn).take(i + 1) + ca.skip(i + 1));
                assert forall|k: u64|
                    #[trigger] bimap_pairs(self.access.active_capacity).contains_key(k)
                        <==> pa.contains_key(k) && !gone(ca, dn, k, i + 1) by {
                    assert(p0.contains_key(k) <==> pa.contains_key(k) && !gone(
                        ca,
                        dn,
                        k,
                        i as int,
                    ));
                    if gone(ca, dn, k, i as int) {
                        let j = choose|j: int|
                            0 <= j < i && (#[trigger] ca[j]).1.on_disk(dn) && ca[j].0.0 == k;
                        assert(ca[j].1.on_disk(dn));
                        assert(gone(ca, dn, k, i + 1));
                    }
                    if ca[i as int].1.on_disk(dn) && ca[i as int].0.0 == k {
                        assert(gone(ca, dn, k, i + 1));
                    }
                    if gone(ca, dn, k, i + 1) {
                        let j = choose|j: int|
                            0 <= j < i + 1 && (#[trigger] ca[j]).1.on_disk(dn) && ca[j].0.0 == k;
                        if j < i {
                            assert(gone(ca, dn, k, i as int));
                        }
                    }
                }
                assert forall|k: u64|
                    #[trigger] bimap_pairs(self.access.active_capacity).contains_key(k) implies
                    bimap_pairs(self.access.active_capacity)[k] == pa[k] by {
                    assert(p0.contains_key(k));
                }
            }
            i += 1;
        }
        self.access.num_slabs = self.access.num_slabs - removed;
        proof {
            assert(self.access.capacity@ =~= retired(ca, dn));
            lemma_retired_access(a.access, self.access, dn);
            lemma_after_remove(a, *self, dn);
        }
    }
}

/// The free slabs after a disk was removed.
proof fn lemma_after_remove(a: SlabAllocator, b: SlabAllocator, disk: int)
    requires
        a.wf(),
        a.removing(disk),
        b.access.wf(),
        forall|id: SlabId|
            #[trigger] b.access.valid(id) <==> a.access.valid(id) && a.access.slab_extent(
                id,
            ).disk_no() != disk,
        forall|id: SlabId|
            #[trigger] b.access.valid(id) ==> b.access.slab_extent(id) == a.access.slab_extent(id),
        forall|id: SlabId|
            #[trigger] a.access.valid(id) && a.access.slab_disk(id) == disk ==> !a.allocated(id)
                && times(a.allocatable@, id) == 0 && times(a.freeing@, id) == 0 && times(
                a.noallocing@,
                id,
            ) == 0,
        b.allocatable == a.allocatable,
        b.freeing == a.freeing,
        b.noallocing == a.noallocing,
        b.noalloc_state@ == a.noalloc_state@.remove(disk),
    ensures
        b.wf(),
        a.separate() ==> b.separate(),
{
    assert forall|s: SlabId|
        times(a.allocatable@, s) > 0 || times(a.freeing@, s) > 0 || times(a.noallocing@, s)
            > 0 implies #[trigger] b.access.valid(s) by {
        assert(a.places(s) > 0);
        assert(a.access.valid(s));
    }
    assert forall|d: int, s: SlabId|
        b.removing(d) && times(#[trigger] b.noalloc_state@[d]@, s) > 0 implies (
        #[trigger] b.access.slab_disk(s)) == d && b.access.valid(s) by {
        assert(a.removing(d));
        assert(a.access.slab_disk(s) == d);
        assert(a.places(s) > 0);
        assert(a.access.valid(s));
        assert(b.access.valid(s));
    }
    assert forall|s: SlabId| #[trigger] b.places(s) <= 1 && (b.places(s) > 0 ==> b.access.valid(
        s,
    )) by {
        assert(a.places(s) <= 1);
        let d = b.access.slab_disk(s);
        if b.access.valid(s) {
            assert(b.access.slab_extent(s) == a.access.slab_extent(s));
        } else {
            if b.removing(d) && times(b.noalloc_state@[d]@, s) > 0 {
                assert(b.access.valid(s));
            }
        }
    }
    assert forall|d: int| #[trigger] b.removing(d) implies 0 <= d <= MAX_DISK_ID by {
        assert(a.removing(d));
    }
    assert forall|s: SlabId| #[trigger] times(b.noallocing@, s) > 0 implies b.removing(
        b.access.slab_disk(s),
    ) by {
        assert(b.access.valid(s));
        assert(a.removing(a.access.slab_disk(s)));
    }
    if a.separate() {
        assert forall|s: SlabId| #[trigger] times(b.allocatable@, s) > 0 implies !b.removing(
            b.access.slab_disk(s),
        ) by {
            assert(b.access.valid(s));
            assert(!a.removing(a.access.slab_disk(s)));
        }
        assert forall|s: SlabId| #[trigger] times(b.freeing@, s) > 0 implies !b.removing(
            b.access.slab_disk(s),
        ) by {
            assert(b.access.valid(s));
            assert(!a.removing(a.access.slab_disk(s)));
        }
    }
}

/// Only whole slabs of an extent are used, and as many as fit.
pub proof fn law_whole_slabs(extent: Extent, slab_size: u64)
    requires
        slab_size > 0,
    ensures
        ({
            let e = whole_slabs(extent, slab_size);
            &&& e.location == extent.location
            &&& e.size % slab_size == 0
            &&& e.size <= extent.size < e.size + slab_size
        }),
{
    let (x, z) = (extent.size as int, slab_size as int);
    assert(0 <= x % z < z && x % z <= x && (x - x % z) % z == 0) by (nonlinear_arith)
        requires
            z > 0,
            x >= 0,
    ;
}

/// The slabs of an extent follow each other: each starts as many slabs behind the start of the
/// extent as its number is behind the first one, and has the size of a slab.
pub proof fn law_slabs_follow(access: SlabAccess, i: int, id: SlabId)
    requires
        access.wf(),
        0 <= i < access.capacity@.len(),
        access.capacity@[i].1 is Present,
        access.capacity@[i].0.0 <= id.0,
        (id.0 - access.capacity@[i].0.0 + 1) * access.slab_size
            <= access.capacity@[i].1.spec_extent().size,
    ensures
        ({
            let e = access.capacity@[i].1.spec_extent();
            let s = access.slab_extent(id);
            &&& access.valid(id)
            &&& s.size == access.slab_size
            &&& s.disk_no() == e.disk_no()
            &&& s.start() == e.start() + (id.0 - access.capacity@[i].0.0) * access.slab_size
            &&& s.end() <= e.end()
            &&& access.slab_disk(id) == e.disk_no()
        }),
{
    let e = access.capacity@[i].1.spec_extent();
    let (k, z, x) = (id.0 - access.capacity@[i].0.0, access.slab_size as int, e.size as int);
    assert(k < x / z) by (nonlinear_arith)
        requires
            z > 0,
            k >= 0,
            (k + 1) * z <= x,
    ;
    access.lemma_slab_extent(i, id);
    assert((k + 1) * z == k * z + z) by (nonlinear_arith);
}

/// The slabs of a disk and those of the others are all slabs, in their order.
pub proof fn law_slabs_by_disk(access: SlabAccess, slabs: Seq<SlabId>, disk: int, id: SlabId)
    ensures
        slabs_of_disk(access, slabs, disk).contains(id) <==> slabs.contains(id)
            && access.slab_disk(id) == disk,
        slabs_of_others(access, slabs, disk).contains(id) <==> slabs.contains(id)
            && access.slab_disk(id) != disk,
        slabs_of_disk(access, slabs, disk).len() + slabs_of_others(access, slabs, disk).len()
            == slabs.len(),
    decreases slabs.len(),
{
    if slabs.len() > 0 {
        let p = slabs.drop_last();
        let last = slabs.last();
        law_slabs_by_disk(access, p, disk, id);
        let (a, b) = (slabs_of_disk(access, p, disk), slabs_of_others(access, p, disk));
        lemma_pushed(p, last, id);
        assert(p.push(last) =~= slabs);
        lemma_pushed(a, last, id);
        lemma_pushed(b, last, id);
    }
}

proof fn lemma_pushed(s: Seq<SlabId>, last: SlabId, id: SlabId)
    ensures
        s.push(last).contains(id) <==> s.contains(id) || id == last,
{
    let t = s.push(last);
    if s.contains(id) {
        let i = choose|i: int| 0 <= i < s.len() && s[i] == id;
        assert(t[i] == id);
    }
    assert(t[s.len() as int] == last);
    if t.contains(id) {
        let i = choose|i: int| 0 <= i < t.len() && t[i] == id;
        if i < s.len() {
            assert(s[i] == id);
        }
    }
}

/// The extents of a disk that is removed are kept as removed ones, with their numbers, and all
/// others stay.
pub proof fn law_retired(cap: Seq<(SlabId, SlabExtentPhys)>, disk: int, i: int)
    requires
        0 <= i < cap.len(),
    ensures
        retired(cap, disk).len() == cap.len(),
        retired(cap, disk)[i].0 == cap[i].0,
        retired(cap, disk)[i].1.spec_extent() == cap[i].1.spec_extent(),
        retired(cap, disk)[i].1 is Present <==> cap[i].1 is Present
            && cap[i].1.spec_extent().disk_no() != disk,
{
}

/// The extents are numbered by their slabs: each gets the number behind those of all before it.
pub proof fn law_numbered(cap: Seq<SlabExtentPhys>, slab_size: u64)
    ensures
        numbered(cap, slab_size).len() == cap.len(),
        forall|i: int| 0 <= i < cap.len() ==> (#[trigger] numbered(cap, slab_size)[i]).1 == cap[i],
        cap.len() > 0 ==> numbered(cap, slab_size)[0].0.0 == 0,
        cap.len() > 1 ==> ({
            let r = numbered(cap.drop_last(), slab_size);
            numbered(cap, slab_size).last().0.0 == start_id(r, slab_size, r.len() as int) as u64
        }),
    decreases cap.len(),
{
    if cap.len() > 0 {
        let p = cap.drop_last();
        law_numbered(p, slab_size);
        let r = numbered(p, slab_size);
        assert forall|i: int| 0 <= i < cap.len() implies (
        #[trigger] numbered(cap, slab_size)[i]).1 == cap[i] by {
            if i < p.len() {
                assert(numbered(cap, slab_size)[i] == r[i]);
                assert(p[i] == cap[i]);
            }
        }
        if cap.len() > 1 {
            assert(numbered(cap, slab_size)[0] == r[0]);
        }
    }
}

/// The number behind an extent is as much larger as the extent has slabs.
pub proof fn law_start_id(cap: Seq<(SlabId, SlabExtentPhys)>, slab_size: u64, i: int)
    requires
        slab_size > 0,
        0 <= i < cap.len(),
        cap[i].1.spec_extent().size % slab_size == 0,
    ensures
        start_id(cap, slab_size, 0) == 0,
        (start_id(cap, slab_size, i + 1) - start_id(cap, slab_size, i)) * slab_size
            == cap[i].1.spec_extent().size,
        present_slabs(cap, slab_size, i + 1) - present_slabs(cap, slab_size, i) == if cap[i].1
            is Present {
            start_id(cap, slab_size, i + 1) - start_id(cap, slab_size, i)
        } else {
            0
        },
{
    let (x, z) = (cap[i].1.spec_extent().size as int, slab_size as int);
    assert((x / z) * z == x) by (nonlinear_arith)
        requires
            z > 0,
            x % z == 0,
    ;
}

/// The bytes of the extents that are there.
pub proof fn law_present_bytes(cap: Seq<SlabExtentPhys>, e: SlabExtentPhys)
    ensures
        e is Present ==> present_bytes(cap.push(e)) == present_bytes(cap) + e.spec_extent().size,
        e is Removed ==> present_bytes(cap.push(e)) == present_bytes(cap),
        present_bytes(Seq::empty()) == 0,
{
    assert(cap.push(e).drop_last() =~= cap);
}

/// New slabs have the numbers that follow, in order.
pub proof fn law_new_slab_ids(first: int, n: int, i: int)
    requires
        0 <= i < n,
        0 <= first,
        first + n <= u64::MAX,
    ensures
        new_slab_ids(first, n).len() == n,
        new_slab_ids(first, n)[i].0 == first + i,
{
}

/// Slabs that are handed to disks from which nothing is allocated go to the lists of their disks.
pub proof fn law_distributed(
    access: SlabAccess,
    state: Map<int, Seq<SlabId>>,
    ids: Seq<SlabId>,
    d: int,
    id: SlabId,
)
    requires
        state.contains_key(d),
    ensures
        distributed(access, state, ids).contains_key(d),
        distributed(access, state, ids)[d].contains(id) <==> state[d].contains(id)
            || ids.contains(id) && access.slab_disk(id) == d,
{
    law_slabs_by_disk(access, ids, d, id);
    let (a, b) = (state[d], slabs_of_disk(access, ids, d));
    if a.contains(id) {
        let i = choose|i: int| 0 <= i < a.len() && a[i] == id;
        assert((a + b)[i] == id);
    }
    if b.contains(id) {
        let i = choose|i: int| 0 <= i < b.len() && b[i] == id;
        assert((a + b)[a.len() + i] == id);
    }
    if (a + b).contains(id) {
        let i = choose|i: int| 0 <= i < (a + b).len() && (a + b)[i] == id;
        if i < a.len() {
            assert(a[i] == id);
        } else {
            assert(b[i - a.len()] == id);
        }
    }
}

/// A slab that is in no list of the allocator is in use, and one that is in a list is not.
pub proof fn law_in_use(sa: SlabAllocator, id: SlabId)
    requires
        sa.access.valid(id),
    ensures
        sa.allocated(id) <==> {
            &&& !sa.allocatable@.contains(id)
            &&& !sa.freeing@.contains(id)
            &&& !sa.noallocing@.contains(id)
            &&& sa.noalloc_state@.contains_key(sa.access.slab_disk(id))
                ==> !sa.noalloc_state@[sa.access.slab_disk(id)]@.contains(id)
        },
{
    lemma_times_contains(sa.allocatable@, id);
    lemma_times_contains(sa.freeing@, id);
    lemma_times_contains(sa.noallocing@, id);
    if sa.noalloc_state@.contains_key(sa.access.slab_disk(id)) {
        lemma_times_contains(sa.noalloc_state@[sa.access.slab_disk(id)]@, id);
    }
}

/// Extents without a slab are left out, and no others.
pub proof fn law_with_slabs(cap: Seq<SlabExtentPhys>, e: SlabExtentPhys)
    ensures
        with_slabs(cap).contains(e) <==> cap.contains(e) && e.spec_extent().size > 0,
{
    let f = |e: SlabExtentPhys| e.spec_extent().size > 0;
    if with_slabs(cap).contains(e) {
        cap.lemma_filter_contains_rev(f, e);
        cap.lemma_filter_pred(f, choose|i: int|
            0 <= i < with_slabs(cap).len() && with_slabs(cap)[i] == e);
    }
    if cap.contains(e) && f(e) {
        let i = choose|i: int| 0 <= i < cap.len() && cap[i] == e;
        cap.lemma_filter_contains(f, i);
    }
}

/// The slabs of a disk are those of the extents that are there and on it.
pub proof fn law_disk_slabs(
    cap: Seq<(SlabId, SlabExtentPhys)>,
    slab_size: u64,
    disk: int,
    n: int,
)
    requires
        slab_size > 0,
        0 <= n < cap.len(),
        cap[n].1.spec_extent().size % slab_size == 0,
    ensures
        disk_slabs(cap, slab_size, disk, 0) == 0,
        cap[n].1 is Present && cap[n].1.spec_extent().disk_no() == disk ==> (disk_slabs(
            cap,
            slab_size,
            disk,
            n + 1,
        ) - disk_slabs(cap, slab_size, disk, n)) * slab_size == cap[n].1.spec_extent().size,
        !(cap[n].1 is Present && cap[n].1.spec_extent().disk_no() == disk) ==> disk_slabs(
            cap,
            slab_size,
            disk,
            n + 1,
        ) == disk_slabs(cap, slab_size, disk, n),
{
    let (x, z) = (cap[n].1.spec_extent().size as int, slab_size as int);
    assert((x / z) * z == x) by (nonlinear_arith)
        requires
            z > 0,
            x % z == 0,
    ;
}

/// The slabs of some disks are those of each.
pub proof fn law_slabs_on(
    cap: Seq<(SlabId, SlabExtentPhys)>,
    slab_size: u64,
    disks: Set<int>,
    d: int,
)
    requires
        d >= 0,
    ensures
        slabs_on(cap, slab_size, disks, 0) == 0,
        disks.contains(d) ==> slabs_on(cap, slab_size, disks, d + 1) - slabs_on(
            cap,
            slab_size,
            disks,
            d,
        ) == disk_slabs(cap, slab_size, d, cap.len() as int),
        !disks.contains(d) ==> slabs_on(cap, slab_size, disks, d + 1) == slabs_on(
            cap,
            slab_size,
            disks,
            d,
        ),
{
}

} // verus!
