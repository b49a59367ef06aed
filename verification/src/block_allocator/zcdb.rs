//! Reports on the slabs.
use super::buckets::{sizes_ascend, SlabBucketSize};
use super::slab::{Slab, SlabEnum};
use crate::base_types::DiskId;
use crate::slab_allocator::SlabId;
use vstd::prelude::*;

verus! {

/// The width of a histogram, in characters.
pub const REPORT_HISTOGRAM_WIDTH: u64 = 39;

/// How a slab is used.
#[derive(Debug, Clone, Copy, PartialEq, Eq, Structural)]
pub enum SlabKind {
    BitmapBased,
    ExtentBased,
    Evacuating,
}

/// What is reported of a slab.
#[derive(Debug, Clone, Copy, PartialEq, Eq, Structural)]
pub struct SlabSummary {
    pub id: SlabId,
    pub disk: DiskId,
    pub kind: SlabKind,
    pub max_size: u32,
    pub free_space: u64,
    pub num_segments: u64,
}

impl Slab {
    /// What is reported of the slab.
    pub fn summary(&self) -> (r: SlabSummary)
        requires
            self.wf(),
        ensures
            r.id == self.id,
            r.disk.0 == self.disk(),
            r.kind == match self.inner {
                SlabEnum::BitmapBased(_) => SlabKind::BitmapBased,
                SlabEnum::ExtentBased(_) => SlabKind::ExtentBased,
                SlabEnum::Evacuating(_) => SlabKind::Evacuating,
            },
            r.max_size == if self.live() {
                self.spec_max_size()
            } else {
                0
            },
            r.free_space == self.free_bytes().len(),
            r.num_segments == self.spec_num_segments(),
    {
        let kind = match &self.inner {
            SlabEnum::BitmapBased(_) => SlabKind::BitmapBased,
            SlabEnum::ExtentBased(_) => SlabKind::ExtentBased,
            SlabEnum::Evacuating(_) => SlabKind::Evacuating,
        };
        let max_size: u32 = match &self.inner {
            SlabEnum::Evacuating(_) => 0,
            _ => self.max_size(),
        };
        SlabSummary {
            id: self.id,
            disk: self.location().disk(),
            kind,
            max_size,
            free_space: self.free_space(),
            num_segments: self.num_segments(),
        }
    }
}

/// The sums of some slabs.
#[derive(Debug, Clone, Copy, PartialEq, Eq, Structural)]
pub struct AllocationBucketStatistics {
    pub nslabs: u64,
    pub free_space: u64,
    pub slab_size: u64,
    pub total_segments: u64,
}

impl AllocationBucketStatistics {
    pub open spec fn wf(&self) -> bool {
        &&& self.nslabs * self.slab_size <= u64::MAX
        &&& self.free_space <= self.nslabs * self.slab_size
    }

    pub fn new(slab_size: u64) -> (r: AllocationBucketStatistics)
        ensures
            r == (AllocationBucketStatistics {
                nslabs: 0,
                free_space: 0,
                slab_size,
                total_segments: 0,
            }),
            r.wf(),
    {
        AllocationBucketStatistics { nslabs: 0, free_space: 0, slab_size, total_segments: 0 }
    }

    pub fn add_slab(&mut self, slab: &SlabSummary)
        requires
            old(self).total_segments + slab.num_segments <= u64::MAX,
            old(self).free_space + slab.free_space <= u64::MAX,
            old(self).nslabs < u64::MAX,
        ensures
            *final(self) == (AllocationBucketStatistics {
                nslabs: (old(self).nslabs + 1) as u64,
                free_space: (old(self).free_space + slab.free_space) as u64,
                slab_size: old(self).slab_size,
                total_segments: (old(self).total_segments + slab.num_segments) as u64,
            }),
    {
        self.total_segments = self.total_segments + slab.num_segments;
        self.free_space = self.free_space + slab.free_space;
        self.nslabs = self.nslabs + 1;
    }

    pub fn total_space(&self) -> (r: u64)
        requires
            self.wf(),
        ensures
            r == self.slab_size * self.nslabs,
    {
        assert(self.slab_size * self.nslabs == self.nslabs * self.slab_size) by (nonlinear_arith);
        self.slab_size * self.nslabs
    }

    pub fn allocated_space(&self) -> (r: u64)
        requires
            self.wf(),
        ensures
            r == self.slab_size * self.nslabs - self.free_space,
    {
        assert(self.slab_size * self.nslabs == self.nslabs * self.slab_size) by (nonlinear_arith);
        self.total_space() - self.free_space
    }

    /// The percentage that is allocated.
    pub fn capacity_perc(&self) -> (r: u64)
        requires
            self.wf(),
            self.nslabs > 0,
            self.slab_size > 0,
            self.slab_size * self.nslabs * 100 <= u64::MAX,
        ensures
            r == (self.slab_size * self.nslabs - self.free_space) * 100 / (self.slab_size
                * self.nslabs),
    {
        assert(self.slab_size * self.nslabs > 0) by (nonlinear_arith)
            requires
                self.nslabs > 0,
                self.slab_size > 0,
        ;
        (self.allocated_space() * 100) / self.total_space()
    }

    pub fn segments_per_slab(&self) -> (r: u64)
        requires
            self.nslabs > 0,
        ensures
            r == self.total_segments as int / self.nslabs as int,
    {
        self.total_segments / self.nslabs
    }

    /// How many characters of the graph the slabs take, and how many of these are for free
    /// space, rounded to the nearest; halves are rounded down.
    pub open spec fn spec_graph(&self, hist_scaling_factor: int) -> (int, int) {
        let factor = if hist_scaling_factor < REPORT_HISTOGRAM_WIDTH {
            REPORT_HISTOGRAM_WIDTH as int
        } else {
            hist_scaling_factor
        };
        let slots = self.nslabs * REPORT_HISTOGRAM_WIDTH / factor;
        let total = self.slab_size * self.nslabs;
        (slots, (self.free_space * slots + (total / 2 - 1)) / total)
    }

    /// The characters of the graph: for allocated space, and for free space.
    pub fn stackgraph(&self, hist_scaling_factor: u64) -> (r: (u64, u64))
        requires
            self.wf(),
            self.slab_size >= 2,
            self.slab_size * self.nslabs * (REPORT_HISTOGRAM_WIDTH + 1) <= u64::MAX,
            self.nslabs <= hist_scaling_factor || self.nslabs <= REPORT_HISTOGRAM_WIDTH,
        ensures
            self.nslabs == 0 ==> r == (0u64, 0u64),
            self.nslabs > 0 ==> {
                let graph = self.spec_graph(hist_scaling_factor as int);
                r.0 == graph.0 - graph.1 && r.1 == graph.1
            },
    {
        if self.nslabs == 0 {
            return (0, 0);
        }
        let factor: u64 = if hist_scaling_factor < REPORT_HISTOGRAM_WIDTH {
            REPORT_HISTOGRAM_WIDTH
        } else {
            hist_scaling_factor
        };
        let total = self.total_space();
        proof {
            assert(total >= 2 * self.nslabs) by (nonlinear_arith)
                requires
                    total == self.slab_size * self.nslabs,
                    self.slab_size >= 2,
            ;
            assert(total * (REPORT_HISTOGRAM_WIDTH + 1) == total * REPORT_HISTOGRAM_WIDTH + total)
                by (nonlinear_arith);
            assert(self.nslabs * REPORT_HISTOGRAM_WIDTH <= total * REPORT_HISTOGRAM_WIDTH)
                by (nonlinear_arith)
                requires
                    self.nslabs <= total,
            ;
            assert(self.nslabs * REPORT_HISTOGRAM_WIDTH / factor as int
                <= REPORT_HISTOGRAM_WIDTH) by (nonlinear_arith)
                requires
                    0 < factor,
                    self.nslabs <= factor,
            ;
        }
        let slots: u64 = self.nslabs * REPORT_HISTOGRAM_WIDTH / factor;
        proof {
            assert(self.slab_size * self.nslabs == self.nslabs * self.slab_size)
                by (nonlinear_arith);
            assert(self.free_space * slots <= total * slots) by (nonlinear_arith)
                requires
                    self.free_space <= total,
                    slots >= 0,
            ;
            assert(total * slots <= total * REPORT_HISTOGRAM_WIDTH) by (nonlinear_arith)
                requires
                    slots <= REPORT_HISTOGRAM_WIDTH,
                    total >= 0,
            ;
        }
        let free: u64 = (self.free_space * slots + (total / 2 - 1)) / total;
        proof {
            // the number of free slots is at most that of all
            let x = self.free_space * slots + (total as int / 2 - 1);
            assert(x < total * (slots + 1)) by (nonlinear_arith)
                requires
                    x == self.free_space * slots + (total as int / 2 - 1),
                    self.free_space * slots <= total * slots,
                    total > 0,
            ;
            assert(x / total as int <= slots) by (nonlinear_arith)
                requires
                    x < total * (slots + 1),
                    total > 0,
            ;
        }
        (slots - free, free)
    }
}

/// The sums of the slabs that are chosen.
pub open spec fn tally(
    slabs: Seq<SlabSummary>,
    slab_size: u64,
    chosen: spec_fn(SlabSummary) -> bool,
) -> AllocationBucketStatistics
    decreases slabs.len(),
{
    if slabs.len() == 0 {
        AllocationBucketStatistics { nslabs: 0, free_space: 0, slab_size, total_segments: 0 }
    } else {
        let t = tally(slabs.drop_last(), slab_size, chosen);
        if chosen(slabs.last()) {
            AllocationBucketStatistics {
                nslabs: (t.nslabs + 1) as u64,
                free_space: (t.free_space + slabs.last().free_space) as u64,
                slab_size,
                total_segments: (t.total_segments + slabs.last().num_segments) as u64,
            }
        } else {
            t
        }
    }
}

/// The sums of all segments.
pub open spec fn segments_of(slabs: Seq<SlabSummary>) -> int
    decreases slabs.len(),
{
    if slabs.len() == 0 {
        0
    } else {
        segments_of(slabs.drop_last()) + slabs.last().num_segments
    }
}

/// The slabs can be added up.
pub open spec fn can_report(slabs: Seq<SlabSummary>, slab_size: u64) -> bool {
    &&& slabs.len() * slab_size <= u64::MAX
    &&& slabs.len() < u64::MAX
    &&& segments_of(slabs) <= u64::MAX
    &&& forall|i: int| 0 <= i < slabs.len() ==> (#[trigger] slabs[i]).free_space <= slab_size
}

proof fn lemma_can_report(slabs: Seq<SlabSummary>, slab_size: u64, n: int)
    requires
        can_report(slabs, slab_size),
        0 <= n <= slabs.len(),
    ensures
        can_report(slabs.take(n), slab_size),
    decreases slabs.len() - n,
{
    if n == slabs.len() {
        assert(slabs.take(n) =~= slabs);
    } else {
        lemma_can_report(slabs, slab_size, n + 1);
        let t = slabs.take(n + 1);
        assert(t.drop_last() =~= slabs.take(n));
        assert(n * slab_size <= (n + 1) * slab_size) by (nonlinear_arith);
        assert forall|i: int| 0 <= i < n implies (#[trigger] slabs.take(n)[i]).free_space
            <= slab_size by {
            assert(slabs[i].free_space <= slab_size);
        }
    }
}

/// The sums of some slabs are at most those of all.
proof fn lemma_tally(slabs: Seq<SlabSummary>, slab_size: u64, chosen: spec_fn(SlabSummary) -> bool)
    requires
        can_report(slabs, slab_size),
    ensures
        ({
            let t = tally(slabs, slab_size, chosen);
            &&& t.wf()
            &&& t.slab_size == slab_size
            &&& t.nslabs <= slabs.len()
            &&& t.free_space <= t.nslabs * slab_size
            &&& t.total_segments <= segments_of(slabs)
        }),
    decreases slabs.len(),
{
    if slabs.len() > 0 {
        let d = slabs.drop_last();
        lemma_can_report(slabs, slab_size, slabs.len() - 1);
        assert(slabs.take(slabs.len() - 1) =~= d);
        lemma_tally(d, slab_size, chosen);
        let t = tally(d, slab_size, chosen);
        assert(slabs[slabs.len() - 1].free_space <= slab_size);
        assert((t.nslabs + 1) * slab_size == t.nslabs * slab_size + slab_size)
            by (nonlinear_arith);
        let u = tally(slabs, slab_size, chosen);
        assert(u.nslabs * slab_size <= slabs.len() * slab_size) by (nonlinear_arith)
            requires
                u.nslabs <= slabs.len(),
        ;
        assert((t.nslabs + 1) * slab_size <= slabs.len() * slab_size) by (nonlinear_arith)
            requires
                t.nslabs + 1 <= slabs.len(),
        ;
    }
}

/// The slabs of a bucket.
pub struct AllocationBucketInfo {
    pub extent_based: bool,
    pub max_size: u32,
    pub stats: AllocationBucketStatistics,
    /// In ascending order of free space, and then of the slab.
    pub slabs_by_freeness: Vec<(u64, SlabId)>,
}

/// The order of slabs by free space.
pub open spec fn less_free(a: (u64, SlabId), b: (u64, SlabId)) -> bool {
    a.0 < b.0 || (a.0 == b.0 && a.1.0 < b.1.0)
}

/// In ascending order, nothing twice.
pub open spec fn by_freeness(s: Seq<(u64, SlabId)>) -> bool {
    forall|i: int, j: int| 0 <= i < j < s.len() ==> less_free(#[trigger] s[i], #[trigger] s[j])
}

/// What is allocated in the `n` slabs with the most free space.
pub open spec fn allocated_in_freest(s: Seq<(u64, SlabId)>, slab_size: int, n: int) -> int
    decreases n,
{
    if n <= 0 || n > s.len() {
        0
    } else {
        allocated_in_freest(s, slab_size, n - 1) + (slab_size - s[s.len() - n].0)
    }
}

/// How many slabs have a tenth of their space allocated, how many two, and so on.
pub open spec fn tenth_of(free: int, slab_size: int) -> int {
    let perc = (slab_size - free) * 100 / slab_size;
    if perc == 100 {
        9
    } else {
        perc / 10
    }
}

/// How many slabs are in a tenth.
pub open spec fn in_tenth(s: Seq<(u64, SlabId)>, slab_size: int, k: int) -> int
    decreases s.len(),
{
    if s.len() == 0 {
        0
    } else {
        in_tenth(s.drop_last(), slab_size, k) + if tenth_of(s.last().0 as int, slab_size) == k {
            1int
        } else {
            0
        }
    }
}

impl AllocationBucketInfo {
    pub open spec fn wf(&self) -> bool {
        &&& by_freeness(self.slabs_by_freeness@)
        &&& forall|i: int|
            0 <= i < self.slabs_by_freeness@.len() ==> (#[trigger] self.slabs_by_freeness@[i]).0
                <= self.stats.slab_size
    }

    pub fn new(extent_based: bool, max_size: u32, slab_size: u64) -> (r: AllocationBucketInfo)
        ensures
            r.wf(),
            r.extent_based == extent_based,
            r.max_size == max_size,
            r.stats == (AllocationBucketStatistics {
                nslabs: 0,
                free_space: 0,
                slab_size,
                total_segments: 0,
            }),
            r.slabs_by_freeness@.len() == 0,
    {
        AllocationBucketInfo {
            extent_based,
            stats: AllocationBucketStatistics::new(slab_size),
            max_size,
            slabs_by_freeness: Vec::new(),
        }
    }

    /// Adds a slab.
    pub fn add_slab(&mut self, slab: &SlabSummary)
        requires
            old(self).wf(),
            slab.free_space <= old(self).stats.slab_size,
            old(self).stats.total_segments + slab.num_segments <= u64::MAX,
            old(self).stats.free_space + slab.free_space <= u64::MAX,
            old(self).stats.nslabs < u64::MAX,
        ensures
            final(self).wf(),
            final(self).extent_based == old(self).extent_based,
            final(self).max_size == old(self).max_size,
            final(self).stats == (AllocationBucketStatistics {
                nslabs: (old(self).stats.nslabs + 1) as u64,
                free_space: (old(self).stats.free_space + slab.free_space) as u64,
                slab_size: old(self).stats.slab_size,
                total_segments: (old(self).stats.total_segments + slab.num_segments) as u64,
            }),
            final(self).slabs_by_freeness@.to_set() == old(
                self).slabs_by_freeness@.to_set().insert((slab.free_space, slab.id)),
    {
        self.stats.add_slab(slab);
        let ghost s0 = self.slabs_by_freeness@;
        let entry: (u64, SlabId) = (slab.free_space, slab.id);
        let mut i: usize = 0;
        while i < self.slabs_by_freeness.len() && (self.slabs_by_freeness[i].0 < entry.0
            || self.slabs_by_freeness[i].0 == entry.0 && self.slabs_by_freeness[i].1.0
            < entry.1.0)
            invariant
                i <= s0.len(),
                self.slabs_by_freeness@ == s0,
                forall|k: int| 0 <= k < i ==> less_free(#[trigger] s0[k], entry),
            decreases s0.len() - i,
        {
            i += 1;
        }
        if i < self.slabs_by_freeness.len() && self.slabs_by_freeness[i].0 == entry.0
            && self.slabs_by_freeness[i].1.0 == entry.1.0 {
            proof {
                assert(s0[i as int] == entry);
                assert(s0.to_set() =~= s0.to_set().insert(entry));
            }
            return ;
        }
        self.slabs_by_freeness.insert(i, entry);
        proof {
            let s1 = self.slabs_by_freeness@;
            assert(s1 =~= s0.insert(i as int, entry));
            assert forall|k: int| i <= k < s0.len() implies less_free(
                entry,
                #[trigger] s0[k],
            ) by {
                if k > i {
                    assert(less_free(s0[i as int], s0[k]));
                }
            }
            assert forall|x: int, y: int| 0 <= x < y < s1.len() implies less_free(
                #[trigger] s1[x],
                #[trigger] s1[y],
            ) by {
                let x0 = if x < i {
                    x
                } else {
                    x - 1
                };
                let y0 = if y < i {
                    y
                } else {
                    y - 1
                };
                if x != i {
                    assert(s1[x] == s0[x0]);
                }
                if y != i {
                    assert(s1[y] == s0[y0]);
                }
                if x != i && y != i {
                    assert(less_free(s0[x0], s0[y0]));
                }
            }
            assert forall|x: int| 0 <= x < s1.len() implies (#[trigger] s1[x]).0
                <= self.stats.slab_size by {
                if x != i {
                    let x0 = if x < i {
                        x
                    } else {
                        x - 1
                    };
                    assert(s1[x] == s0[x0]);
                }
            }
            assert forall|e: (u64, SlabId)| s1.contains(e) <==> s0.contains(e) || e == entry by {
                if s0.contains(e) {
                    let k = choose|k: int| 0 <= k < s0.len() && s0[k] == e;
                    let k1 = if k < i {
                        k
                    } else {
                        k + 1
                    };
                    assert(s1[k1] == e);
                }
                if e == entry {
                    assert(s1[i as int] == e);
                }
                if s1.contains(e) {
                    let k = choose|k: int| 0 <= k < s1.len() && s1[k] == e;
                    if k != i {
                        let k0 = if k < i {
                            k
                        } else {
                            k - 1
                        };
                        assert(s0[k0] == e);
                    }
                }
            }
            assert(s1.to_set() =~= s0.to_set().insert(entry));
        }
    }

    /// How many slabs a number of thousandths is, but at least one.
    pub open spec fn spec_quantile_slabs(&self, permille: int) -> int {
        let n = permille * self.slabs_by_freeness@.len() / 1000;
        if n < 1 {
            1
        } else {
            n
        }
    }

    /// The bytes that are allocated in the given number of thousandths of the slabs, those with
    /// the most free space, and how many slabs these are.
    pub fn allocated_quantile(&self, permille: u64) -> (r: (u64, u64))
        requires
            self.wf(),
            permille <= 1000,
            self.slabs_by_freeness@.len() * 1000 <= u64::MAX,
            self.slabs_by_freeness@.len() * self.stats.slab_size <= u64::MAX,
        ensures
            r.1 == self.spec_quantile_slabs(permille as int),
            r.0 == allocated_in_freest(
                self.slabs_by_freeness@,
                self.stats.slab_size as int,
                if r.1 <= self.slabs_by_freeness@.len() {
                    r.1 as int
                } else {
                    self.slabs_by_freeness@.len() as int
                },
            ),
    {
        let ghost s = self.slabs_by_freeness@;
        let count: u64 = self.slabs_by_freeness.len() as u64;
        proof {
            assert(permille * count <= 1000 * count) by (nonlinear_arith)
                requires
                    permille <= 1000,
            ;
        }
        let part: u64 = permille * count / 1000;
        let visit: u64 = if part < 1 {
            1
        } else {
            part
        };
        let stop: u64 = if visit < count {
            visit
        } else {
            count
        };
        let mut allocated: u64 = 0;
        let len: usize = self.slabs_by_freeness.len();
        let mut n: usize = 0;
        while (n as u64) < stop
            invariant
                n <= stop <= len,
                len == s.len(),
                s == self.slabs_by_freeness@,
                self.wf(),
                s.len() * self.stats.slab_size <= u64::MAX,
                allocated == allocated_in_freest(s, self.stats.slab_size as int, n as int),
                allocated <= n * self.stats.slab_size,
            decreases stop - n,
        {
            let i: usize = len - n - 1;
            let free: u64 = self.slabs_by_freeness[i].0;
            proof {
                assert(s[i as int].0 <= self.stats.slab_size);
                assert(n * self.stats.slab_size + self.stats.slab_size == (n + 1)
                    * self.stats.slab_size) by (nonlinear_arith);
                assert((n + 1) * self.stats.slab_size <= s.len() * self.stats.slab_size)
                    by (nonlinear_arith)
                    requires
                        n + 1 <= s.len(),
                ;
            }
            allocated = allocated + (self.stats.slab_size - free);
            n += 1;
        }
        (allocated, visit)
    }

    /// The number of slabs by how much of them is allocated, in tenths.
    pub fn capacity_histogram(&self) -> (r: Vec<u64>)
        requires
            self.wf(),
            self.stats.slab_size > 0,
            self.stats.slab_size * 100 <= u64::MAX,
        ensures
            r@.len() == 10,
            forall|k: int|
                0 <= k < 10 ==> #[trigger] r@[k] == in_tenth(
                    self.slabs_by_freeness@,
                    self.stats.slab_size as int,
                    k,
                ),
    {
        let ghost s = self.slabs_by_freeness@;
        let z = self.stats.slab_size;
        let mut hist: Vec<u64> = Vec::new();
        let mut k: usize = 0;
        while k < 10
            invariant
                k <= 10,
                hist@.len() == k,
                forall|x: int| 0 <= x < k ==> #[trigger] hist@[x] == 0,
            decreases 10 - k,
        {
            hist.push(0);
            k += 1;
        }
        assert(s.take(0) =~= Seq::<(u64, SlabId)>::empty());
        let mut i: usize = 0;
        while i < self.slabs_by_freeness.len()
            invariant
                i <= s.len(),
                s == self.slabs_by_freeness@,
                self.wf(),
                z == self.stats.slab_size,
                z > 0,
                z * 100 <= u64::MAX,
                hist@.len() == 10,
                forall|x: int|
                    0 <= x < 10 ==> #[trigger] hist@[x] == in_tenth(s.take(i as int), z as int, x)
                        && hist@[x] <= i,
            decreases s.len() - i,
        {
            let free: u64 = self.slabs_by_freeness[i].0;
            proof {
                assert(s[i as int].0 <= z);
                assert(s.take(i + 1).drop_last() =~= s.take(i as int));
                assert((z - free) * 100 / z as int <= 100) by (nonlinear_arith)
                    requires
                        0 <= free <= z,
                        z > 0,
                ;
            }
            let perc: u64 = (z - free) * 100 / z;
            let idx: usize = if perc == 100 {
                9
            } else {
                (perc / 10) as usize
            };
            assert(idx == tenth_of(free as int, z as int));
            let count: u64 = hist[idx];
            hist.set(idx, count + 1);
            i += 1;
        }
        assert(s.take(i as int) =~= s);
        hist
    }
}

/// The slabs, by bucket.
pub struct SlabBucketsReport {
    pub buckets: Vec<AllocationBucketInfo>,
    pub total: AllocationBucketStatistics,
    pub hist_scaling_factor: u64,
}

/// The greatest of some numbers, and at least zero.
pub open spec fn greatest(s: Seq<u64>) -> int
    decreases s.len(),
{
    if s.len() == 0 {
        0
    } else {
        larger(greatest(s.drop_last()), s.last() as int)
    }
}

/// The lengths of the bars that show some counts: the greatest count takes the whole width,
/// unless it is less than that.
pub fn count_bars(counts: &Vec<u64>) -> (r: Vec<u64>)
    requires
        greatest(counts@) * REPORT_HISTOGRAM_WIDTH <= u64::MAX,
    ensures
        r@.len() == counts@.len(),
        forall|k: int|
            0 <= k < counts@.len() ==> #[trigger] r@[k] == counts@[k] * REPORT_HISTOGRAM_WIDTH
                / larger(greatest(counts@), REPORT_HISTOGRAM_WIDTH as int),
{
    let mut most: u64 = 0;
    let mut i: usize = 0;
    assert(counts@.take(0) =~= Seq::<u64>::empty());
    while i < counts.len()
        invariant
            i <= counts@.len(),
            most == greatest(counts@.take(i as int)),
            forall|k: int| 0 <= k < i ==> #[trigger] counts@[k] <= most,
        decreases counts@.len() - i,
    {
        assert(counts@.take(i + 1).drop_last() =~= counts@.take(i as int));
        if counts[i] > most {
            most = counts[i];
        }
        i += 1;
    }
    assert(counts@.take(i as int) =~= counts@);
    let scale: u64 = if most > REPORT_HISTOGRAM_WIDTH {
        most
    } else {
        REPORT_HISTOGRAM_WIDTH
    };
    let mut r: Vec<u64> = Vec::new();
    let mut i: usize = 0;
    while i < counts.len()
        invariant
            i <= counts@.len(),
            r@.len() == i,
            scale > 0,
            most * REPORT_HISTOGRAM_WIDTH <= u64::MAX,
            forall|k: int| 0 <= k < counts@.len() ==> #[trigger] counts@[k] <= most,
            forall|k: int|
                0 <= k < i ==> #[trigger] r@[k] == counts@[k] * REPORT_HISTOGRAM_WIDTH
                    / scale as int,
        decreases counts@.len() - i,
    {
        assert(counts@[i as int] <= most);
        r.push(counts[i] * REPORT_HISTOGRAM_WIDTH / scale);
        i += 1;
    }
    r
}

/// The free space of the slabs that are chosen, with their ids.
pub open spec fn freeness_of(
    slabs: Seq<SlabSummary>,
    chosen: spec_fn(SlabSummary) -> bool,
) -> Set<(u64, SlabId)>
    decreases slabs.len(),
{
    if slabs.len() == 0 {
        Set::empty()
    } else {
        let f = freeness_of(slabs.drop_last(), chosen);
        if chosen(slabs.last()) {
            f.insert((slabs.last().free_space, slabs.last().id))
        } else {
            f
        }
    }
}

/// The number of slabs of the bucket that has the most.
pub open spec fn most_slabs(buckets: Seq<AllocationBucketInfo>) -> int
    decreases buckets.len(),
{
    if buckets.len() == 0 {
        0
    } else {
        let most = most_slabs(buckets.drop_last());
        let last = buckets.last().stats.nslabs as int;
        if last > most {
            last
        } else {
            most
        }
    }
}

pub open spec fn larger(a: int, b: int) -> int {
    if a > b {
        a
    } else {
        b
    }
}

/// No bucket has more slabs.
proof fn lemma_most(buckets: Seq<AllocationBucketInfo>, k: int)
    requires
        0 <= k < buckets.len(),
    ensures
        buckets[k].stats.nslabs <= most_slabs(buckets),
    decreases buckets.len(),
{
    if k < buckets.len() - 1 {
        lemma_most(buckets.drop_last(), k);
    }
}

/// Without slabs the most is zero.
proof fn lemma_most_empty(buckets: Seq<AllocationBucketInfo>)
    requires
        forall|k: int| 0 <= k < buckets.len() ==> (#[trigger] buckets[k]).stats.nslabs == 0,
    ensures
        most_slabs(buckets) == 0,
    decreases buckets.len(),
{
    if buckets.len() > 0 {
        assert(buckets[buckets.len() - 1].stats.nslabs == 0);
        lemma_most_empty(buckets.drop_last());
    }
}

/// One bucket gets more slabs.
proof fn lemma_most_more(
    a: Seq<AllocationBucketInfo>,
    b: Seq<AllocationBucketInfo>,
    at: int,
)
    requires
        a.len() == b.len(),
        0 <= at < a.len(),
        b[at].stats.nslabs > a[at].stats.nslabs,
        forall|k: int| 0 <= k < a.len() && k != at ==> #[trigger] b[k] == a[k],
    ensures
        most_slabs(b) == larger(most_slabs(a), b[at].stats.nslabs as int),
    decreases a.len(),
{
    let n = a.len() - 1;
    if at == n {
        assert(a.drop_last() =~= b.drop_last());
    } else {
        assert(b[n] == a[n]);
        assert forall|k: int| 0 <= k < n && k != at implies #[trigger] b.drop_last()[k]
            == a.drop_last()[k] by {
            assert(b[k] == a[k]);
        }
        lemma_most_more(a.drop_last(), b.drop_last(), at);
    }
}

/// The first bucket for slabs of the size.
pub open spec fn is_bucket_for(buckets: Seq<AllocationBucketInfo>, max_size: u32, k: int) -> bool {
    &&& 0 <= k < buckets.len()
    &&& max_size <= buckets[k].max_size
    &&& forall|j: int| 0 <= j < k ==> (#[trigger] buckets[j]).max_size < max_size
}

/// Slabs in ascending order of the sizes of their buckets.
pub open spec fn buckets_ascend(buckets: Seq<AllocationBucketInfo>) -> bool {
    forall|i: int, j: int|
        0 <= i < j < buckets.len() ==> (#[trigger] buckets[i]).max_size < (
        #[trigger] buckets[j]).max_size
}

impl SlabBucketsReport {
    pub open spec fn wf(&self) -> bool {
        &&& buckets_ascend(self.buckets@)
        &&& forall|k: int|
            0 <= k < self.buckets@.len() ==> {
                &&& (#[trigger] self.buckets@[k]).wf()
                &&& self.buckets@[k].stats.slab_size == self.total.slab_size
                &&& self.buckets@[k].stats.nslabs <= self.total.nslabs
                &&& self.buckets@[k].stats.free_space <= self.total.free_space
                &&& self.buckets@[k].stats.total_segments <= self.total.total_segments
            }
    }

    /// The same buckets.
    pub open spec fn same_buckets(&self, other: SlabBucketsReport) -> bool {
        &&& self.buckets@.len() == other.buckets@.len()
        &&& forall|k: int|
            0 <= k < self.buckets@.len() ==> (#[trigger] self.buckets@[k]).max_size
                == other.buckets@[k].max_size && self.buckets@[k].extent_based
                == other.buckets@[k].extent_based
    }

    /// The report is on these slabs.
    pub open spec fn reports(&self, slabs: Seq<SlabSummary>, slab_size: u64) -> bool {
        &&& self.total == tally(slabs, slab_size, |s: SlabSummary| true)
        &&& forall|k: int|
            0 <= k < self.buckets@.len() ==> (#[trigger] self.buckets@[k]).stats == tally(
                slabs,
                slab_size,
                self.of_bucket(k),
            ) && self.buckets@[k].slabs_by_freeness@.to_set() == freeness_of(
                slabs,
                self.of_bucket(k),
            )
        &&& self.hist_scaling_factor >= most_slabs(self.buckets@)
    }

    /// The slabs that belong to a bucket. Slabs that are emptied belong to none.
    pub open spec fn of_bucket(&self, k: int) -> spec_fn(SlabSummary) -> bool {
        let lower = if k > 0 {
            self.buckets@[k - 1].max_size as int
        } else {
            -1
        };
        let upper = self.buckets@[k].max_size;
        |s: SlabSummary| s.kind != SlabKind::Evacuating && lower < s.max_size <= upper
    }

    pub fn new(buckets: &Vec<(SlabBucketSize, bool)>, slab_size: u64) -> (r: SlabBucketsReport)
        requires
            sizes_ascend(buckets@),
        ensures
            r.wf(),
            r.reports(Seq::empty(), slab_size),
            r.hist_scaling_factor == 0,
            r.buckets@.len() == buckets@.len(),
            forall|k: int|
                0 <= k < buckets@.len() ==> {
                    &&& (#[trigger] r.buckets@[k]).max_size == buckets@[k].0.0
                    &&& r.buckets@[k].extent_based == buckets@[k].1
                    &&& r.buckets@[k].slabs_by_freeness@.len() == 0
                },
    {
        let mut list: Vec<AllocationBucketInfo> = Vec::new();
        let mut i: usize = 0;
        while i < buckets.len()
            invariant
                i <= buckets@.len(),
                list@.len() == i,
                forall|k: int|
                    0 <= k < i ==> {
                        &&& (#[trigger] list@[k]).wf()
                        &&& list@[k].max_size == buckets@[k].0.0
                        &&& list@[k].extent_based == buckets@[k].1
                        &&& list@[k].slabs_by_freeness@.len() == 0
                        &&& list@[k].stats == (AllocationBucketStatistics {
                            nslabs: 0,
                            free_space: 0,
                            slab_size,
                            total_segments: 0,
                        })
                    },
            decreases buckets@.len() - i,
        {
            let (size, extent_based) = buckets[i];
            list.push(AllocationBucketInfo::new(extent_based, size.0, slab_size));
            i += 1;
        }
        proof {
            assert forall|x: int, y: int| 0 <= x < y < list@.len() implies (
            #[trigger] list@[x]).max_size < (#[trigger] list@[y]).max_size by {
                assert(buckets@[x].0.0 < buckets@[y].0.0);
            }
            lemma_most_empty(list@);
            assert forall|k: int| 0 <= k < list@.len() implies (
            #[trigger] list@[k]).slabs_by_freeness@.to_set() == Set::<(u64, SlabId)>::empty() by {
                assert(list@[k].slabs_by_freeness@.len() == 0);
            }
        }
        SlabBucketsReport {
            buckets: list,
            total: AllocationBucketStatistics::new(slab_size),
            hist_scaling_factor: 0,
        }
    }

    pub fn reset_hist_scaling_factor(&mut self, count: u64)
        ensures
            *final(self) == (SlabBucketsReport {
                hist_scaling_factor: if count > old(self).hist_scaling_factor {
                    count
                } else {
                    old(self).hist_scaling_factor
                },
                ..*old(self)
            }),
    {
        if count > self.hist_scaling_factor {
            self.hist_scaling_factor = count;
        }
    }

    /// Adds a slab to its bucket, and to the total.
    #[verifier::rlimit(40)]
    pub fn add_slab(&mut self, slab: &SlabSummary)
        requires
            old(self).wf(),
            slab.free_space <= old(self).total.slab_size,
            old(self).total.nslabs < u64::MAX,
            old(self).total.free_space + slab.free_space <= u64::MAX,
            old(self).total.total_segments + slab.num_segments <= u64::MAX,
            slab.kind != SlabKind::Evacuating ==> old(self).buckets@.len() > 0 && slab.max_size
                <= old(self).buckets@.last().max_size,
        ensures
            final(self).wf(),
            final(self).same_buckets(*old(self)),
            final(self).total == (AllocationBucketStatistics {
                nslabs: (old(self).total.nslabs + 1) as u64,
                free_space: (old(self).total.free_space + slab.free_space) as u64,
                slab_size: old(self).total.slab_size,
                total_segments: (old(self).total.total_segments + slab.num_segments) as u64,
            }),
            slab.kind == SlabKind::Evacuating ==> final(self).hist_scaling_factor == old(
                self).hist_scaling_factor,
            forall|k: int|
                slab.kind != SlabKind::Evacuating && #[trigger] is_bucket_for(
                    old(self).buckets@,
                    slab.max_size,
                    k,
                ) ==> final(self).hist_scaling_factor == larger(
                    old(self).hist_scaling_factor as int,
                    old(self).buckets@[k].stats.nslabs + 1,
                ),
            old(self).hist_scaling_factor == most_slabs(old(self).buckets@)
                ==> final(self).hist_scaling_factor == most_slabs(final(self).buckets@),
            forall|slabs: Seq<SlabSummary>, z: u64| #[trigger]
                old(self).reports(slabs, z) ==> final(self).reports(slabs.push(*slab), z),
    {
        let ghost a = *self;
        let ghost mut at: int = -1;
        if slab.kind != SlabKind::Evacuating {
            let n = self.buckets.len();
            let mut k: usize = 0;
            while self.buckets[k].max_size < slab.max_size
                invariant
                    *self == a,
                    a.wf(),
                    n == a.buckets@.len(),
                    k < n,
                    slab.max_size <= a.buckets@.last().max_size,
                    forall|j: int|
                        0 <= j < k ==> (#[trigger] a.buckets@[j]).max_size < slab.max_size,
                decreases n - k,
            {
                assert(k < n - 1);
                k += 1;
            }
            proof {
                at = k as int;
                assert(a.buckets@[at].wf());
            }
            self.buckets[k].add_slab(slab);
            let nslabs = self.buckets[k].stats.nslabs;
            self.reset_hist_scaling_factor(nslabs);
        }
        self.total.add_slab(slab);
        proof {
            let b = *self;
            assert(b.buckets@.len() == a.buckets@.len());
            assert forall|k: int| 0 <= k < b.buckets@.len() && k != at implies #[trigger]
                b.buckets@[k] == a.buckets@[k] by {}
            assert forall|k: int| 0 <= k < b.buckets@.len() implies {
                &&& (#[trigger] b.buckets@[k]).max_size == a.buckets@[k].max_size
                &&& b.buckets@[k].extent_based == a.buckets@[k].extent_based
                &&& b.buckets@[k].wf()
                &&& b.buckets@[k].stats.slab_size == b.total.slab_size
                &&& b.buckets@[k].stats.nslabs <= b.total.nslabs
                &&& b.buckets@[k].stats.free_space <= b.total.free_space
                &&& b.buckets@[k].stats.total_segments <= b.total.total_segments
            } by {
                assert(a.buckets@[k].wf());
            }
            assert(buckets_ascend(b.buckets@)) by {
                assert forall|x: int, y: int| 0 <= x < y < b.buckets@.len() implies (
                #[trigger] b.buckets@[x]).max_size < (#[trigger] b.buckets@[y]).max_size by {
                    assert(a.buckets@[x].max_size < a.buckets@[y].max_size);
                }
            }
            if at >= 0 {
                lemma_most_more(a.buckets@, b.buckets@, at);
                assert forall|k: int| #[trigger] is_bucket_for(a.buckets@, slab.max_size, k)
                    implies k == at by {
                    if k < at {
                        assert(a.buckets@[k].max_size < slab.max_size);
                    } else if at < k {
                        assert(a.buckets@[at].max_size < slab.max_size);
                    }
                }
            } else {
                assert(b.buckets@ =~= a.buckets@);
            }
            assert forall|slabs: Seq<SlabSummary>, z: u64| #[trigger] a.reports(
                slabs,
                z,
            ) implies b.reports(slabs.push(*slab), z) by {
                lemma_added(a, b, *slab, at, slabs, z);
            }
        }
    }
}

/// The graph of each bucket of a report fits in the width of the report.
pub proof fn law_graph_fits(report: SlabBucketsReport, slabs: Seq<SlabSummary>, z: u64, k: int)
    requires
        report.reports(slabs, z),
        0 <= k < report.buckets@.len(),
    ensures
        report.buckets@[k].stats.nslabs <= report.hist_scaling_factor,
        report.buckets@[k].stats.spec_graph(report.hist_scaling_factor as int).0
            <= REPORT_HISTOGRAM_WIDTH,
{
    lemma_most(report.buckets@, k);
    let n = report.buckets@[k].stats.nslabs as int;
    let factor = if report.hist_scaling_factor < REPORT_HISTOGRAM_WIDTH {
        REPORT_HISTOGRAM_WIDTH as int
    } else {
        report.hist_scaling_factor as int
    };
    assert(n * 39 / factor <= 39) by (nonlinear_arith)
        requires
            0 <= n <= factor,
            factor > 0,
    ;
}

/// The report after a slab has been added to bucket `at` is that on the slabs with it.
proof fn lemma_added(
    a: SlabBucketsReport,
    b: SlabBucketsReport,
    slab: SlabSummary,
    at: int,
    slabs: Seq<SlabSummary>,
    z: u64,
)
    requires
        a.wf(),
        a.reports(slabs, z),
        b.same_buckets(a),
        b.total == (AllocationBucketStatistics {
            nslabs: (a.total.nslabs + 1) as u64,
            free_space: (a.total.free_space + slab.free_space) as u64,
            slab_size: a.total.slab_size,
            total_segments: (a.total.total_segments + slab.num_segments) as u64,
        }),
        b.hist_scaling_factor >= most_slabs(b.buckets@),
        slab.kind == SlabKind::Evacuating ==> at == -1,
        slab.kind != SlabKind::Evacuating ==> {
            &&& is_bucket_for(a.buckets@, slab.max_size, at)
            &&& b.buckets@[at].stats == (AllocationBucketStatistics {
                nslabs: (a.buckets@[at].stats.nslabs + 1) as u64,
                free_space: (a.buckets@[at].stats.free_space + slab.free_space) as u64,
                slab_size: a.buckets@[at].stats.slab_size,
                total_segments: (a.buckets@[at].stats.total_segments + slab.num_segments) as u64,
            })
            &&& b.buckets@[at].slabs_by_freeness@.to_set()
                == a.buckets@[at].slabs_by_freeness@.to_set().insert((slab.free_space, slab.id))
        },
        forall|k: int| 0 <= k < b.buckets@.len() && k != at ==> #[trigger] b.buckets@[k]
            == a.buckets@[k],
    ensures
        b.reports(slabs.push(slab), z),
{
    let s1 = slabs.push(slab);
    assert(s1.drop_last() =~= slabs);
    lemma_tally_size(slabs, z, |s: SlabSummary| true);
    assert forall|k: int| 0 <= k < b.buckets@.len() implies (#[trigger] b.buckets@[k]).stats
        == tally(s1, z, b.of_bucket(k)) && b.buckets@[k].slabs_by_freeness@.to_set()
        == freeness_of(s1, b.of_bucket(k)) by {
        assert(a.buckets@[k].stats == tally(slabs, z, a.of_bucket(k)));
        if k > 0 {
            assert(b.buckets@[k - 1].max_size == a.buckets@[k - 1].max_size);
        }
        assert(b.of_bucket(k) =~= a.of_bucket(k));
        let f = a.of_bucket(k);
        lemma_tally_size(slabs, z, f);
        if slab.kind != SlabKind::Evacuating {
            if k < at {
                assert(a.buckets@[k].max_size < slab.max_size);
                assert(!f(slab));
            } else if k == at {
                if k > 0 {
                    assert(a.buckets@[k - 1].max_size < slab.max_size);
                }
                assert(f(slab));
            } else {
                if at < k - 1 {
                    assert(a.buckets@[at].max_size < a.buckets@[k - 1].max_size);
                }
                assert(!f(slab));
            }
        } else {
            assert(!f(slab));
        }
    }
}

proof fn lemma_tally_size(
    slabs: Seq<SlabSummary>,
    slab_size: u64,
    chosen: spec_fn(SlabSummary) -> bool,
)
    ensures
        tally(slabs, slab_size, chosen).slab_size == slab_size,
    decreases slabs.len(),
{
    if slabs.len() > 0 {
        lemma_tally_size(slabs.drop_last(), slab_size, chosen);
    }
}

/// The reports on some slabs.
pub struct SlabsReport {
    pub by_max_size: SlabBucketsReport,
    pub bitmap_based: SlabBucketsReport,
    pub extent_based: SlabBucketsReport,
    pub evacuating: AllocationBucketStatistics,
}

/// The slabs of a kind.
pub open spec fn of_kind(slabs: Seq<SlabSummary>, kind: SlabKind) -> Seq<SlabSummary>
    decreases slabs.len(),
{
    if slabs.len() == 0 {
        Seq::empty()
    } else if slabs.last().kind == kind {
        of_kind(slabs.drop_last(), kind).push(slabs.last())
    } else {
        of_kind(slabs.drop_last(), kind)
    }
}

proof fn lemma_of_kind(slabs: Seq<SlabSummary>, kind: SlabKind, slab_size: u64)
    requires
        can_report(slabs, slab_size),
    ensures
        can_report(of_kind(slabs, kind), slab_size),
        of_kind(slabs, kind).len() <= slabs.len(),
        segments_of(of_kind(slabs, kind)) <= segments_of(slabs),
    decreases slabs.len(),
{
    if slabs.len() > 0 {
        let n = slabs.len() - 1;
        lemma_can_report(slabs, slab_size, n);
        assert(slabs.take(n) =~= slabs.drop_last());
        lemma_of_kind(slabs.drop_last(), kind, slab_size);
        let d = of_kind(slabs.drop_last(), kind);
        let k = of_kind(slabs, kind);
        assert(slabs[n].free_space <= slab_size);
        assert(k.len() * slab_size <= slabs.len() * slab_size) by (nonlinear_arith)
            requires
                k.len() <= slabs.len(),
        ;
        if slabs.last().kind == kind {
            assert(k.drop_last() =~= d);
            assert forall|i: int| 0 <= i < k.len() implies (#[trigger] k[i]).free_space
                <= slab_size by {
                if i < d.len() {
                    assert(k[i] == d[i]);
                }
            }
        }
    }
}

/// One more slab can be added.
proof fn lemma_room(
    slabs: Seq<SlabSummary>,
    slab: SlabSummary,
    slab_size: u64,
    chosen: spec_fn(SlabSummary) -> bool,
)
    requires
        can_report(slabs.push(slab), slab_size),
    ensures
        slab.free_space <= slab_size,
        tally(slabs, slab_size, chosen).nslabs < u64::MAX,
        tally(slabs, slab_size, chosen).free_space + slab.free_space <= u64::MAX,
        tally(slabs, slab_size, chosen).total_segments + slab.num_segments <= u64::MAX,
{
    let s1 = slabs.push(slab);
    assert(s1.drop_last() =~= slabs);
    assert(s1.take(s1.len() - 1) =~= slabs);
    lemma_can_report(s1, slab_size, s1.len() - 1);
    lemma_tally(slabs, slab_size, chosen);
    let t = tally(slabs, slab_size, chosen);
    assert(s1[s1.len() - 1].free_space <= slab_size);
    assert(t.nslabs * slab_size <= slabs.len() * slab_size) by (nonlinear_arith)
        requires
            t.nslabs <= slabs.len(),
    ;
    assert(slabs.len() * slab_size + slab_size == s1.len() * slab_size) by (nonlinear_arith)
        requires
            s1.len() == slabs.len() + 1,
    ;
}

/// The buckets have these sizes.
pub open spec fn has_sizes(
    buckets: Seq<AllocationBucketInfo>,
    sizes: Seq<u32>,
    extent_based: bool,
) -> bool {
    &&& buckets.len() == sizes.len()
    &&& forall|k: int|
        0 <= k < sizes.len() ==> (#[trigger] buckets[k]).max_size == sizes[k]
            && buckets[k].extent_based == extent_based
}

/// The buckets have just these sizes, which ascend.
pub open spec fn has_just_sizes(
    buckets: Seq<AllocationBucketInfo>,
    sizes: Set<u32>,
    extent_based: bool,
) -> bool {
    &&& buckets_ascend(buckets)
    &&& forall|k: int|
        0 <= k < buckets.len() ==> sizes.contains((#[trigger] buckets[k]).max_size)
            && buckets[k].extent_based == extent_based
    &&& forall|size: u32|
        #[trigger] sizes.contains(size) ==> exists|k: int|
            0 <= k < buckets.len() && (#[trigger] buckets[k]).max_size == size
}

/// The sizes by which slabs with extents are summarized.
pub open spec fn extent_sizes(slab_size: u64) -> Set<u32> {
    set![65536u32, 262144, 1048576, slab_size as u32]
}

/// Adds a bucket, unless there is one of its size.
fn add_size(sizes: &mut Vec<(SlabBucketSize, bool)>, size: u32, extent_based: bool)
    requires
        sizes_ascend(old(sizes)@),
        forall|k: int| 0 <= k < old(sizes)@.len() ==> (#[trigger] old(sizes)@[k]).1
            == extent_based,
    ensures
        sizes_ascend(final(sizes)@),
        forall|k: int|
            0 <= k < final(sizes)@.len() ==> (#[trigger] final(sizes)@[k]).1 == extent_based && (
            final(sizes)@[k].0.0 == size || old(sizes)@.contains(final(sizes)@[k])),
        forall|k: int|
            0 <= k < old(sizes)@.len() ==> final(sizes)@.contains(#[trigger] old(sizes)@[k]),
        final(sizes)@.contains((SlabBucketSize(size), extent_based)),
{
    let mut at: usize = 0;
    while at < sizes.len() && sizes[at].0.0 < size
        invariant
            at <= sizes@.len(),
            forall|k: int| 0 <= k < at ==> (#[trigger] sizes@[k]).0.0 < size,
        decreases sizes@.len() - at,
    {
        at += 1;
    }
    let ghost before = sizes@;
    if at < sizes.len() && sizes[at].0.0 == size {
        assert(sizes@[at as int] == (SlabBucketSize(size), extent_based));
        return;
    }
    sizes.insert(at, (SlabBucketSize(size), extent_based));
    proof {
        assert(sizes@[at as int] == (SlabBucketSize(size), extent_based));
        assert forall|k: int| 0 <= k < before.len() implies sizes@.contains(
            #[trigger] before[k],
        ) by {
            let j = if k < at {
                k
            } else {
                k + 1
            };
            assert(sizes@[j] == before[k]);
        }
        assert forall|k: int| 0 <= k < sizes@.len() implies (#[trigger] sizes@[k]).1
            == extent_based && (sizes@[k].0.0 == size || before.contains(sizes@[k])) by {
            if k != at {
                let j = if k < at {
                    k
                } else {
                    k - 1
                };
                assert(sizes@[k] == before[j]);
            }
        }
    }
}

/// Buckets for a report.
fn sizes_kb(kb: &Vec<u32>, extent_based: bool) -> (r: Vec<(SlabBucketSize, bool)>)
    requires
        forall|i: int| 0 <= i < kb@.len() ==> (#[trigger] kb@[i]) <= 0x10_0000,
    ensures
        r@.len() == kb@.len(),
        forall|i: int|
            0 <= i < r@.len() ==> (#[trigger] r@[i]).0.0 == kb@[i] * 1024 && r@[i].1
                == extent_based,
{
    let mut r: Vec<(SlabBucketSize, bool)> = Vec::new();
    let mut i: usize = 0;
    while i < kb.len()
        invariant
            i <= kb@.len(),
            r@.len() == i,
            forall|k: int| 0 <= k < kb@.len() ==> (#[trigger] kb@[k]) <= 0x10_0000,
            forall|k: int|
                0 <= k < i ==> (#[trigger] r@[k]).0.0 == kb@[k] * 1024 && r@[k].1 == extent_based,
        decreases kb@.len() - i,
    {
        assert(kb@[i as int] <= 0x10_0000);
        r.push((SlabBucketSize(kb[i] * 1024), extent_based));
        i += 1;
    }
    r
}

/// Buckets of the same sizes have the sizes that they should.
proof fn lemma_just_sizes(
    a: Seq<AllocationBucketInfo>,
    b: Seq<AllocationBucketInfo>,
    sizes: Set<u32>,
)
    requires
        has_just_sizes(a, sizes, true),
        a.len() == b.len(),
        forall|k: int|
            0 <= k < b.len() ==> (#[trigger] b[k]).max_size == a[k].max_size && b[k].extent_based
                == a[k].extent_based,
    ensures
        has_just_sizes(b, sizes, true),
{
    assert forall|k: int| 0 <= k < b.len() implies sizes.contains((#[trigger] b[k]).max_size)
        && b[k].extent_based by {
        assert(sizes.contains(a[k].max_size));
    }
    assert forall|size: u32| #[trigger] sizes.contains(size) implies exists|k: int|
        0 <= k < b.len() && (#[trigger] b[k]).max_size == size by {
        let k = choose|k: int| 0 <= k < a.len() && (#[trigger] a[k]).max_size == size;
        assert(b[k].max_size == size);
    }
    assert forall|i: int, j: int| 0 <= i < j < b.len() implies (#[trigger] b[i]).max_size < (
    #[trigger] b[j]).max_size by {
        assert(a[i].max_size < a[j].max_size);
    }
}

/// The buckets of a summary of slabs with extents have the sizes that they should.
proof fn lemma_extent_buckets(
    sizes: Seq<(SlabBucketSize, bool)>,
    fixed: Seq<(SlabBucketSize, bool)>,
    buckets: Seq<AllocationBucketInfo>,
    slab_size: u64,
)
    requires
        slab_size <= u32::MAX,
        sizes_ascend(sizes),
        fixed == seq![
            (SlabBucketSize(65536), true),
            (SlabBucketSize(262144), true),
            (SlabBucketSize(1048576), true),
        ],
        forall|k: int|
            0 <= k < sizes.len() ==> (#[trigger] sizes[k]).1 && (sizes[k].0.0 == slab_size
                || fixed.contains(sizes[k])),
        forall|k: int| 0 <= k < fixed.len() ==> sizes.contains(#[trigger] fixed[k]),
        sizes.contains((SlabBucketSize(slab_size as u32), true)),
        buckets.len() == sizes.len(),
        forall|k: int|
            0 <= k < sizes.len() ==> (#[trigger] buckets[k]).max_size == sizes[k].0.0
                && buckets[k].extent_based == sizes[k].1,
    ensures
        has_just_sizes(buckets, extent_sizes(slab_size), true),
        buckets.len() > 0,
        buckets.last().max_size == larger(1048576, slab_size as int),
{
    let wanted = extent_sizes(slab_size);
    assert forall|k: int| 0 <= k < buckets.len() implies wanted.contains(
        (#[trigger] buckets[k]).max_size,
    ) && buckets[k].extent_based by {
        assert(sizes[k].1);
    }
    assert forall|size: u32| #[trigger] wanted.contains(size) implies exists|k: int|
        0 <= k < buckets.len() && (#[trigger] buckets[k]).max_size == size by {
        assert(fixed[0].0.0 == 65536 && fixed[1].0.0 == 262144 && fixed[2].0.0 == 1048576);
        let b = (SlabBucketSize(size), true);
        assert(sizes.contains(b));
        let k = choose|k: int| 0 <= k < sizes.len() && sizes[k] == b;
        assert(buckets[k].max_size == size);
    }
    assert(wanted.contains(1048576) && wanted.contains(slab_size as u32));
    let top = larger(1048576, slab_size as int) as u32;
    let k = choose|k: int| 0 <= k < buckets.len() && (#[trigger] buckets[k]).max_size == top;
    let last = buckets.len() - 1;
    assert(wanted.contains(buckets[last].max_size));
    assert(sizes[k].0.0 == top && sizes[last].0.0 == buckets[last].max_size);
}

/// Reports on slabs: by the buckets of the cache, and by a few sizes for slabs of each kind.
#[verifier::rlimit(100)]
pub fn slabs_report(
    slabs: &Vec<SlabSummary>,
    slab_size: u64,
    buckets: &Vec<(SlabBucketSize, bool)>,
) -> (r: SlabsReport)
    requires
        can_report(slabs@, slab_size),
        slab_size <= u32::MAX,
        sizes_ascend(buckets@),
        forall|i: int|
            0 <= i < slabs@.len() && (#[trigger] slabs@[i]).kind != SlabKind::Evacuating ==> {
                &&& buckets@.len() > 0
                &&& slabs@[i].max_size <= buckets@.last().0.0
                &&& slabs@[i].kind == SlabKind::ExtentBased ==> slabs@[i].max_size <= larger(
                    1048576,
                    slab_size as int,
                )
                &&& slabs@[i].kind == SlabKind::BitmapBased ==> slabs@[i].max_size <= 16384
            },
    ensures
        r.by_max_size.wf(),
        r.by_max_size.reports(slabs@, slab_size),
        r.by_max_size.buckets@.len() == buckets@.len(),
        forall|k: int|
            0 <= k < buckets@.len() ==> (#[trigger] r.by_max_size.buckets@[k]).max_size
                == buckets@[k].0.0 && r.by_max_size.buckets@[k].extent_based == buckets@[k].1,
        r.bitmap_based.wf(),
        r.bitmap_based.reports(of_kind(slabs@, SlabKind::BitmapBased), slab_size),
        has_sizes(r.bitmap_based.buckets@, seq![1024, 2048, 4096, 8192, 16384], false),
        r.extent_based.wf(),
        r.extent_based.reports(of_kind(slabs@, SlabKind::ExtentBased), slab_size),
        has_just_sizes(r.extent_based.buckets@, extent_sizes(slab_size), true),
        r.evacuating == tally(
            slabs@,
            slab_size,
            |s: SlabSummary| s.kind == SlabKind::Evacuating,
        ),
        // the summaries are drawn to the same scale, and the buckets to no larger one
        r.bitmap_based.hist_scaling_factor == larger(
            most_slabs(r.bitmap_based.buckets@),
            most_slabs(r.extent_based.buckets@),
        ),
        r.extent_based.hist_scaling_factor == r.bitmap_based.hist_scaling_factor,
        r.by_max_size.hist_scaling_factor == larger(
            most_slabs(r.by_max_size.buckets@),
            r.bitmap_based.hist_scaling_factor as int,
        ),
{
    let ghost all = slabs@;
    let mut by_max_size = SlabBucketsReport::new(buckets, slab_size);
    let mut kb: Vec<u32> = Vec::new();
    kb.push(1);
    kb.push(2);
    kb.push(4);
    kb.push(8);
    kb.push(16);
    let bitmap_sizes = sizes_kb(&kb, false);
    let mut bitmap_based = SlabBucketsReport::new(&bitmap_sizes, slab_size);
    let mut kb: Vec<u32> = Vec::new();
    kb.push(64);
    kb.push(256);
    kb.push(1024);
    let mut extent_buckets = sizes_kb(&kb, true);
    let ghost fixed = extent_buckets@;
    add_size(&mut extent_buckets, slab_size as u32, true);
    let mut extent_based = SlabBucketsReport::new(&extent_buckets, slab_size);
    let mut evacuating = AllocationBucketStatistics::new(slab_size);
    let ghost is_ev = |s: SlabSummary| s.kind == SlabKind::Evacuating;
    let mut i: usize = 0;
    proof {
        assert(all.take(0) =~= Seq::<SlabSummary>::empty());
        assert(bitmap_based.buckets@.last().max_size == 16384);
        assert(fixed =~= seq![
            (SlabBucketSize(65536), true),
            (SlabBucketSize(262144), true),
            (SlabBucketSize(1048576), true),
        ]);
        lemma_extent_buckets(extent_buckets@, fixed, extent_based.buckets@, slab_size);
        lemma_most_empty(by_max_size.buckets@);
        lemma_most_empty(bitmap_based.buckets@);
        lemma_most_empty(extent_based.buckets@);
    }
    while i < slabs.len()
        invariant
            i <= all.len(),
            all == slabs@,
            can_report(all, slab_size),
            is_ev == (|s: SlabSummary| s.kind == SlabKind::Evacuating),
            forall|k: int|
                0 <= k < all.len() && (#[trigger] all[k]).kind != SlabKind::Evacuating ==> {
                    &&& buckets@.len() > 0
                    &&& all[k].max_size <= buckets@.last().0.0
                    &&& all[k].kind == SlabKind::ExtentBased ==> all[k].max_size <= larger(
                        1048576,
                        slab_size as int,
                    )
                    &&& all[k].kind == SlabKind::BitmapBased ==> all[k].max_size <= 16384
                },
            by_max_size.wf(),
            by_max_size.reports(all.take(i as int), slab_size),
            by_max_size.total.slab_size == slab_size,
            by_max_size.buckets@.len() == buckets@.len(),
            forall|k: int|
                0 <= k < buckets@.len() ==> (#[trigger] by_max_size.buckets@[k]).max_size
                    == buckets@[k].0.0 && by_max_size.buckets@[k].extent_based == buckets@[k].1,
            by_max_size.hist_scaling_factor == most_slabs(by_max_size.buckets@),
            bitmap_based.hist_scaling_factor == most_slabs(bitmap_based.buckets@),
            extent_based.hist_scaling_factor == most_slabs(extent_based.buckets@),
            has_sizes(bitmap_based.buckets@, seq![1024, 2048, 4096, 8192, 16384], false),
            has_just_sizes(extent_based.buckets@, extent_sizes(slab_size), true),
            bitmap_based.wf(),
            bitmap_based.reports(of_kind(all.take(i as int), SlabKind::BitmapBased), slab_size),
            bitmap_based.total.slab_size == slab_size,
            bitmap_based.buckets@.len() == 5,
            bitmap_based.buckets@.last().max_size == 16384,
            extent_based.wf(),
            extent_based.reports(of_kind(all.take(i as int), SlabKind::ExtentBased), slab_size),
            extent_based.total.slab_size == slab_size,
            extent_based.buckets@.len() > 0,
            extent_based.buckets@.last().max_size == larger(1048576, slab_size as int),
            evacuating == tally(all.take(i as int), slab_size, is_ev),
        decreases all.len() - i,
    {
        let slab = slabs[i];
        let ghost t0 = all.take(i as int);
        let ghost t1 = all.take(i + 1);
        proof {
            assert(t1 =~= t0.push(slab));
            assert(t1.drop_last() =~= t0);
            lemma_can_report(all, slab_size, i + 1);
            lemma_of_kind(t1, SlabKind::BitmapBased, slab_size);
            lemma_of_kind(t1, SlabKind::ExtentBased, slab_size);
            assert(all[i as int] == slab);
            if buckets@.len() > 0 {
                assert(by_max_size.buckets@[buckets@.len() - 1].max_size
                    == buckets@[buckets@.len() - 1].0.0);
            }
            let bm0 = of_kind(t0, SlabKind::BitmapBased);
            let ex0 = of_kind(t0, SlabKind::ExtentBased);
            lemma_room(t0, slab, slab_size, is_ev);
            lemma_tally_size(t0, slab_size, is_ev);
            assert(is_ev(slab) <==> slab.kind == SlabKind::Evacuating);
            assert(t1.last() == slab);
            lemma_room(t0, slab, slab_size, |s: SlabSummary| true);
            if slab.kind == SlabKind::BitmapBased {
                lemma_room(bm0, slab, slab_size, |s: SlabSummary| true);
            }
            if slab.kind == SlabKind::ExtentBased {
                lemma_room(ex0, slab, slab_size, |s: SlabSummary| true);
            }
        }
        let ghost ex = extent_based.buckets@;
        by_max_size.add_slab(&slab);
        match slab.kind {
            SlabKind::BitmapBased => {
                bitmap_based.add_slab(&slab);
            },
            SlabKind::ExtentBased => {
                extent_based.add_slab(&slab);
                proof {
                    lemma_just_sizes(ex, extent_based.buckets@, extent_sizes(slab_size));
                }
            },
            SlabKind::Evacuating => {
                evacuating.add_slab(&slab);
            },
        }
        i += 1;
    }
    assert(all.take(i as int) =~= all);
    let factor: u64 = if bitmap_based.hist_scaling_factor < extent_based.hist_scaling_factor {
        extent_based.hist_scaling_factor
    } else {
        bitmap_based.hist_scaling_factor
    };
    bitmap_based.reset_hist_scaling_factor(factor);
    extent_based.reset_hist_scaling_factor(factor);
    by_max_size.reset_hist_scaling_factor(factor);
    SlabsReport { by_max_size, bitmap_based, extent_based, evacuating }
}

/// The slabs on a disk.
pub open spec fn on_disk(slabs: Seq<SlabSummary>, disk: DiskId) -> Seq<SlabSummary>
    decreases slabs.len(),
{
    if slabs.len() == 0 {
        Seq::empty()
    } else if slabs.last().disk == disk {
        on_disk(slabs.drop_last(), disk).push(slabs.last())
    } else {
        on_disk(slabs.drop_last(), disk)
    }
}

/// The slabs of a device.
pub fn slabs_of_device(slabs: &Vec<SlabSummary>, disk: DiskId) -> (r: Vec<SlabSummary>)
    ensures
        r@ == on_disk(slabs@, disk),
{
    let mut r: Vec<SlabSummary> = Vec::new();
    let mut i: usize = 0;
    assert(slabs@.take(0) =~= Seq::<SlabSummary>::empty());
    while i < slabs.len()
        invariant
            i <= slabs@.len(),
            r@ == on_disk(slabs@.take(i as int), disk),
        decreases slabs@.len() - i,
    {
        assert(slabs@.take(i + 1).drop_last() =~= slabs@.take(i as int));
        let slab = slabs[i];
        if slab.disk == disk {
            r.push(slab);
        }
        i += 1;
    }
    assert(slabs@.take(i as int) =~= slabs@);
    r
}

/// A slab that is chosen counts for one more slab, with its free space and its segments. One that
/// is not counts for nothing.
pub proof fn law_tally(
    slabs: Seq<SlabSummary>,
    slab_size: u64,
    chosen: spec_fn(SlabSummary) -> bool,
    s: SlabSummary,
)
    requires
        tally(slabs, slab_size, chosen).nslabs < u64::MAX,
        tally(slabs, slab_size, chosen).free_space + s.free_space <= u64::MAX,
        tally(slabs, slab_size, chosen).total_segments + s.num_segments <= u64::MAX,
    ensures
        ({
            let a = tally(slabs, slab_size, chosen);
            let b = tally(slabs.push(s), slab_size, chosen);
            &&& chosen(s) ==> b.nslabs - a.nslabs == 1 && b.free_space - a.free_space
                == s.free_space && b.total_segments - a.total_segments == s.num_segments
            &&& !chosen(s) ==> b == a
            &&& b.slab_size == slab_size
        }),
        tally(Seq::empty(), slab_size, chosen).nslabs == 0,
        tally(Seq::empty(), slab_size, chosen).free_space == 0,
        tally(Seq::empty(), slab_size, chosen).total_segments == 0,
{
    assert(slabs.push(s).drop_last() =~= slabs);
    lemma_tally_size(slabs, slab_size, chosen);
}

/// A slab is in the tenth that says how much of it is in use. One that is all in use is in the
/// last one.
pub proof fn law_tenth(free: int, slab_size: int)
    requires
        0 <= free <= slab_size,
        slab_size > 0,
    ensures
        0 <= tenth_of(free, slab_size) <= 9,
        tenth_of(free, slab_size) * 10 * slab_size <= (slab_size - free) * 100,
        tenth_of(free, slab_size) < 9 ==> (slab_size - free) * 100 < (tenth_of(free, slab_size)
            + 1) * 10 * slab_size,
{
    let x = (slab_size - free) * 100;
    let perc = x / slab_size;
    let k = tenth_of(free, slab_size);
    assert(perc * slab_size <= x < (perc + 1) * slab_size) by (nonlinear_arith)
        requires
            slab_size > 0,
            perc == x / slab_size,
    ;
    assert(0 <= perc <= 100) by (nonlinear_arith)
        requires
            slab_size > 0,
            perc == x / slab_size,
            0 <= x <= slab_size * 100,
    ;
    assert(k * 10 * slab_size <= perc * slab_size) by (nonlinear_arith)
        requires
            k * 10 <= perc,
            slab_size > 0,
    ;
    if k < 9 {
        assert((perc + 1) * slab_size <= (k + 1) * 10 * slab_size) by (nonlinear_arith)
            requires
                perc + 1 <= (k + 1) * 10,
                slab_size > 0,
        ;
    }
}

/// Each slab is counted in its tenth.
pub proof fn law_in_tenth(s: Seq<(u64, SlabId)>, slab_size: int, k: int, e: (u64, SlabId))
    ensures
        in_tenth(s.push(e), slab_size, k) == in_tenth(s, slab_size, k) + if k == tenth_of(
            e.0 as int,
            slab_size,
        ) {
            1int
        } else {
            0int
        },
        in_tenth(Seq::empty(), slab_size, k) == 0,
{
    assert(s.push(e).drop_last() =~= s);
}

/// What is in use of the freest slabs is what is in use of each, and none of the others is more
/// free.
pub proof fn law_freest(s: Seq<(u64, SlabId)>, slab_size: int, n: int, i: int)
    requires
        by_freeness(s),
        0 < n <= s.len(),
    ensures
        allocated_in_freest(s, slab_size, 0) == 0,
        allocated_in_freest(s, slab_size, n) - allocated_in_freest(s, slab_size, n - 1)
            == slab_size - s[s.len() - n].0,
        0 <= i < s.len() - n ==> s[i].0 <= s[s.len() - n].0,
{
    if 0 <= i < s.len() - n {
        assert(less_free(s[i], s[s.len() - n]));
    }
}

/// A quantile has its part of the slabs, and one at least.
pub proof fn law_quantile(info: AllocationBucketInfo, permille: int)
    requires
        permille >= 0,
    ensures
        ({
            let n = info.spec_quantile_slabs(permille);
            let all = permille * info.slabs_by_freeness@.len();
            &&& n >= 1
            &&& all < (n + 1) * 1000
            &&& n == 1 || n * 1000 <= all
        }),
{
}

/// The greatest one is one of them, and none is greater.
pub proof fn law_greatest(s: Seq<u64>, i: int)
    ensures
        0 <= i < s.len() ==> s[i] <= greatest(s),
        greatest(s) == 0 || exists|k: int| 0 <= k < s.len() && #[trigger] s[k] == greatest(s),
    decreases s.len(),
{
    if s.len() > 0 {
        let p = s.drop_last();
        law_greatest(p, i);
        if 0 <= i < p.len() {
            assert(p[i] == s[i]);
        }
        assert(s[s.len() - 1] == s.last());
        if greatest(s) == greatest(p) && greatest(p) != 0 {
            let k = choose|k: int| 0 <= k < p.len() && #[trigger] p[k] == greatest(p);
            assert(s[k] == p[k]);
        }
    }
}

/// No bucket has more slabs than the one that has the most, and that is one of them.
pub proof fn law_most_slabs(buckets: Seq<AllocationBucketInfo>, i: int)
    ensures
        0 <= i < buckets.len() ==> buckets[i].stats.nslabs <= most_slabs(buckets),
        most_slabs(buckets) == 0 || exists|k: int|
            0 <= k < buckets.len() && (#[trigger] buckets[k]).stats.nslabs == most_slabs(buckets),
    decreases buckets.len(),
{
    if buckets.len() > 0 {
        let p = buckets.drop_last();
        law_most_slabs(p, i);
        if 0 <= i < p.len() {
            assert(p[i] == buckets[i]);
        }
        assert(buckets[buckets.len() - 1] == buckets.last());
        if most_slabs(buckets) == most_slabs(p) && most_slabs(p) != 0 {
            let k = choose|k: int|
                0 <= k < p.len() && (#[trigger] p[k]).stats.nslabs == most_slabs(p);
            assert(buckets[k] == p[k]);
        }
    }
}

proof fn lemma_summary_pushed(p: Seq<SlabSummary>, last: SlabSummary, s: SlabSummary)
    ensures
        p.push(last).contains(s) <==> p.contains(s) || s == last,
{
    let t = p.push(last);
    if p.contains(s) {
        let i = choose|i: int| 0 <= i < p.len() && p[i] == s;
        assert(t[i] == s);
    }
    assert(t[p.len() as int] == last);
    if t.contains(s) {
        let i = choose|i: int| 0 <= i < t.len() && t[i] == s;
        if i < p.len() {
            assert(p[i] == s);
        }
    }
}

/// The slabs of a kind, and those of a disk, are those that are of it.
pub proof fn law_slabs_of(
    slabs: Seq<SlabSummary>,
    kind: SlabKind,
    disk: DiskId,
    s: SlabSummary,
)
    ensures
        of_kind(slabs, kind).contains(s) <==> slabs.contains(s) && s.kind == kind,
        on_disk(slabs, disk).contains(s) <==> slabs.contains(s) && s.disk == disk,
    decreases slabs.len(),
{
    if slabs.len() > 0 {
        let p = slabs.drop_last();
        law_slabs_of(p, kind, disk, s);
        assert(p.push(slabs.last()) =~= slabs);
        lemma_summary_pushed(p, slabs.last(), s);
        lemma_summary_pushed(of_kind(p, kind), slabs.last(), s);
        lemma_summary_pushed(on_disk(p, disk), slabs.last(), s);
    }
}

/// What a bucket lists is the free space of each of its slabs.
pub proof fn law_freeness_of(
    slabs: Seq<SlabSummary>,
    chosen: spec_fn(SlabSummary) -> bool,
    free: u64,
    id: SlabId,
)
    ensures
        freeness_of(slabs, chosen).contains((free, id)) <==> exists|i: int|
            0 <= i < slabs.len() && (#[trigger] slabs[i]).id == id && slabs[i].free_space == free
                && chosen(slabs[i]),
    decreases slabs.len(),
{
    if slabs.len() > 0 {
        let p = slabs.drop_last();
        let n = slabs.len() - 1;
        law_freeness_of(p, chosen, free, id);
        if freeness_of(p, chosen).contains((free, id)) {
            let i = choose|i: int|
                0 <= i < p.len() && (#[trigger] p[i]).id == id && p[i].free_space == free && chosen(
                    p[i],
                );
            assert(slabs[i] == p[i]);
        }
        if exists|i: int|
            0 <= i < slabs.len() && (#[trigger] slabs[i]).id == id && slabs[i].free_space == free
                && chosen(slabs[i]) {
            let i = choose|i: int|
                0 <= i < slabs.len() && (#[trigger] slabs[i]).id == id && slabs[i].free_space
                    == free && chosen(slabs[i]);
            if i < n {
                assert(p[i] == slabs[i]);
            }
        }
        assert(slabs[n] == slabs.last());
    }
}

/// A slab that is not being emptied counts in the bucket with the least size that is large enough
/// for it, and in no other.
pub proof fn law_bucket_of_slab(report: SlabBucketsReport, s: SlabSummary, k: int, other: int)
    requires
        buckets_ascend(report.buckets@),
        0 <= k < report.buckets@.len(),
        0 <= other < report.buckets@.len(),
        report.of_bucket(k)(s),
    ensures
        s.kind != SlabKind::Evacuating,
        s.max_size <= report.buckets@[k].max_size,
        other < k ==> report.buckets@[other].max_size < s.max_size,
        report.of_bucket(other)(s) ==> other == k,
{
    if other < k {
        assert(report.buckets@[other].max_size <= report.buckets@[k - 1].max_size);
    } else if k < other {
        assert(report.buckets@[k].max_size <= report.buckets@[other - 1].max_size);
    }
}

/// A bar is as long as the bucket has slabs of the most that one has. Nothing of it is filled if
/// nothing is free, all of it if all is free, and never more.
pub proof fn law_graph(stats: AllocationBucketStatistics, factor: int)
    requires
        stats.nslabs > 0,
        stats.slab_size > 1,
        stats.free_space <= stats.slab_size * stats.nslabs,
    ensures
        ({
            let (slots, filled) = stats.spec_graph(factor);
            &&& 0 <= filled <= slots
            &&& stats.free_space == 0 ==> filled == 0
            &&& stats.free_space == stats.slab_size * stats.nslabs ==> filled == slots
        }),
{
    let f = if factor < REPORT_HISTOGRAM_WIDTH {
        REPORT_HISTOGRAM_WIDTH as int
    } else {
        factor
    };
    let slots = stats.nslabs * REPORT_HISTOGRAM_WIDTH / f;
    let total = stats.slab_size * stats.nslabs;
    let free = stats.free_space as int;
    assert(total >= 2) by (nonlinear_arith)
        requires
            total == stats.slab_size * stats.nslabs,
            stats.slab_size > 1,
            stats.nslabs > 0,
    ;
    assert(slots >= 0) by (nonlinear_arith)
        requires
            f > 0,
            slots == stats.nslabs * REPORT_HISTOGRAM_WIDTH / f,
    ;
    assert(0 <= free * slots <= total * slots) by (nonlinear_arith)
        requires
            0 <= free <= total,
            slots >= 0,
    ;
    let h = total / 2 - 1;
    assert(0 <= h < total);
    assert(0 <= (free * slots + h) / total <= slots) by (nonlinear_arith)
        requires
            0 <= free * slots <= total * slots,
            0 <= h < total,
            slots >= 0,
    ;
    if free == 0 {
        assert((0 * slots + h) / total == 0) by (nonlinear_arith)
            requires
                0 <= h < total,
        ;
    }
    if free == total {
        assert((total * slots + h) / total == slots) by (nonlinear_arith)
            requires
                0 <= h < total,
                slots >= 0,
        ;
    }
}

} // verus!
