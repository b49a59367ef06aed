//! How many bytes were last accessed when.
use crate::base_types::Atime;
use crate::binary_index_tree::{
    lemma_suffix_less, lemma_suffix_nonneg, lemma_suffix_padded, lemma_suffix_update, suffix,
    value_at, BinaryIndexTree,
};
use crate::index::IndexValue;
use vstd::prelude::*;

verus! {

/// How many more nodes the binary index tree gets each time it grows.
pub const ATIME_BIT_EXPANSION_NODES: usize = 10;

/// The number of bytes in the cache, by the atime of their insertion or last access. What has
/// been evicted is remembered as ghost data: the buckets before `first_live`. `first_ghost` is
/// the first bucket.
#[derive(Debug)]
pub struct AtimeHistogramPhys {
    pub histogram: Vec<u64>,
    pub first_ghost: Atime,
    pub first_live: Atime,
}

impl AtimeHistogramPhys {
    /// The bytes of an atime.
    pub open spec fn at(&self, t: int) -> int {
        value_at(self.histogram@, t - self.first_ghost.0)
    }

    /// The bytes from an atime on.
    pub open spec fn from(&self, t: int) -> int {
        suffix(self.histogram@, t - self.first_ghost.0)
    }

    /// The atime behind the last bucket.
    pub open spec fn end(&self) -> int {
        self.first_ghost.0 + self.histogram@.len()
    }

    /// The sizes can be added up, and the buckets numbered.
    pub open spec fn wf(&self) -> bool {
        &&& suffix(self.histogram@, 0) <= u64::MAX
        &&& self.end() <= u32::MAX
    }

    pub fn new(first_ghost: Atime, first_live: Atime) -> (r: AtimeHistogramPhys)
        ensures
            r.wf(),
            r.histogram@.len() == 0,
            r.first_ghost == first_ghost,
            r.first_live == first_live,
    {
        AtimeHistogramPhys { histogram: Vec::new(), first_ghost, first_live }
    }

    pub fn first_ghost(&self) -> (r: Atime)
        ensures
            r == self.first_ghost,
    {
        self.first_ghost
    }

    pub fn first_live(&self) -> (r: Atime)
        ensures
            r == self.first_live,
    {
        self.first_live
    }

    pub fn copy(&self) -> (r: AtimeHistogramPhys)
        ensures
            r.histogram@ == self.histogram@,
            r.first_ghost == self.first_ghost,
            r.first_live == self.first_live,
    {
        let mut histogram: Vec<u64> = Vec::new();
        let mut i: usize = 0;
        while i < self.histogram.len()
            invariant
                i <= self.histogram@.len(),
                histogram@ == self.histogram@.take(i as int),
            decreases self.histogram@.len() - i,
        {
            histogram.push(self.histogram[i]);
            i += 1;
            assert(histogram@ =~= self.histogram@.take(i as int));
        }
        assert(self.histogram@.take(i as int) =~= self.histogram@);
        AtimeHistogramPhys {
            histogram,
            first_ghost: self.first_ghost,
            first_live: self.first_live,
        }
    }

    /// Empties the histogram, and returns what it held. The first atimes stay.
    pub fn take(&mut self) -> (r: Self)
        ensures
            r == *old(self),
            final(self).wf(),
            final(self).histogram@.len() == 0,
            final(self).first_ghost == old(self).first_ghost,
            final(self).first_live == old(self).first_live,
    {
        let mut r = AtimeHistogramPhys::new(self.first_ghost, self.first_live);
        std::mem::swap(self, &mut r);
        r
    }

    /// From `start` on, the first atime before which there are `target` bytes; the end, if there
    /// are not so many.
    pub open spec fn reaches(&self, start: int, target: int, r: int) -> bool {
        if target == 0 {
            r == start
        } else {
            &&& start <= r
            &&& r <= self.end() || r == start
            &&& forall|e: int|
                start <= e < r ==> self.from(start) - #[trigger] self.from(e) < target
            &&& r >= self.end() || self.from(start) - self.from(r) >= target
        }
    }

    /// The first atime such that the buckets from `start` to there hold at least `target`
    /// bytes, or the atime behind the last bucket if they hold less.
    pub fn atime_for_target(&self, start: Atime, target: u64) -> (r: Atime)
        requires
            self.wf(),
            self.first_ghost.0 <= start.0 <= self.end(),
        ensures
            self.reaches(start.0 as int, target as int, r.0 as int),
            start.0 <= r.0 <= self.end(),
    {
        if target == 0 {
            return start;
        }
        let ghost h = self.histogram@;
        let ghost base = self.first_ghost.0 as int;
        let ghost s0 = start.0 - base;
        let mut end = start;
        let mut remaining = target;
        let mut i: usize = start - self.first_ghost;
        let mut reached = false;
        while i < self.histogram.len() && !reached
            invariant
                self.wf(),
                h == self.histogram@,
                base == self.first_ghost.0,
                s0 == start.0 - base,
                0 <= s0 <= i <= h.len(),
                end.0 == base + i,
                target > 0,
                !reached ==> remaining + suffix(h, s0) - suffix(h, i as int) == target
                    && remaining > 0,
                forall|e: int|
                    start.0 <= e < end.0 ==> self.from(start.0 as int) - #[trigger] self.from(e)
                        < target,
                reached ==> self.from(start.0 as int) - self.from(end.0 as int) >= target,
            decreases h.len() - i,
        {
            let bytes: u64 = self.histogram[i];
            let ghost end0 = end;
            proof {
                assert(self.from(start.0 as int) - self.from(end0.0 as int) < target);
            }
            end = end.next();
            i += 1;
            if remaining <= bytes {
                reached = true;
            } else {
                remaining = remaining - bytes;
            }
        }
        end
    }

    pub fn insert(&mut self, value: IndexValue)
        requires
            old(self).wf(),
            old(self).first_ghost.0 <= value.atime.0 < u32::MAX,
            suffix(old(self).histogram@, 0) + value.spec_size() <= u64::MAX,
        ensures
            final(self).wf(),
            final(self).first_ghost == old(self).first_ghost,
            final(self).first_live == old(self).first_live,
            final(self).end() == if value.atime.0 < old(self).end() {
                old(self).end()
            } else {
                value.atime.0 + 1
            },
            forall|t: int|
                #[trigger] final(self).at(t) == old(self).at(t) + if t == value.atime.0 {
                    value.spec_size()
                } else {
                    0
                },
            suffix(final(self).histogram@, 0) == suffix(old(self).histogram@, 0)
                + value.spec_size(),
    {
        let ghost h0 = self.histogram@;
        let index: usize = value.atime() - self.first_ghost;
        while self.histogram.len() <= index
            invariant
                self.histogram@.len() >= h0.len(),
                self.histogram@.len() <= index + 1 || self.histogram@.len() == h0.len(),
                forall|k: int|
                    0 <= k < self.histogram@.len() ==> #[trigger] self.histogram@[k] == value_at(
                        h0,
                        k,
                    ),
                self.first_ghost == old(self).first_ghost,
                self.first_live == old(self).first_live,
                index < usize::MAX,
            decreases index + 1 - self.histogram@.len(),
        {
            self.histogram.push(0);
        }
        let ghost h1 = self.histogram@;
        proof {
            lemma_suffix_padded(h0, h1, 0);
            lemma_suffix_less(h1, 0, index as int);
            lemma_suffix_nonneg(h1, index + 1);
        }
        let bytes: u64 = self.histogram[index] + value.size() as u64;
        self.histogram.set(index, bytes);
        proof {
            lemma_suffix_update(h1, index as int, bytes, 0);
            assert forall|t: int|
                #[trigger] self.at(t) == old(self).at(t) + if t == value.atime.0 {
                    value.spec_size()
                } else {
                    0
                } by {}
        }
    }

    pub fn remove(&mut self, value: IndexValue)
        requires
            old(self).wf(),
            old(self).first_ghost.0 <= value.atime.0 < old(self).end(),
            value.spec_size() <= old(self).at(value.atime.0 as int),
        ensures
            final(self).wf(),
            final(self).first_ghost == old(self).first_ghost,
            final(self).first_live == old(self).first_live,
            final(self).end() == old(self).end(),
            forall|t: int|
                #[trigger] final(self).at(t) == old(self).at(t) - if t == value.atime.0 {
                    value.spec_size()
                } else {
                    0
                },
            suffix(final(self).histogram@, 0) == suffix(old(self).histogram@, 0)
                - value.spec_size(),
    {
        let ghost h0 = self.histogram@;
        let index: usize = value.atime() - self.first_ghost;
        let bytes: u64 = self.histogram[index] - value.size() as u64;
        self.histogram.set(index, bytes);
        proof {
            lemma_suffix_update(h0, index as int, bytes, 0);
        }
    }

    pub fn clear(&mut self)
        requires
            old(self).wf(),
        ensures
            final(self).wf(),
            final(self).histogram@.len() == 0,
            final(self).first_ghost == old(self).first_ghost,
            final(self).first_live == old(self).first_live,
    {
        self.histogram.clear();
    }

    pub fn is_empty(&self) -> (r: bool)
        ensures
            r <==> forall|t: int| #[trigger] self.at(t) == 0,
    {
        let mut i: usize = 0;
        while i < self.histogram.len()
            invariant
                i <= self.histogram@.len(),
                forall|k: int| 0 <= k < i ==> #[trigger] self.histogram@[k] == 0,
            decreases self.histogram@.len() - i,
        {
            if self.histogram[i] != 0 {
                assert(self.at(i + self.first_ghost.0) != 0);
                return false;
            }
            i += 1;
        }
        true
    }

    /// Whether the two histograms are the same.
    pub fn same(&self, other: &AtimeHistogramPhys) -> (r: bool)
        ensures
            r <==> {
                &&& self.first_ghost == other.first_ghost
                &&& self.first_live == other.first_live
                &&& self.histogram@ == other.histogram@
            },
    {
        if self.first_ghost.0 != other.first_ghost.0 || self.first_live.0 != other.first_live.0
            || self.histogram.len() != other.histogram.len() {
            return false;
        }
        let mut i: usize = 0;
        while i < self.histogram.len()
            invariant
                i <= self.histogram@.len(),
                self.histogram@.len() == other.histogram@.len(),
                forall|k: int| 0 <= k < i ==> self.histogram@[k] == other.histogram@[k],
            decreases self.histogram@.len() - i,
        {
            if self.histogram[i] != other.histogram[i] {
                return false;
            }
            i += 1;
        }
        assert(self.histogram@ =~= other.histogram@);
        true
    }

    /// Takes the bytes of another histogram out, which covers a part of the atimes of this one.
    pub fn subtract(&mut self, rhs: &Self)
        requires
            old(self).wf(),
            old(self).first_ghost.0 <= rhs.first_ghost.0,
            rhs.end() <= old(self).end(),
            forall|t: int| #[trigger] rhs.at(t) <= old(self).at(t),
        ensures
            final(self).wf(),
            final(self).first_ghost == old(self).first_ghost,
            final(self).first_live == old(self).first_live,
            final(self).end() == old(self).end(),
            forall|t: int| #[trigger] final(self).at(t) == old(self).at(t) - rhs.at(t),
    {
        let ghost h0 = self.histogram@;
        let base: usize = rhs.first_ghost - self.first_ghost;
        let mut i: usize = 0;
        while i < rhs.histogram.len()
            invariant
                i <= rhs.histogram@.len(),
                self.first_ghost == old(self).first_ghost,
                self.first_live == old(self).first_live,
                base == rhs.first_ghost.0 - self.first_ghost.0,
                h0 == old(self).histogram@,
                self.histogram@.len() == h0.len(),
                base + rhs.histogram@.len() <= h0.len(),
                suffix(self.histogram@, 0) <= u64::MAX,
                forall|t: int| #[trigger] rhs.at(t) <= old(self).at(t),
                forall|k: int|
                    0 <= k < h0.len() ==> #[trigger] self.histogram@[k] == h0[k] - if base <= k
                        < base + i {
                        rhs.histogram@[k - base] as int
                    } else {
                        0
                    },
            decreases rhs.histogram@.len() - i,
        {
            let ghost h1 = self.histogram@;
            assert(self.histogram.len() <= usize::MAX);
            let at: usize = base + i;
            proof {
                let t = rhs.first_ghost.0 + i;
                assert(rhs.at(t) <= old(self).at(t));
            }
            let bytes: u64 = self.histogram[at] - rhs.histogram[i];
            self.histogram.set(at, bytes);
            proof {
                lemma_suffix_update(h1, at as int, bytes, 0);
            }
            i += 1;
        }
        proof {
            assert forall|t: int| #[trigger] self.at(t) == old(self).at(t) - rhs.at(t) by {}
        }
    }

    /// Adds the bytes of another histogram, whose atimes may start earlier or end later.
    pub fn add_all(&mut self, rhs: &Self)
        requires
            old(self).wf(),
            rhs.wf(),
            suffix(old(self).histogram@, 0) + suffix(rhs.histogram@, 0) <= u64::MAX,
        ensures
            final(self).wf(),
            final(self).first_live == old(self).first_live,
            final(self).first_ghost.0 == if rhs.first_ghost.0 < old(self).first_ghost.0 {
                rhs.first_ghost.0
            } else {
                old(self).first_ghost.0
            },
            final(self).end() == if rhs.end() > old(self).end() {
                rhs.end()
            } else {
                old(self).end()
            },
            forall|t: int| #[trigger] final(self).at(t) == old(self).at(t) + rhs.at(t),
            suffix(final(self).histogram@, 0) == suffix(old(self).histogram@, 0) + suffix(
                rhs.histogram@,
                0,
            ),
    {
        let ghost h0 = self.histogram@;
        let ghost r = rhs.histogram@;
        let mut histogram: Vec<u64> = Vec::new();
        let prepend: usize = match self.first_ghost.checked_sub(rhs.first_ghost) {
            Some(n) => n,
            None => 0,
        };
        let first: Atime = if rhs.first_ghost.0 < self.first_ghost.0 {
            rhs.first_ghost
        } else {
            self.first_ghost
        };
        let len_self: usize = prepend + self.histogram.len();
        let base: usize = rhs.first_ghost - first;
        let len_rhs: usize = base + rhs.histogram.len();
        let len: usize = if len_rhs > len_self {
            len_rhs
        } else {
            len_self
        };
        let mut i: usize = 0;
        while i < len
            invariant
                i <= len,
                histogram@.len() == i,
                h0 == self.histogram@,
                prepend + h0.len() <= usize::MAX,
                forall|k: int| 0 <= k < i ==> #[trigger] histogram@[k] == value_at(h0, k - prepend),
            decreases len - i,
        {
            if i >= prepend && i - prepend < self.histogram.len() {
                histogram.push(self.histogram[i - prepend]);
            } else {
                histogram.push(0);
            }
            i += 1;
        }
        proof {
            lemma_suffix_shifted(h0, histogram@, prepend as int);
        }
        let ghost h1 = histogram@;
        let mut j: usize = 0;
        while j < rhs.histogram.len()
            invariant
                j <= r.len(),
                r == rhs.histogram@,
                h1.len() == histogram@.len() == len,
                base + r.len() <= len,
                suffix(h1, 0) + suffix(r, 0) <= u64::MAX,
                suffix(histogram@, 0) == suffix(h1, 0) + suffix(r, 0) - suffix(r, j as int),
                forall|k: int|
                    0 <= k < len ==> #[trigger] histogram@[k] == h1[k] + if base <= k < base + j {
                        r[k - base] as int
                    } else {
                        0
                    },
            decreases r.len() - j,
        {
            let at: usize = base + j;
            let ghost h2 = histogram@;
            proof {
                lemma_suffix_less(h2, 0, at as int);
                lemma_suffix_nonneg(h2, at + 1);
                lemma_suffix_nonneg(r, j + 1);
            }
            let bytes: u64 = histogram[at] + rhs.histogram[j];
            histogram.set(at, bytes);
            proof {
                lemma_suffix_update(h2, at as int, bytes, 0);
            }
            j += 1;
        }
        self.histogram = histogram;
        self.first_ghost = first;
        proof {
            assert forall|t: int| #[trigger] self.at(t) == old(self).at(t) + rhs.at(t) by {}
        }
    }
}

/// Zeros before and behind the values do not count.
proof fn lemma_suffix_shifted(a: Seq<u64>, b: Seq<u64>, n: int)
    requires
        0 <= n,
        a.len() + n <= b.len(),
        forall|k: int| 0 <= k < b.len() ==> #[trigger] b[k] == value_at(a, k - n),
    ensures
        suffix(b, 0) == suffix(a, 0),
{
    lemma_suffix_tail(a, b, n, 0);
    lemma_suffix_zeros(b, 0, n);
}

proof fn lemma_suffix_tail(a: Seq<u64>, b: Seq<u64>, n: int, i: int)
    requires
        0 <= n,
        0 <= i,
        a.len() + n <= b.len(),
        forall|k: int| 0 <= k < b.len() ==> #[trigger] b[k] == value_at(a, k - n),
    ensures
        suffix(b, i + n) == suffix(a, i),
    decreases b.len() - i,
{
    if i + n < b.len() {
        lemma_suffix_tail(a, b, n, i + 1);
    }
}

proof fn lemma_suffix_zeros(b: Seq<u64>, i: int, n: int)
    requires
        0 <= i <= n <= b.len(),
        forall|k: int| i <= k < n ==> #[trigger] b[k] == 0,
    ensures
        suffix(b, i) == suffix(b, n),
    decreases n - i,
{
    if i < n {
        lemma_suffix_zeros(b, i + 1, n);
    }
}

proof fn lemma_suffix_skip(s: Seq<u64>, n: int, i: int)
    requires
        0 <= n <= s.len(),
        0 <= i,
    ensures
        suffix(s.skip(n), i) == suffix(s, n + i),
    decreases s.len() - n - i,
{
    if n + i < s.len() {
        lemma_suffix_skip(s, n, i + 1);
    }
}

/// The histogram with a tree by which bytes from an atime on are counted quickly.
pub struct AtimeHistogram {
    pub phys: AtimeHistogramPhys,
    pub tree: BinaryIndexTree,
}

impl AtimeHistogram {
    pub open spec fn wf(&self) -> bool {
        &&& self.phys.wf()
        &&& self.tree.wf()
        &&& self.phys.histogram@.len() <= self.tree@.len()
        &&& forall|i: int|
            0 <= i < self.tree@.len() ==> #[trigger] self.tree@[i] == value_at(
                self.phys.histogram@,
                i,
            )
    }

    pub fn new(phys: AtimeHistogramPhys) -> (r: AtimeHistogram)
        requires
            phys.wf(),
            phys.histogram@.len() + ATIME_BIT_EXPANSION_NODES <= usize::MAX,
        ensures
            r.wf(),
            r.phys == phys,
    {
        let tree = BinaryIndexTree::new(&phys.histogram, ATIME_BIT_EXPANSION_NODES);
        AtimeHistogram { phys, tree }
    }

    pub fn to_phys(&self) -> (r: AtimeHistogramPhys)
        ensures
            r.histogram@ == self.phys.histogram@,
            r.first_ghost == self.phys.first_ghost,
            r.first_live == self.phys.first_live,
    {
        self.phys.copy()
    }

    pub fn first_ghost(&self) -> (r: Atime)
        ensures
            r == self.phys.first_ghost,
    {
        self.phys.first_ghost
    }

    pub fn first_live(&self) -> (r: Atime)
        ensures
            r == self.phys.first_live,
    {
        self.phys.first_live
    }

    /// Moves the start to a later atime, up to the end of the histogram, and forgets what is
    /// older. An earlier atime is ignored. The start of what is live stays where it is.
    pub fn reset_first(&mut self, new_first: Atime)
        requires
            old(self).wf(),
            new_first.0 <= old(self).phys.end() || new_first.0 <= old(self).phys.first_ghost.0,
            old(self).phys.histogram@.len() + ATIME_BIT_EXPANSION_NODES <= usize::MAX,
        ensures
            final(self).wf(),
            final(self).phys.first_live == old(self).phys.first_live,
            if new_first.0 <= old(self).phys.first_ghost.0 {
                *final(self) == *old(self)
            } else {
                &&& final(self).phys.first_ghost == new_first
                &&& final(self).phys.end() == old(self).phys.end()
                &&& forall|t: int|
                    t >= new_first.0 ==> #[trigger] final(self).phys.at(t) == old(self).phys.at(t)
                &&& forall|t: int| t < new_first.0 ==> #[trigger] final(self).phys.at(t) == 0
            },
    {
        if new_first.0 <= self.phys.first_ghost.0 {
            return;
        }
        let ghost h0 = self.phys.histogram@;
        let delta: usize = new_first - self.phys.first_ghost;
        let mut histogram: Vec<u64> = Vec::new();
        let mut i: usize = delta;
        while i < self.phys.histogram.len()
            invariant
                delta <= i <= h0.len(),
                h0 == self.phys.histogram@,
                histogram@ == h0.subrange(delta as int, i as int),
            decreases h0.len() - i,
        {
            histogram.push(self.phys.histogram[i]);
            i += 1;
            assert(histogram@ =~= h0.subrange(delta as int, i as int));
        }
        proof {
            assert(histogram@ =~= h0.skip(delta as int));
            lemma_suffix_skip(h0, delta as int, 0);
            lemma_suffix_less(h0, 0, delta as int);
        }
        self.phys.histogram = histogram;
        self.phys.first_ghost = new_first;
        self.tree = BinaryIndexTree::new(&self.phys.histogram, ATIME_BIT_EXPANSION_NODES);
        proof {
            assert forall|t: int| t >= new_first.0 implies #[trigger] self.phys.at(t) == old(
                self).phys.at(t) by {}
        }
    }

    /// Moves the start of what is live to a later atime. An earlier atime is ignored.
    pub fn reset_first_live(&mut self, new_first: Atime)
        requires
            old(self).wf(),
        ensures
            final(self).wf(),
            final(self).tree == old(self).tree,
            final(self).phys == (AtimeHistogramPhys {
                first_live: if new_first.0 <= old(self).phys.first_live.0 {
                    old(self).phys.first_live
                } else {
                    new_first
                },
                ..old(self).phys
            }),
            final(self).phys.first_live.0 >= new_first.0,
            final(self).phys.first_live.0 >= old(self).phys.first_live.0,
    {
        if new_first.0 <= self.phys.first_live.0 {
            return;
        }
        self.phys.first_live = new_first;
    }

    /// The atime up to which live data is to be evicted to gain `eviction_size` bytes.
    pub fn atime_for_eviction_target(&self, eviction_size: u64) -> (r: Atime)
        requires
            self.wf(),
            self.phys.first_ghost.0 <= self.phys.first_live.0 <= self.phys.end(),
        ensures
            self.phys.reaches(
                self.phys.first_live.0 as int,
                eviction_size as int,
                r.0 as int,
            ),
            self.phys.first_live.0 <= r.0 <= self.phys.end(),
    {
        self.phys.atime_for_target(self.phys.first_live, eviction_size)
    }

    /// The atime up to which ghost data is to be forgotten, so that there are `ghost_reduction`
    /// bytes less. No live data is forgotten.
    pub fn atime_for_ghost_target(&self, ghost_reduction: u64) -> (r: Atime)
        requires
            self.wf(),
        ensures
            exists|t: int| #[trigger]
                self.phys.reaches(
                    self.phys.first_ghost.0 as int,
                    ghost_reduction as int,
                    t,
                ) && r.0 == if t < self.phys.first_live.0 {
                    t
                } else {
                    self.phys.first_live.0 as int
                },
    {
        let atime = self.phys.atime_for_target(self.phys.first_ghost, ghost_reduction);
        if atime.0 < self.phys.first_live.0 {
            atime
        } else {
            self.phys.first_live
        }
    }

    pub fn insert(&mut self, value: IndexValue)
        requires
            old(self).wf(),
            old(self).phys.first_ghost.0 <= value.atime.0 < u32::MAX,
            suffix(old(self).phys.histogram@, 0) + value.spec_size() <= u64::MAX,
            value.atime.0 - old(self).phys.first_ghost.0 + 1 + ATIME_BIT_EXPANSION_NODES
                <= usize::MAX,
        ensures
            final(self).wf(),
            final(self).phys.first_ghost == old(self).phys.first_ghost,
            final(self).phys.first_live == old(self).phys.first_live,
            final(self).phys.end() == if value.atime.0 < old(self).phys.end() {
                old(self).phys.end()
            } else {
                value.atime.0 + 1
            },
            forall|t: int|
                #[trigger] final(self).phys.at(t) == old(self).phys.at(t) + if t
                    == value.atime.0 {
                    value.spec_size()
                } else {
                    0
                },
            suffix(final(self).phys.histogram@, 0) == suffix(old(self).phys.histogram@, 0)
                + value.spec_size(),
    {
        let ghost a = *self;
        self.phys.insert(value);
        let index: usize = value.atime() - self.phys.first_ghost;
        if index >= self.tree.len() {
            self.tree = BinaryIndexTree::new(&self.phys.histogram, ATIME_BIT_EXPANSION_NODES);
        } else {
            proof {
                lemma_suffix_padded(a.phys.histogram@, a.tree@, 0);
            }
            self.tree.insert_at(index, value.size() as u64);
            proof {
                assert forall|i: int| 0 <= i < self.tree@.len() implies #[trigger] self.tree@[i]
                    == value_at(self.phys.histogram@, i) by {
                    let t = i + self.phys.first_ghost.0;
                    assert(self.phys.at(t) == a.phys.at(t) + if t == value.atime.0 {
                        value.spec_size()
                    } else {
                        0
                    });
                    assert(a.tree@[i] == value_at(a.phys.histogram@, i));
                    lemma_suffix_less(a.tree@, 0, i);
                    lemma_suffix_nonneg(a.tree@, i + 1);
                }
            }
        }
    }

    pub fn remove(&mut self, value: IndexValue)
        requires
            old(self).wf(),
            old(self).phys.first_ghost.0 <= value.atime.0 < old(self).phys.end(),
            value.spec_size() <= old(self).phys.at(value.atime.0 as int),
        ensures
            final(self).wf(),
            final(self).phys.first_ghost == old(self).phys.first_ghost,
            final(self).phys.first_live == old(self).phys.first_live,
            final(self).phys.end() == old(self).phys.end(),
            forall|t: int|
                #[trigger] final(self).phys.at(t) == old(self).phys.at(t) - if t
                    == value.atime.0 {
                    value.spec_size()
                } else {
                    0
                },
            suffix(final(self).phys.histogram@, 0) == suffix(old(self).phys.histogram@, 0)
                - value.spec_size(),
    {
        let ghost a = *self;
        self.phys.remove(value);
        let index: usize = value.atime() - self.phys.first_ghost;
        proof {
            assert(a.tree@[index as int] == value_at(a.phys.histogram@, index as int));
        }
        self.tree.remove_at(index, value.size() as u64);
        proof {
            assert forall|i: int| 0 <= i < self.tree@.len() implies #[trigger] self.tree@[i]
                == value_at(self.phys.histogram@, i) by {
                let t = i + self.phys.first_ghost.0;
                assert(self.phys.at(t) == a.phys.at(t) - if t == value.atime.0 {
                    value.spec_size()
                } else {
                    0
                });
                assert(a.tree@[i] == value_at(a.phys.histogram@, i));
            }
        }
    }

    /// The live bytes.
    pub fn sum_live(&self) -> (r: u64)
        requires
            self.wf(),
            self.phys.first_ghost.0 <= self.phys.first_live.0,
        ensures
            r == self.phys.from(self.phys.first_live.0 as int),
    {
        self.size_at(self.phys.first_live)
    }

    /// The ghost bytes.
    pub fn sum_ghost(&self) -> (r: u64)
        requires
            self.wf(),
            self.phys.first_ghost.0 <= self.phys.first_live.0,
        ensures
            r == self.phys.from(self.phys.first_ghost.0 as int) - self.phys.from(
                self.phys.first_live.0 as int,
            ),
    {
        proof {
            lemma_suffix_less(
                self.phys.histogram@,
                0,
                self.phys.first_live.0 - self.phys.first_ghost.0,
            );
        }
        self.size_at(self.phys.first_ghost) - self.size_at(self.phys.first_live)
    }

    /// The bytes from an atime on: the least size of a cache that would hold what was accessed
    /// then.
    pub fn size_at(&self, atime: Atime) -> (r: u64)
        requires
            self.wf(),
            self.phys.first_ghost.0 <= atime.0,
        ensures
            r == self.phys.from(atime.0 as int),
    {
        let index: usize = atime - self.phys.first_ghost;
        proof {
            lemma_suffix_padded(self.phys.histogram@, self.tree@, index as int);
        }
        self.tree.suffix_sum(index)
    }
}

/// What is evicted and what stays add up: the live bytes are those before an atime and those
/// from it on.
pub proof fn law_eviction_gains(h: AtimeHistogramPhys, target: int, r: int)
    requires
        h.wf(),
        h.first_ghost.0 <= h.first_live.0 <= h.end(),
        0 < target <= h.from(h.first_live.0 as int),
        h.reaches(h.first_live.0 as int, target, r),
    ensures
        h.from(r) <= h.from(h.first_live.0 as int) - target,
{
    if r >= h.end() {
        assert(h.from(r) == 0);
    }
}

/// What was accessed at a time or later is what was accessed then, and what was accessed later.
/// Behind the end there is nothing, and nothing is counted before the first ghost.
pub proof fn law_from_counts(h: AtimeHistogramPhys, t: int)
    ensures
        t >= h.first_ghost.0 ==> h.from(t) == h.at(t) + h.from(t + 1),
        t >= h.first_ghost.0 + h.histogram@.len() ==> h.from(t) == 0 && h.at(t) == 0,
        t < h.first_ghost.0 ==> h.at(t) == 0,
        h.first_ghost.0 <= t < h.first_ghost.0 + h.histogram@.len() ==> h.at(t)
            == h.histogram@[t - h.first_ghost.0],
        h.end() == h.first_ghost.0 + h.histogram@.len(),
{
}

} // verus!
