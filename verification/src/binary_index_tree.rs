//! Sums over the end of a list of counters that change one at a time.
use vstd::prelude::*;

verus! {

/// The sum of the values from index `i` on.
pub open spec fn suffix(s: Seq<u64>, i: int) -> int
    decreases s.len() - i,
{
    if i < 0 || i >= s.len() {
        0
    } else {
        s[i] + suffix(s, i + 1)
    }
}

/// The value at `i`; there is nothing behind the end.
pub open spec fn value_at(s: Seq<u64>, i: int) -> int {
    if 0 <= i < s.len() {
        s[i] as int
    } else {
        0
    }
}

/// Each value of `b` is the sum of two neighbours of `a`.
pub open spec fn pairs(a: Seq<u64>, b: Seq<u64>) -> bool {
    &&& b.len() == (a.len() + 1) / 2
    &&& forall|i: int|
        0 <= i < b.len() ==> #[trigger] b[i] == value_at(a, 2 * i) + value_at(a, 2 * i + 1)
}

pub proof fn lemma_suffix_nonneg(s: Seq<u64>, i: int)
    ensures
        0 <= suffix(s, i),
    decreases s.len() - i,
{
    if 0 <= i < s.len() {
        lemma_suffix_nonneg(s, i + 1);
    }
}

/// A later sum is no larger.
pub proof fn lemma_suffix_less(s: Seq<u64>, i: int, j: int)
    requires
        0 <= i <= j,
    ensures
        0 <= suffix(s, j) <= suffix(s, i),
    decreases j - i,
{
    lemma_suffix_nonneg(s, j);
    if i < j {
        lemma_suffix_less(s, i + 1, j);
        if i >= s.len() {
            assert(suffix(s, j) == 0);
        }
    }
}

/// A sum is the sum of two neighbours and a later sum.
proof fn lemma_two(s: Seq<u64>, i: int)
    requires
        0 <= i,
    ensures
        suffix(s, i) == value_at(s, i) + value_at(s, i + 1) + suffix(s, i + 2),
{
    reveal_with_fuel(suffix, 3);
}

/// Sums over the pairs are sums over the values.
proof fn lemma_pairs_suffix(a: Seq<u64>, b: Seq<u64>, i: int)
    requires
        pairs(a, b),
        0 <= i,
    ensures
        suffix(b, i) == suffix(a, 2 * i),
    decreases b.len() - i,
{
    lemma_two(a, 2 * i);
    if i < b.len() {
        lemma_pairs_suffix(a, b, i + 1);
    }
}

/// A value that grows makes the sums that it is in grow.
pub proof fn lemma_suffix_update(s: Seq<u64>, index: int, v: u64, i: int)
    requires
        0 <= index < s.len(),
        0 <= i,
    ensures
        suffix(s.update(index, v), i) == suffix(s, i) + if i <= index {
            v - s[index]
        } else {
            0
        },
    decreases s.len() - i,
{
    if i < s.len() {
        lemma_suffix_update(s, index, v, i + 1);
    }
}

/// Zeros at the end do not count.
pub proof fn lemma_suffix_padded(a: Seq<u64>, b: Seq<u64>, i: int)
    requires
        0 <= i,
        a.len() <= b.len(),
        forall|k: int| 0 <= k < b.len() ==> #[trigger] b[k] == value_at(a, k),
    ensures
        suffix(b, i) == suffix(a, i),
    decreases b.len() - i,
{
    if i < b.len() {
        lemma_suffix_padded(a, b, i + 1);
    }
}

/// A list of counters with the sums of neighbours, of neighbours of those, and so on.
pub struct BinaryIndexTree {
    pub levels: Vec<Vec<u64>>,
}

impl View for BinaryIndexTree {
    type V = Seq<u64>;

    open spec fn view(&self) -> Seq<u64> {
        self.levels@[0]@
    }
}

impl BinaryIndexTree {
    pub open spec fn wf(&self) -> bool {
        &&& self.levels@.len() > 0
        &&& forall|k: int|
            0 <= k < self.levels@.len() - 1 ==> #[trigger] pairs(
                self.levels@[k]@,
                self.levels@[k + 1]@,
            )
        &&& self.levels@.last()@.len() <= 1
        &&& suffix(self@, 0) <= u64::MAX
    }

    /// Every level adds up to the same.
    proof fn lemma_level_total(&self, k: int)
        requires
            self.wf(),
            0 <= k < self.levels@.len(),
        ensures
            suffix(self.levels@[k]@, 0) == suffix(self@, 0),
        decreases k,
    {
        if k > 0 {
            self.lemma_level_total(k - 1);
            assert(pairs(self.levels@[k - 1]@, self.levels@[(k - 1) + 1]@));
            lemma_pairs_suffix(self.levels@[k - 1]@, self.levels@[k]@, 0);
        }
    }

    /// The counters, with room for `extra` more.
    pub fn new(values: &Vec<u64>, extra: usize) -> (r: BinaryIndexTree)
        requires
            values@.len() + extra <= usize::MAX,
            suffix(values@, 0) <= u64::MAX,
        ensures
            r.wf(),
            r@.len() == values@.len() + extra,
            forall|i: int| 0 <= i < r@.len() ==> #[trigger] r@[i] == value_at(values@, i),
    {
        let mut first: Vec<u64> = Vec::new();
        let n: usize = values.len() + extra;
        let mut i: usize = 0;
        while i < n
            invariant
                i <= n,
                n == values@.len() + extra,
                first@.len() == i,
                forall|k: int| 0 <= k < i ==> #[trigger] first@[k] == value_at(values@, k),
            decreases n - i,
        {
            if i < values.len() {
                first.push(values[i]);
            } else {
                first.push(0);
            }
            i += 1;
        }
        proof {
            lemma_suffix_padded(values@, first@, 0);
        }
        let ghost total = suffix(first@, 0);
        let ghost view = first@;
        let mut levels: Vec<Vec<u64>> = Vec::new();
        levels.push(first);
        let mut len: usize = n;
        while len > 1
            invariant
                levels@.len() > 0,
                levels@[0]@ == view,
                len == levels@.last()@.len(),
                suffix(levels@.last()@, 0) == total,
                total <= u64::MAX,
                forall|k: int|
                    0 <= k < levels@.len() - 1 ==> #[trigger] pairs(
                        levels@[k]@,
                        levels@[k + 1]@,
                    ),
            decreases len,
        {
            let top: usize = levels.len() - 1;
            let mut next: Vec<u64> = Vec::new();
            let half: usize = len / 2 + len % 2;
            let mut j: usize = 0;
            while j < half
                invariant
                    j <= half,
                    half == (len + 1) / 2,
                    levels@.len() > 0,
                    top == levels@.len() - 1,
                    len == levels@[top as int]@.len(),
                    next@.len() == j,
                    total <= u64::MAX,
                    suffix(levels@[top as int]@, 0) == total,
                    forall|k: int|
                        0 <= k < j ==> #[trigger] next@[k] == value_at(
                            levels@[top as int]@,
                            2 * k,
                        ) + value_at(levels@[top as int]@, 2 * k + 1),
                decreases half - j,
            {
                proof {
                    let s = levels@[top as int]@;
                    lemma_two(s, 2 * j);
                    lemma_suffix_less(s, 0, 2 * j);
                    lemma_suffix_nonneg(s, 2 * j + 2);
                }
                let left: u64 = levels[top][2 * j];
                let right: u64 = if 2 * j + 1 < len {
                    levels[top][2 * j + 1]
                } else {
                    0
                };
                next.push(left + right);
                j += 1;
            }
            proof {
                lemma_pairs_suffix(levels@[top as int]@, next@, 0);
            }
            let ghost l0 = levels@;
            levels.push(next);
            proof {
                assert forall|k: int| 0 <= k < levels@.len() - 1 implies #[trigger] pairs(
                    levels@[k]@,
                    levels@[k + 1]@,
                ) by {
                    if k < l0.len() - 1 {
                        assert(pairs(l0[k]@, l0[k + 1]@));
                    }
                }
            }
            len = half;
        }
        BinaryIndexTree { levels }
    }

    pub fn len(&self) -> (r: usize)
        requires
            self.wf(),
        ensures
            r == self@.len(),
    {
        self.levels[0].len()
    }

    /// Counts `value` more at `index`.
    pub fn insert_at(&mut self, index: usize, value: u64)
        requires
            old(self).wf(),
            index < old(self)@.len(),
            suffix(old(self)@, 0) + value <= u64::MAX,
        ensures
            final(self).wf(),
            final(self)@ == old(self)@.update(
                index as int,
                (old(self)@[index as int] + value) as u64,
            ),
    {
        let ghost l0 = self.levels@;
        let ghost old_self = *self;
        let mut k: usize = 0;
        let mut i: usize = index;
        let ghost mut p: int = 0;
        while k < self.levels.len()
            invariant
                0 <= k <= self.levels@.len(),
                l0 == old_self.levels@,
                old_self.wf(),
                self.levels@.len() == l0.len(),
                index < l0[0]@.len(),
                suffix(l0[0]@, 0) + value <= u64::MAX,
                k < l0.len() ==> i < l0[k as int]@.len(),
                k == 0 ==> i == index,
                forall|j: int| k <= j < l0.len() ==> #[trigger] self.levels@[j] == l0[j],
                k > 0 ==> self.levels@[0]@ == l0[0]@.update(
                    index as int,
                    (l0[0]@[index as int] + value) as u64,
                ),
                k > 0 ==> {
                    &&& 0 <= p < l0[k - 1]@.len()
                    &&& p / 2 == i
                    &&& self.levels@[k - 1]@ == l0[k - 1]@.update(
                        p,
                        (l0[k - 1]@[p] + value) as u64,
                    )
                },
                forall|j: int|
                    0 <= j < k - 1 ==> #[trigger] pairs(self.levels@[j]@, self.levels@[j + 1]@),
                forall|j: int|
                    0 <= j < k ==> (#[trigger] self.levels@[j]@).len() == l0[j]@.len(),
            decreases self.levels@.len() - k,
        {
            let ghost l1 = self.levels@;
            proof {
                old_self.lemma_level_total(k as int);
                let s = l0[k as int]@;
                lemma_suffix_less(s, 0, i as int);
                lemma_suffix_nonneg(s, i + 1);
            }
            let sum: u64 = self.levels[k][i] + value;
            self.levels[k].set(i, sum);
            proof {
                let s = l0[k as int]@;
                assert(self.levels@[k as int]@ =~= s.update(i as int, (s[i as int] + value) as u64));
                assert forall|j: int| 0 <= j < k implies #[trigger] pairs(
                    self.levels@[j]@,
                    self.levels@[j + 1]@,
                ) by {
                    assert(self.levels@[j] == l1[j]);
                    if j < k - 1 {
                        assert(self.levels@[j + 1] == l1[j + 1]);
                        assert(pairs(l1[j]@, l1[j + 1]@));
                    } else {
                        let a0 = l0[k - 1]@;
                        let b0 = l0[k as int]@;
                        let a = self.levels@[k - 1]@;
                        let b = self.levels@[k as int]@;
                        assert(pairs(l0[k - 1]@, l0[(k - 1) + 1]@));
                        old_self.lemma_level_total(k - 1);
                        lemma_suffix_less(a0, 0, p);
                        lemma_suffix_nonneg(a0, p + 1);
                        assert forall|q: int| 0 <= q < b.len() implies #[trigger] b[q] == value_at(
                            a,
                            2 * q,
                        ) + value_at(a, 2 * q + 1) by {
                            assert(b0[q] == value_at(a0, 2 * q) + value_at(a0, 2 * q + 1));
                        }
                    }
                }
                if k + 1 < l0.len() {
                    assert(pairs(l0[k as int]@, l0[k + 1]@));
                }
                assert forall|j: int| 0 <= j < k + 1 implies (
                #[trigger] self.levels@[j]@).len() == l0[j]@.len() by {
                    if j < k {
                        assert(self.levels@[j] == l1[j]);
                    }
                }
            }
            proof {
                p = i as int;
            }
            i = i / 2;
            k += 1;
        }
        proof {
            lemma_suffix_update(
                l0[0]@,
                index as int,
                (l0[0]@[index as int] + value) as u64,
                0,
            );
            lemma_suffix_less(l0[0]@, 0, index as int);
            lemma_suffix_nonneg(l0[0]@, index + 1);
            assert forall|j: int| 0 <= j < self.levels@.len() - 1 implies #[trigger] pairs(
                self.levels@[j]@,
                self.levels@[j + 1]@,
            ) by {}
        }
    }

    /// Counts `value` less at `index`.
    pub fn remove_at(&mut self, index: usize, value: u64)
        requires
            old(self).wf(),
            index < old(self)@.len(),
            value <= old(self)@[index as int],
        ensures
            final(self).wf(),
            final(self)@ == old(self)@.update(
                index as int,
                (old(self)@[index as int] - value) as u64,
            ),
    {
        let ghost l0 = self.levels@;
        let ghost old_self = *self;
        let mut k: usize = 0;
        let mut i: usize = index;
        let ghost mut p: int = 0;
        while k < self.levels.len()
            invariant
                0 <= k <= self.levels@.len(),
                l0 == old_self.levels@,
                old_self.wf(),
                self.levels@.len() == l0.len(),
                index < l0[0]@.len(),
                value <= l0[0]@[index as int],
                k < l0.len() ==> i < l0[k as int]@.len() && value <= l0[k as int]@[i as int],
                k == 0 ==> i == index,
                forall|j: int| k <= j < l0.len() ==> #[trigger] self.levels@[j] == l0[j],
                k > 0 ==> self.levels@[0]@ == l0[0]@.update(
                    index as int,
                    (l0[0]@[index as int] - value) as u64,
                ),
                k > 0 ==> {
                    &&& 0 <= p < l0[k - 1]@.len()
                    &&& p / 2 == i
                    &&& value <= l0[k - 1]@[p]
                    &&& self.levels@[k - 1]@ == l0[k - 1]@.update(
                        p,
                        (l0[k - 1]@[p] - value) as u64,
                    )
                },
                forall|j: int|
                    0 <= j < k - 1 ==> #[trigger] pairs(self.levels@[j]@, self.levels@[j + 1]@),
                forall|j: int|
                    0 <= j < k ==> (#[trigger] self.levels@[j]@).len() == l0[j]@.len(),
            decreases self.levels@.len() - k,
        {
            let ghost l1 = self.levels@;
            let sum: u64 = self.levels[k][i] - value;
            self.levels[k].set(i, sum);
            proof {
                let s = l0[k as int]@;
                assert(self.levels@[k as int]@ =~= s.update(i as int, (s[i as int] - value) as u64));
                assert forall|j: int| 0 <= j < k implies #[trigger] pairs(
                    self.levels@[j]@,
                    self.levels@[j + 1]@,
                ) by {
                    assert(self.levels@[j] == l1[j]);
                    if j < k - 1 {
                        assert(self.levels@[j + 1] == l1[j + 1]);
                        assert(pairs(l1[j]@, l1[j + 1]@));
                    } else {
                        let a0 = l0[k - 1]@;
                        let b0 = l0[k as int]@;
                        let a = self.levels@[k - 1]@;
                        let b = self.levels@[k as int]@;
                        assert(pairs(l0[k - 1]@, l0[(k - 1) + 1]@));
                        assert forall|q: int| 0 <= q < b.len() implies #[trigger] b[q] == value_at(
                            a,
                            2 * q,
                        ) + value_at(a, 2 * q + 1) by {
                            assert(b0[q] == value_at(a0, 2 * q) + value_at(a0, 2 * q + 1));
                        }
                    }
                }
                if k + 1 < l0.len() {
                    assert(pairs(l0[k as int]@, l0[k + 1]@));
                    let h = i as int / 2;
                    assert(l0[k + 1]@[h] == value_at(s, 2 * h) + value_at(s, 2 * h + 1));
                }
                assert forall|j: int| 0 <= j < k + 1 implies (
                #[trigger] self.levels@[j]@).len() == l0[j]@.len() by {
                    if j < k {
                        assert(self.levels@[j] == l1[j]);
                    }
                }
            }
            proof {
                p = i as int;
            }
            i = i / 2;
            k += 1;
        }
        proof {
            lemma_suffix_update(
                l0[0]@,
                index as int,
                (l0[0]@[index as int] - value) as u64,
                0,
            );
            assert forall|j: int| 0 <= j < self.levels@.len() - 1 implies #[trigger] pairs(
                self.levels@[j]@,
                self.levels@[j + 1]@,
            ) by {}
        }
    }

    /// What is counted from `index` on.
    pub fn suffix_sum(&self, index: usize) -> (r: u64)
        requires
            self.wf(),
        ensures
            r == suffix(self@, index as int),
    {
        let mut sum: u64 = 0;
        let mut i: usize = index;
        let mut k: usize = 0;
        if index >= self.levels[0].len() {
            return 0;
        }
        proof {
            lemma_suffix_less(self@, 0, index as int);
        }
        while k < self.levels.len()
            invariant
                self.wf(),
                0 <= k <= self.levels@.len(),
                index < self.levels@[0]@.len(),
                suffix(self@, index as int) <= u64::MAX,
                k < self.levels@.len() ==> i <= self.levels@[k as int]@.len(),
                k < self.levels@.len() ==> sum + suffix(self.levels@[k as int]@, i as int)
                    == suffix(self@, index as int),
                k == self.levels@.len() ==> sum == suffix(self@, index as int),
            decreases self.levels@.len() - k,
        {
            let ghost s = self.levels@[k as int]@;
            proof {
                lemma_suffix_nonneg(s, i as int);
                lemma_suffix_nonneg(s, i + 1);
            }
            if k + 1 == self.levels.len() {
                // the last level holds at most one value
                if i < self.levels[k].len() {
                    sum = sum + self.levels[k][i];
                    assert(suffix(s, i + 1) == 0);
                }
            } else {
                proof {
                    assert(pairs(self.levels@[k as int]@, self.levels@[k + 1]@));
                }
                if i % 2 == 1 && i < self.levels[k].len() {
                    sum = sum + self.levels[k][i];
                    i = i + 1;
                }
                let half: usize = i / 2 + i % 2;
                proof {
                    if i % 2 == 1 {
                        // behind the end
                        assert(i == s.len());
                        assert(suffix(s, 2 * half) == 0);
                    }
                    lemma_pairs_suffix(s, self.levels@[k + 1]@, half as int);
                }
                i = half;
            }
            k += 1;
        }
        sum
    }
}

} // verus!
