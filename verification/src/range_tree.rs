//! A set of offsets kept as maximal disjoint segments in ascending order.
use vstd::prelude::*;

verus! {

/// Total length of a list of segments.
pub open spec fn total_size(segs: Seq<(u64, u64)>) -> int
    decreases segs.len(),
{
    if segs.len() == 0 {
        0
    } else {
        total_size(segs.drop_last()) + segs.last().1
    }
}

pub proof fn lemma_total_size_push(segs: Seq<(u64, u64)>, seg: (u64, u64))
    ensures
        total_size(segs.push(seg)) == total_size(segs) + seg.1,
{
    assert(segs.push(seg).drop_last() =~= segs);
}

pub proof fn lemma_total_size_add(a: Seq<(u64, u64)>, b: Seq<(u64, u64)>)
    ensures
        total_size(a + b) == total_size(a) + total_size(b),
    decreases b.len(),
{
    if b.len() == 0 {
        assert(a + b =~= a);
    } else {
        lemma_total_size_add(a, b.drop_last());
        assert((a + b).drop_last() =~= a + b.drop_last());
    }
}

proof fn lemma_total_size_one(seg: (u64, u64))
    ensures
        total_size(seq![seg]) == seg.1,
{
    assert(seq![seg].drop_last() =~= Seq::<(u64, u64)>::empty());
    assert(total_size(Seq::<(u64, u64)>::empty()) == 0);
}

proof fn lemma_total_size_insert(s: Seq<(u64, u64)>, i: int, seg: (u64, u64))
    requires
        0 <= i <= s.len(),
    ensures
        total_size(s.insert(i, seg)) == total_size(s) + seg.1,
{
    let a = s.subrange(0, i);
    let b = s.subrange(i, s.len() as int);
    assert(s =~= a + b);
    assert(s.insert(i, seg) =~= (a + seq![seg]) + b);
    lemma_total_size_add(a, b);
    lemma_total_size_add(a, seq![seg]);
    lemma_total_size_add(a + seq![seg], b);
    lemma_total_size_one(seg);
}

proof fn lemma_total_size_remove(s: Seq<(u64, u64)>, i: int)
    requires
        0 <= i < s.len(),
    ensures
        total_size(s.remove(i)) == total_size(s) - s[i].1,
{
    lemma_total_size_insert(s.remove(i), i, s[i]);
    assert(s.remove(i).insert(i, s[i]) =~= s);
}

proof fn lemma_total_size_update(s: Seq<(u64, u64)>, i: int, seg: (u64, u64))
    requires
        0 <= i < s.len(),
    ensures
        total_size(s.update(i, seg)) == total_size(s) - s[i].1 + seg.1,
{
    lemma_total_size_remove(s, i);
    lemma_total_size_insert(s.remove(i), i, seg);
    assert(s.remove(i).insert(i, seg) =~= s.update(i, seg));
}

/// Whether one of the segments holds `o`.
pub open spec fn segs_have(segs: Seq<(u64, u64)>, o: int) -> bool {
    exists|i: int| 0 <= i < segs.len() && (#[trigger] segs[i]).0 <= o < segs[i].0 + segs[i].1
}

/// Non-empty segments in ascending order, no two of them adjacent.
pub open spec fn segs_wf(segs: Seq<(u64, u64)>) -> bool {
    &&& forall|i: int|
        0 <= i < segs.len() ==> (#[trigger] segs[i]).1 > 0 && segs[i].0 + segs[i].1 <= u64::MAX
    &&& forall|i: int, j: int|
        0 <= i < j < segs.len() ==> (#[trigger] segs[i]).0 + segs[i].1 < (#[trigger] segs[j]).0
}

/// The set of offsets that a list of segments holds.
pub open spec fn segs_set(segs: Seq<(u64, u64)>) -> Set<int> {
    Set::new(|o: int| segs_have(segs, o))
}

/// The offsets from `start` on, `size` of them.
pub open spec fn span(start: int, size: int) -> Set<int> {
    Set::new(|o: int| start <= o < start + size)
}

proof fn lemma_total_size_bound(segs: Seq<(u64, u64)>)
    requires
        segs_wf(segs),
    ensures
        0 <= total_size(segs),
        segs.len() > 0 ==> total_size(segs) <= segs.last().0 + segs.last().1,
        total_size(segs) <= u64::MAX,
    decreases segs.len(),
{
    if segs.len() > 0 {
        let d = segs.drop_last();
        assert forall|i: int| 0 <= i < d.len() implies (#[trigger] d[i]).1 > 0 && d[i].0 + d[i].1
            <= u64::MAX by {
            assert(d[i] == segs[i]);
        }
        assert forall|i: int, j: int| 0 <= i < j < d.len() implies (#[trigger] d[i]).0 + d[i].1 < (
        #[trigger] d[j]).0 by {
            assert(d[i] == segs[i] && d[j] == segs[j]);
        }
        lemma_total_size_bound(d);
        if d.len() > 0 {
            assert(d.last() == segs[d.len() - 1]);
            assert(segs[d.len() - 1].0 + segs[d.len() - 1].1 < segs[d.len() as int].0);
        }
    }
}

/// The total length of segments that lie within a range is at most the length of the range.
pub proof fn lemma_total_size_within(segs: Seq<(u64, u64)>, lo: int, hi: int)
    requires
        segs_wf(segs),
        lo <= hi,
        forall|o: int| segs_have(segs, o) ==> lo <= o < hi,
    ensures
        0 <= total_size(segs) <= hi - lo,
    decreases segs.len(),
{
    lemma_total_size_bound(segs);
    if segs.len() > 0 {
        let d = segs.drop_last();
        let l = segs.last();
        assert(segs_have(segs, l.0 as int)) by {
            assert(segs[segs.len() - 1].0 <= l.0);
        }
        assert(segs_have(segs, l.0 + l.1 - 1)) by {
            assert(segs[segs.len() - 1].0 <= l.0);
        }
        assert(forall|i: int| 0 <= i < d.len() ==> d[i] == segs[i]);
        assert forall|o: int| segs_have(d, o) implies lo <= o < l.0 by {
            let i = choose|i: int| 0 <= i < d.len() && (#[trigger] d[i]).0 <= o < d[i].0 + d[i].1;
            assert(segs[i].0 <= o < segs[i].0 + segs[i].1);
            assert(segs[i].0 + segs[i].1 < segs[segs.len() - 1].0);
            assert(segs_have(segs, o));
        }
        lemma_total_size_within(d, lo, l.0 as int);
    }
}

/// Two disjoint segment lists that lie within a range are together no longer than it.
pub proof fn lemma_disjoint_total(a: Seq<(u64, u64)>, b: Seq<(u64, u64)>, lo: int, hi: int)
    requires
        segs_wf(a),
        segs_wf(b),
        lo <= hi,
        forall|o: int| segs_have(a, o) ==> lo <= o < hi,
        forall|o: int| segs_have(b, o) ==> lo <= o < hi,
        forall|o: int| !(segs_have(a, o) && segs_have(b, o)),
    ensures
        total_size(a) + total_size(b) <= hi - lo,
    decreases a.len() + b.len(),
{
    if a.len() == 0 {
        lemma_total_size_within(b, lo, hi);
    } else if b.len() == 0 {
        lemma_total_size_within(a, lo, hi);
    } else if a.last().0 > b.last().0 {
        lemma_disjoint_step(a, b, lo, hi);
        lemma_disjoint_total(a.drop_last(), b, lo, a.last().0 as int);
    } else {
        if a.last().0 == b.last().0 {
            assert(a[a.len() - 1].0 <= a.last().0 && b[b.len() - 1].0 <= a.last().0);
            assert(segs_have(a, a.last().0 as int) && segs_have(b, a.last().0 as int));
        }
        lemma_disjoint_step(b, a, lo, hi);
        lemma_disjoint_total(a, b.drop_last(), lo, b.last().0 as int);
    }
}

proof fn lemma_disjoint_step(a: Seq<(u64, u64)>, b: Seq<(u64, u64)>, lo: int, hi: int)
    requires
        segs_wf(a),
        segs_wf(b),
        a.len() > 0,
        b.len() > 0,
        a.last().0 > b.last().0,
        forall|o: int| segs_have(a, o) ==> lo <= o < hi,
        forall|o: int| segs_have(b, o) ==> lo <= o < hi,
        forall|o: int| !(segs_have(a, o) && segs_have(b, o)),
    ensures
        lo <= a.last().0,
        a.last().0 + a.last().1 <= hi,
        segs_wf(a.drop_last()),
        forall|o: int| segs_have(a.drop_last(), o) ==> lo <= o < a.last().0,
        forall|o: int| segs_have(b, o) ==> lo <= o < a.last().0,
        forall|o: int| !(segs_have(a.drop_last(), o) && segs_have(b, o)),
{
    let d = a.drop_last();
    let l = a.last();
    assert(forall|i: int| 0 <= i < d.len() ==> d[i] == a[i]);
    assert(a[a.len() - 1].0 <= l.0);
    assert(segs_have(a, l.0 as int));
    assert(segs_have(a, l.0 + l.1 - 1));
    assert forall|o: int| segs_have(d, o) implies segs_have(a, o) && lo <= o < l.0 by {
        let i = choose|i: int| 0 <= i < d.len() && (#[trigger] d[i]).0 <= o < d[i].0 + d[i].1;
        assert(a[i].0 <= o < a[i].0 + a[i].1);
        assert(a[i].0 + a[i].1 < a[a.len() - 1].0);
    }
    assert forall|o: int| segs_have(b, o) implies lo <= o < l.0 by {
        let i = choose|i: int| 0 <= i < b.len() && (#[trigger] b[i]).0 <= o < b[i].0 + b[i].1;
        if o >= l.0 {
            if i < b.len() - 1 {
                assert(b[i].0 + b[i].1 < b[b.len() - 1].0);
            }
            assert(b[i].0 <= l.0 < b[i].0 + b[i].1);
            assert(segs_have(b, l.0 as int));
        }
    }
}

pub struct RangeTree {
    pub segs: Vec<(u64, u64)>,
    pub total: u64,
}

impl View for RangeTree {
    type V = Set<int>;

    open spec fn view(&self) -> Set<int> {
        segs_set(self.segs@)
    }
}

impl RangeTree {
    pub open spec fn wf(&self) -> bool {
        &&& segs_wf(self.segs@)
        &&& self.total == total_size(self.segs@)
    }

    pub fn new() -> (r: RangeTree)
        ensures
            r.wf(),
            r@ == Set::<int>::empty(),
            r.segs@.len() == 0,
    {
        let r = RangeTree { segs: Vec::new(), total: 0 };
        assert(r@ =~= Set::<int>::empty());
        r
    }

    /// Number of offsets in the set.
    pub fn space(&self) -> (r: u64)
        requires
            self.wf(),
        ensures
            r == total_size(self.segs@),
    {
        self.total
    }

    pub fn clear(&mut self)
        ensures
            final(self).wf(),
            final(self)@ == Set::<int>::empty(),
            final(self).segs@.len() == 0,
    {
        self.segs.clear();
        self.total = 0;
        assert(self@ =~= Set::<int>::empty());
    }

    /// Index of the first segment that starts at `start` or later.
    pub fn lower_bound(&self, start: u64) -> (r: usize)
        requires
            self.wf(),
        ensures
            r <= self.segs@.len(),
            forall|i: int| 0 <= i < r ==> (#[trigger] self.segs@[i]).0 < start,
            forall|i: int| r <= i < self.segs@.len() ==> start <= (#[trigger] self.segs@[i]).0,
    {
        let mut i: usize = 0;
        while i < self.segs.len() && self.segs[i].0 < start
            invariant
                i <= self.segs@.len(),
                forall|j: int| 0 <= j < i ==> (#[trigger] self.segs@[j]).0 < start,
            decreases self.segs@.len() - i,
        {
            i += 1;
        }
        proof {
            assert forall|j: int| i <= j < self.segs@.len() implies start <= (
            #[trigger] self.segs@[j]).0 by {
                if j > i {
                    assert(self.segs@[i as int].0 + self.segs@[i as int].1 < self.segs@[j].0);
                }
            }
        }
        i
    }

    /// Whether any of the offsets from `start` on, `size` of them, is in the set.
    pub fn overlaps(&self, start: u64, size: u64) -> (r: bool)
        requires
            self.wf(),
            start + size <= u64::MAX,
        ensures
            r <==> exists|o: int| start <= o < start + size && segs_have(self.segs@, o),
    {
        let mut i: usize = 0;
        while i < self.segs.len()
            invariant
                self.wf(),
                start + size <= u64::MAX,
                i <= self.segs@.len(),
                forall|j: int|
                    0 <= j < i ==> size == 0 || start + size <= (#[trigger] self.segs@[j]).0
                        || self.segs@[j].0 + self.segs@[j].1 <= start,
            decreases self.segs@.len() - i,
        {
            let (s, z) = self.segs[i];
            if size > 0 && s < start + size && start < s + z {
                proof {
                    let o: int = if s <= start {
                        start as int
                    } else {
                        s as int
                    };
                    assert(self.segs@[i as int].0 <= o);
                    assert(start <= o < start + size && segs_have(self.segs@, o));
                }
                return true;
            }
            i += 1;
        }
        false
    }

    /// Adds the offsets from `start` on, `size` of them, none of which may be in the set.
    pub fn add(&mut self, start: u64, size: u64)
        requires
            old(self).wf(),
            size > 0,
            start + size <= u64::MAX,
            forall|o: int| start <= o < start + size ==> !segs_have(old(self).segs@, o),
        ensures
            final(self).wf(),
            final(self)@ == old(self)@.union(span(start as int, size as int)),
            total_size(final(self).segs@) == total_size(old(self).segs@) + size,
    {
        let ghost s0 = self.segs@;
        let i = self.lower_bound(start);
        proof {
            assert forall|j: int| 0 <= j < i implies (#[trigger] s0[j]).0 + s0[j].1 <= start by {
                if s0[j].0 + s0[j].1 > start {
                    assert(segs_have(s0, start as int));
                }
            }
            assert forall|j: int| i <= j < s0.len() implies start + size <= (#[trigger] s0[j]).0 by {
                if s0[j].0 < start + size {
                    assert(segs_have(s0, s0[j].0 as int));
                }
            }
        }
        let prev = i > 0 && self.segs[i - 1].0 + self.segs[i - 1].1 == start;
        let next = i < self.segs.len() && self.segs[i].0 == start + size;
        if prev && next {
            let (ps, pz) = self.segs[i - 1];
            let nz: u64 = self.segs[i].1;
            self.segs.set(i - 1, (ps, pz + size + nz));
            self.segs.remove(i);
            proof {
                let seg = (ps, (pz + size + nz) as u64);
                lemma_total_size_update(s0, i - 1, seg);
                lemma_total_size_remove(s0.update(i - 1, seg), i as int);
                lemma_added(s0, self.segs@, start as int, size as int, i as int, true, true);
            }
        } else if prev {
            let (ps, pz) = self.segs[i - 1];
            self.segs.set(i - 1, (ps, pz + size));
            proof {
                lemma_total_size_update(s0, i - 1, (ps, (pz + size) as u64));
                lemma_added(s0, self.segs@, start as int, size as int, i as int, true, false);
            }
        } else if next {
            let nz: u64 = self.segs[i].1;
            self.segs.set(i, (start, size + nz));
            proof {
                lemma_total_size_update(s0, i as int, (start, (size + nz) as u64));
                lemma_added(s0, self.segs@, start as int, size as int, i as int, false, true);
            }
        } else {
            self.segs.insert(i, (start, size));
            proof {
                lemma_total_size_insert(s0, i as int, (start, size));
                lemma_added(s0, self.segs@, start as int, size as int, i as int, false, false);
            }
        }
        proof {
            lemma_total_size_bound(self.segs@);
            lemma_total_size_bound(s0);
        }
        self.total = self.total + size;
        assert(self@ =~= old(self)@.union(span(start as int, size as int)));
    }

    /// Removes the offsets from `start` on, `size` of them, all of which must be in the set.
    pub fn remove(&mut self, start: u64, size: u64)
        requires
            old(self).wf(),
            size > 0,
            start + size <= u64::MAX,
            forall|o: int| start <= o < start + size ==> segs_have(old(self).segs@, o),
        ensures
            final(self).wf(),
            final(self)@ == old(self)@.difference(span(start as int, size as int)),
            total_size(final(self).segs@) == total_size(old(self).segs@) - size,
    {
        let ghost s0 = self.segs@;
        let lb = self.lower_bound(start);
        proof {
            lemma_total_size_bound(s0);
            lemma_covering(s0, start as int, size as int, lb as int);
        }
        let at = lb < self.segs.len() && self.segs[lb].0 == start;
        if at {
            let (s, z) = self.segs[lb];
            if z == size {
                self.segs.remove(lb);
                proof {
                    lemma_total_size_remove(s0, lb as int);
                    lemma_removed(s0, self.segs@, start as int, size as int, lb as int);
                }
            } else {
                self.segs.set(lb, (s + size, z - size));
                proof {
                    lemma_total_size_update(s0, lb as int, ((s + size) as u64, (z - size) as u64));
                    lemma_removed(s0, self.segs@, start as int, size as int, lb as int);
                }
            }
        } else {
            let i: usize = lb - 1;
            let (s, z) = self.segs[i];
            let head: u64 = start - s;
            let tail: u64 = z - head - size;
            self.segs.set(i, (s, head));
            proof {
                lemma_total_size_update(s0, i as int, (s, head));
            }
            if tail > 0 {
                let ghost s1 = self.segs@;
                self.segs.insert(lb, (start + size, tail));
                proof {
                    lemma_total_size_insert(s1, lb as int, ((start + size) as u64, tail));
                }
            }
            proof {
                lemma_removed(s0, self.segs@, start as int, size as int, i as int);
            }
        }
        proof {
            lemma_total_size_bound(self.segs@);
        }
        self.total = self.total - size;
        assert(self@ =~= old(self)@.difference(span(start as int, size as int)));
    }

    /// The maximal runs of offsets from `lo` to `hi` that are not in the set, as start and
    /// size, in ascending order.
    pub fn iter_inverse(&self, lo: u64, hi: u64) -> (r: Vec<(u64, u64)>)
        requires
            self.wf(),
            lo <= hi,
            forall|o: int| segs_have(self.segs@, o) ==> lo <= o < hi,
        ensures
            segs_wf(r@),
            segs_set(r@) == span(lo as int, hi - lo).difference(self@),
            total_size(r@) == hi - lo - total_size(self.segs@),
    {
        let mut r: Vec<(u64, u64)> = Vec::new();
        let mut pos: u64 = lo;
        let mut i: usize = 0;
        let ghost s = self.segs@;
        proof {
            assert forall|j: int| 0 <= j < s.len() implies lo <= (#[trigger] s[j]).0 && s[j].0
                + s[j].1 <= hi by {
                assert(segs_have(s, s[j].0 as int));
                assert(segs_have(s, s[j].0 + s[j].1 - 1));
            }
            assert(s.take(0) =~= Seq::<(u64, u64)>::empty());
        }
        while i < self.segs.len()
            invariant
                self.wf(),
                s == self.segs@,
                i <= s.len(),
                lo <= pos <= hi,
                i == 0 ==> pos == lo,
                i > 0 ==> pos == s[i - 1].0 + s[i - 1].1,
                forall|j: int|
                    0 <= j < s.len() ==> lo <= (#[trigger] s[j]).0 && s[j].0 + s[j].1 <= hi,
                segs_wf(r@),
                r@.len() > 0 ==> r@.last().0 + r@.last().1 < pos,
                forall|o: int|
                    lo <= o < pos ==> (segs_have(r@, o) <==> !segs_have(s.take(i as int), o)),
                forall|o: int| segs_have(r@, o) ==> lo <= o < pos,
                total_size(r@) + total_size(s.take(i as int)) == pos - lo,
            decreases s.len() - i,
        {
            let (start, size) = self.segs[i];
            let ghost r0 = r@;
            let ghost p0 = pos;
            proof {
                if i > 0 {
                    assert(s[i - 1].0 + s[i - 1].1 < s[i as int].0);
                }
            }
            if start > pos {
                proof {
                    lemma_segs_push(r@, pos, (start - pos) as u64);
                    lemma_total_size_push(r@, (pos, (start - pos) as u64));
                }
                r.push((pos, start - pos));
            }
            pos = start + size;
            i += 1;
            proof {
                assert(s.take(i as int) =~= s.take(i - 1).push((start, size)));
                lemma_total_size_push(s.take(i - 1), (start, size));
                assert forall|o: int| lo <= o < pos implies (segs_have(r@, o) <==> !segs_have(
                    s.take(i as int),
                    o,
                )) by {
                    lemma_have_push(s.take(i - 1), (start, size), o);
                    if start > p0 {
                        lemma_have_push(r0, (p0, (start - p0) as u64), o);
                    }
                    if o >= p0 && segs_have(s.take(i - 1), o) {
                        let j = choose|j: int|
                            0 <= j < s.take(i - 1).len() && (#[trigger] s.take(i - 1)[j]).0 <= o
                                < s.take(i - 1)[j].0 + s.take(i - 1)[j].1;
                        assert(s.take(i - 1)[j] == s[j]);
                        if j < i - 2 {
                            assert(s[j].0 + s[j].1 < s[i - 2].0);
                        }
                    }
                }
                assert forall|o: int| segs_have(r@, o) implies lo <= o < pos by {
                    if start > p0 {
                        lemma_have_push(r0, (p0, (start - p0) as u64), o);
                    }
                }
            }
        }
        let ghost r0 = r@;
        let ghost p0 = pos;
        if hi > pos {
            proof {
                lemma_segs_push(r@, pos, (hi - pos) as u64);
                lemma_total_size_push(r@, (pos, (hi - pos) as u64));
            }
            r.push((pos, hi - pos));
        }
        proof {
            assert(s.take(i as int) =~= s);
            assert forall|o: int| segs_set(r@).contains(o) <==> span(
                lo as int,
                hi - lo,
            ).difference(self@).contains(o) by {
                if hi > p0 {
                    lemma_have_push(r0, (p0, (hi - p0) as u64), o);
                }
                if segs_have(s, o) && o >= p0 {
                    let j = choose|j: int|
                        0 <= j < s.len() && (#[trigger] s[j]).0 <= o < s[j].0 + s[j].1;
                    if j < s.len() - 1 {
                        assert(s[j].0 + s[j].1 < s[s.len() - 1].0);
                    }
                }
            }
            assert(segs_set(r@) =~= span(lo as int, hi - lo).difference(self@));
        }
        r
    }
}

/// What a segment list holds after a segment is appended.
pub proof fn lemma_have_push(segs: Seq<(u64, u64)>, seg: (u64, u64), o: int)
    ensures
        segs_have(segs.push(seg), o) <==> segs_have(segs, o) || seg.0 <= o < seg.0 + seg.1,
{
    let p = segs.push(seg);
    if segs_have(segs, o) {
        let i = choose|i: int|
            0 <= i < segs.len() && (#[trigger] segs[i]).0 <= o < segs[i].0 + segs[i].1;
        assert(p[i] == segs[i]);
    }
    if seg.0 <= o < seg.0 + seg.1 {
        assert(p[segs.len() as int] == seg);
    }
    if segs_have(p, o) {
        let i = choose|i: int| 0 <= i < p.len() && (#[trigger] p[i]).0 <= o < p[i].0 + p[i].1;
        if i < segs.len() {
            assert(p[i] == segs[i]);
        }
    }
}

/// A segment past the end of a list can be appended to it.
pub proof fn lemma_segs_push(segs: Seq<(u64, u64)>, start: u64, size: u64)
    requires
        segs_wf(segs),
        size > 0,
        start + size <= u64::MAX,
        segs.len() > 0 ==> segs.last().0 + segs.last().1 < start,
    ensures
        segs_wf(segs.push((start, size))),
{
    let p = segs.push((start, size));
    assert forall|i: int, j: int| 0 <= i < j < p.len() implies (#[trigger] p[i]).0 + p[i].1 < (
    #[trigger] p[j]).0 by {
        if j == segs.len() && i < segs.len() - 1 {
            assert(segs[i].0 + segs[i].1 < segs[segs.len() - 1].0);
        }
    }
}

/// A run of offsets that is in the set lies in one segment: the last one that does not start
/// after it.
proof fn lemma_covering(s: Seq<(u64, u64)>, start: int, size: int, lb: int)
    requires
        segs_wf(s),
        size > 0,
        0 <= lb <= s.len(),
        forall|i: int| 0 <= i < lb ==> (#[trigger] s[i]).0 < start,
        forall|i: int| lb <= i < s.len() ==> start <= (#[trigger] s[i]).0,
        forall|o: int| start <= o < start + size ==> segs_have(s, o),
    ensures
        if lb < s.len() && s[lb].0 == start {
            start + size <= s[lb].0 + s[lb].1
        } else {
            lb > 0 && s[lb - 1].0 < start && start + size <= s[lb - 1].0 + s[lb - 1].1
        },
{
    assert(segs_have(s, start));
    let i = choose|i: int| 0 <= i < s.len() && (#[trigger] s[i]).0 <= start < s[i].0 + s[i].1;
    if i < lb - 1 {
        assert(s[i].0 + s[i].1 < s[lb - 1].0);
    }
    if start + size > s[i].0 + s[i].1 {
        let e = s[i].0 + s[i].1;
        assert(segs_have(s, e as int));
        let k = choose|k: int| 0 <= k < s.len() && (#[trigger] s[k]).0 <= e < s[k].0 + s[k].1;
        if k < i {
            assert(s[k].0 + s[k].1 < s[i].0);
        } else if k > i {
            assert(s[i].0 + s[i].1 < s[k].0);
        }
    }
}

proof fn lemma_added(
    s0: Seq<(u64, u64)>,
    s1: Seq<(u64, u64)>,
    start: int,
    size: int,
    i: int,
    prev: bool,
    next: bool,
)
    requires
        segs_wf(s0),
        size > 0,
        0 <= i <= s0.len(),
        0 <= start,
        start + size <= u64::MAX,
        forall|j: int| 0 <= j < i ==> (#[trigger] s0[j]).0 + s0[j].1 <= start,
        forall|j: int| i <= j < s0.len() ==> start + size <= (#[trigger] s0[j]).0,
        prev <==> i > 0 && s0[i - 1].0 + s0[i - 1].1 == start,
        next <==> i < s0.len() && s0[i].0 == start + size,
        prev && next ==> s1 == s0.update(
            i - 1,
            (s0[i - 1].0, (s0[i - 1].1 + size + s0[i].1) as u64),
        ).remove(i),
        prev && !next ==> s1 == s0.update(i - 1, (s0[i - 1].0, (s0[i - 1].1 + size) as u64)),
        !prev && next ==> s1 == s0.update(i, (start as u64, (size + s0[i].1) as u64)),
        !prev && !next ==> s1 == s0.insert(i, (start as u64, size as u64)),
    ensures
        segs_wf(s1),
        forall|o: int| segs_have(s1, o) <==> segs_have(s0, o) || start <= o < start + size,
{
    let m = if prev {
        i - 1
    } else {
        i
    };
    let d: int = if prev && next {
        -1
    } else if !prev && !next {
        1
    } else {
        0
    };
    assert(s1.len() == s0.len() + d);
    assert forall|k: int| 0 <= k < m implies s1[k] == s0[k] by {}
    assert forall|k: int| m < k < s1.len() implies s1[k] == s0[k - d] by {}
    lemma_replaced(s0, s1, start, size, i, m, d, prev, next);
}

/// Segment `m` of `s1` stands for the added run and the old segments that touch it.
proof fn lemma_replaced(
    s0: Seq<(u64, u64)>,
    s1: Seq<(u64, u64)>,
    start: int,
    size: int,
    i: int,
    m: int,
    d: int,
    prev: bool,
    next: bool,
)
    requires
        segs_wf(s0),
        size > 0,
        0 <= i <= s0.len(),
        0 <= start,
        start + size <= u64::MAX,
        forall|j: int| 0 <= j < i ==> (#[trigger] s0[j]).0 + s0[j].1 <= start,
        forall|j: int| i <= j < s0.len() ==> start + size <= (#[trigger] s0[j]).0,
        prev <==> i > 0 && s0[i - 1].0 + s0[i - 1].1 == start,
        next <==> i < s0.len() && s0[i].0 == start + size,
        m == if prev {
            i - 1
        } else {
            i
        },
        d == if prev && next {
            -1int
        } else if !prev && !next {
            1int
        } else {
            0int
        },
        s1.len() == s0.len() + d,
        forall|k: int| 0 <= k < m ==> s1[k] == s0[k],
        forall|k: int| m < k < s1.len() ==> s1[k] == s0[k - d],
        s1[m].0 == if prev {
            s0[i - 1].0 as int
        } else {
            start
        },
        s1[m].0 + s1[m].1 == if next {
            s0[i].0 + s0[i].1
        } else {
            start + size
        },
    ensures
        segs_wf(s1),
        forall|o: int| segs_have(s1, o) <==> segs_have(s0, o) || start <= o < start + size,
{
    assert forall|k: int| 0 <= k < s1.len() implies (#[trigger] s1[k]).1 > 0 && s1[k].0 + s1[k].1
        <= u64::MAX by {
        if k < m {
            assert(s0[k].1 > 0);
        } else if k > m {
            assert(s0[k - d].1 > 0);
        }
    }
    assert forall|k: int, l: int| 0 <= k < l < s1.len() implies (#[trigger] s1[k]).0 + s1[k].1 < (
    #[trigger] s1[l]).0 by {
        let a = if k > m {
            k - d
        } else {
            k
        };
        let b = if l > m {
            l - d
        } else {
            l
        };
        if k != m && l != m {
            assert(s0[a].0 + s0[a].1 < s0[b].0);
        } else if k == m {
            if next {
                assert(s0[i].0 + s0[i].1 < s0[b].0);
            } else {
                assert(start + size <= s0[b].0);
                if b > i {
                    assert(s0[i].0 + s0[i].1 < s0[b].0);
                }
            }
        } else {
            if prev {
                assert(s0[a].0 + s0[a].1 < s0[i - 1].0);
            } else {
                assert(s0[a].0 + s0[a].1 <= start);
                if a < i - 1 {
                    assert(s0[a].0 + s0[a].1 < s0[i - 1].0);
                }
            }
        }
    }
    assert forall|o: int| segs_have(s1, o) <==> segs_have(s0, o) || start <= o < start + size by {
        if segs_have(s0, o) {
            let j = choose|j: int|
                0 <= j < s0.len() && (#[trigger] s0[j]).0 <= o < s0[j].0 + s0[j].1;
            if j < m {
                assert(s1[j].0 <= o < s1[j].0 + s1[j].1);
            } else if (prev && j == i - 1) || (next && j == i) {
                assert(s1[m].0 <= o < s1[m].0 + s1[m].1);
            } else {
                assert(s1[j + d].0 <= o < s1[j + d].0 + s1[j + d].1);
            }
        }
        if start <= o < start + size {
            assert(s1[m].0 <= o < s1[m].0 + s1[m].1);
        }
        if segs_have(s1, o) {
            let k = choose|k: int|
                0 <= k < s1.len() && (#[trigger] s1[k]).0 <= o < s1[k].0 + s1[k].1;
            if k < m {
                assert(s0[k].0 <= o < s0[k].0 + s0[k].1);
            } else if k > m {
                assert(s0[k - d].0 <= o < s0[k - d].0 + s0[k - d].1);
            } else if o < start {
                assert(s0[i - 1].0 <= o < s0[i - 1].0 + s0[i - 1].1);
            } else if o >= start + size {
                assert(s0[i].0 <= o < s0[i].0 + s0[i].1);
            }
        }
    }
}

proof fn lemma_removed(
    s0: Seq<(u64, u64)>,
    s1: Seq<(u64, u64)>,
    start: int,
    size: int,
    i: int,
)
    requires
        segs_wf(s0),
        size > 0,
        0 <= i < s0.len(),
        s0[i].0 <= start,
        start + size <= s0[i].0 + s0[i].1,
        ({
            let head = start - s0[i].0;
            let tail = s0[i].0 + s0[i].1 - (start + size);
            let t = ((start + size) as u64, tail as u64);
            &&& head == 0 && tail == 0 ==> s1 == s0.remove(i)
            &&& head == 0 && tail > 0 ==> s1 == s0.update(i, t)
            &&& head > 0 && tail == 0 ==> s1 == s0.update(i, (s0[i].0, head as u64))
            &&& head > 0 && tail > 0 ==> s1 == s0.update(i, (s0[i].0, head as u64)).insert(i + 1, t)
        }),
    ensures
        segs_wf(s1),
        forall|o: int| segs_have(s1, o) <==> segs_have(s0, o) && !(start <= o < start + size),
{
    let head = start - s0[i].0;
    let tail = s0[i].0 + s0[i].1 - (start + size);
    let d: int = if head == 0 && tail == 0 {
        -1
    } else if head > 0 && tail > 0 {
        1
    } else {
        0
    };
    assert(s1.len() == s0.len() + d);
    assert forall|k: int| 0 <= k < i implies s1[k] == s0[k] by {}
    assert forall|k: int| i < k < s0.len() implies #[trigger] s0[k] == s1[k + d] by {}
    assert(forall|a: int, b: int|
        0 <= a < b < s0.len() ==> (#[trigger] s0[a]).0 + s0[a].1 < (#[trigger] s0[b]).0);
    // where a new segment came from
    let from = |k: int|
        if k < i {
            k
        } else if k <= i + d {
            i
        } else {
            k - d
        };
    assert forall|k: int| 0 <= k < s1.len() implies 0 <= #[trigger] from(k) < s0.len() && s0[from(
        k,
    )].0 <= s1[k].0 && s1[k].0 + s1[k].1 <= s0[from(k)].0 + s0[from(k)].1 && s1[k].1 > 0 by {
        if k > i + d {
            assert(s0[k - d] == s1[k]);
        }
    }
    assert forall|k: int, l: int| 0 <= k < l < s1.len() implies (#[trigger] s1[k]).0 + s1[k].1 < (
    #[trigger] s1[l]).0 by {
        let a = from(k);
        let b = from(l);
        if a < b {
            assert(s0[a].0 + s0[a].1 < s0[b].0);
        }
    }
    assert forall|k: int| 0 <= k < s1.len() implies (#[trigger] s1[k]).1 > 0 && s1[k].0 + s1[k].1
        <= u64::MAX by {
        let a = from(k);
        assert(s0[a].0 + s0[a].1 <= u64::MAX);
    }
    assert forall|o: int| segs_have(s1, o) <==> segs_have(s0, o) && !(start <= o < start
        + size) by {
        if segs_have(s1, o) {
            let k = choose|k: int|
                0 <= k < s1.len() && (#[trigger] s1[k]).0 <= o < s1[k].0 + s1[k].1;
            let a = from(k);
            assert(s0[a].0 <= o < s0[a].0 + s0[a].1);
            if a < i {
                assert(s0[a].0 + s0[a].1 < s0[i].0);
            } else if a > i {
                assert(s0[i].0 + s0[i].1 < s0[a].0);
            }
        }
        if segs_have(s0, o) && !(start <= o < start + size) {
            let a = choose|a: int|
                0 <= a < s0.len() && (#[trigger] s0[a]).0 <= o < s0[a].0 + s0[a].1;
            if a < i {
                assert(s1[a].0 <= o < s1[a].0 + s1[a].1);
            } else if a > i {
                assert(s1[a + d].0 <= o < s1[a + d].0 + s1[a + d].1);
            } else if o < start {
                assert(s1[i].0 <= o < s1[i].0 + s1[i].1);
            } else {
                assert(s1[i + d].0 <= o < s1[i + d].0 + s1[i + d].1);
            }
        }
    }
}

/// Two lists of maximal segments that hold the same offsets are the same list.
pub proof fn law_segments_unique(a: Seq<(u64, u64)>, b: Seq<(u64, u64)>)
    requires
        segs_wf(a),
        segs_wf(b),
        forall|o: int| segs_have(a, o) <==> segs_have(b, o),
    ensures
        a == b,
    decreases a.len(),
{
    if a.len() == 0 {
        if b.len() > 0 {
            assert(segs_have(b, b[0].0 as int));
        }
        assert(a =~= b);
    } else {
        let la = a.last();
        assert(a[a.len() - 1] == la);
        assert(segs_have(a, la.0 as int));
        assert(segs_have(b, la.0 as int));
        assert(b.len() > 0);
        let lb = b.last();
        assert(b[b.len() - 1] == lb);
        lemma_last_of(a, b);
        lemma_last_of(b, a);
        assert(la == lb);
        let da = a.drop_last();
        let db = b.drop_last();
        assert(forall|i: int| 0 <= i < da.len() ==> da[i] == a[i]);
        assert(forall|i: int| 0 <= i < db.len() ==> db[i] == b[i]);
        assert forall|o: int| segs_have(da, o) <==> segs_have(db, o) by {
            lemma_have_push(da, la, o);
            lemma_have_push(db, lb, o);
            assert(da.push(la) =~= a);
            assert(db.push(lb) =~= b);
            lemma_drop_last_below(a, o);
            lemma_drop_last_below(b, o);
        }
        law_segments_unique(da, db);
        assert(a =~= da.push(la));
        assert(b =~= db.push(lb));
    }
}

proof fn lemma_drop_last_below(a: Seq<(u64, u64)>, o: int)
    requires
        segs_wf(a),
        a.len() > 0,
    ensures
        segs_have(a.drop_last(), o) ==> o < a.last().0,
{
    let d = a.drop_last();
    if segs_have(d, o) {
        let i = choose|i: int| 0 <= i < d.len() && (#[trigger] d[i]).0 <= o < d[i].0 + d[i].1;
        assert(d[i] == a[i]);
        assert(a[i].0 + a[i].1 < a[a.len() - 1].0);
    }
}

/// The last segment of one list starts no later and ends no earlier than that of an equal set.
proof fn lemma_last_of(a: Seq<(u64, u64)>, b: Seq<(u64, u64)>)
    requires
        segs_wf(a),
        segs_wf(b),
        a.len() > 0,
        b.len() > 0,
        forall|o: int| segs_have(a, o) <==> segs_have(b, o),
    ensures
        b.last().0 <= a.last().0,
        a.last().0 + a.last().1 <= b.last().0 + b.last().1,
{
    let la = a.last();
    let lb = b.last();
    assert(a[a.len() - 1] == la);
    assert(b[b.len() - 1] == lb);
    let e = la.0 + la.1 - 1;
    assert(segs_have(a, e));
    assert(segs_have(b, e));
    lemma_have_push(b.drop_last(), lb, e);
    assert(b.drop_last().push(lb) =~= b);
    lemma_drop_last_below(b, e);
    if la.0 < lb.0 {
        // the offset just before the last segment of b is in a but not in b
        let o = lb.0 - 1;
        assert(segs_have(b, lb.0 as int));
        assert(segs_have(a, lb.0 as int));
        lemma_have_push(a.drop_last(), la, lb.0 as int);
        assert(a.drop_last().push(la) =~= a);
        lemma_drop_last_below(a, lb.0 as int);
        assert(la.0 <= o < la.0 + la.1);
        assert(segs_have(a, o));
        assert(segs_have(b, o));
        lemma_have_push(b.drop_last(), lb, o);
        let k = choose|k: int|
            0 <= k < b.drop_last().len() && (#[trigger] b.drop_last()[k]).0 <= o
                < b.drop_last()[k].0 + b.drop_last()[k].1;
        assert(b.drop_last()[k] == b[k]);
        assert(b[k].0 + b[k].1 < b[b.len() - 1].0);
    }
}

/// The maximal segments of a set of offsets, in ascending order.
pub open spec fn runs_of(set: Set<int>) -> Seq<(u64, u64)> {
    choose|segs: Seq<(u64, u64)>| segs_wf(segs) && #[trigger] segs_set(segs) == set
}

pub proof fn lemma_runs_of(segs: Seq<(u64, u64)>)
    requires
        segs_wf(segs),
    ensures
        runs_of(segs_set(segs)) == segs,
{
    let r = runs_of(segs_set(segs));
    assert(segs_wf(r) && segs_set(r) == segs_set(segs));
    assert forall|o: int| segs_have(segs, o) <==> segs_have(r, o) by {
        assert(segs_set(r).contains(o) <==> segs_set(segs).contains(o));
    }
    law_segments_unique(segs, r);
}

/// A bounded set has maximal segments.
pub proof fn lemma_runs_exist(set: Set<int>, limit: int)
    requires
        0 <= limit <= u64::MAX,
        forall|o: int| set.contains(o) ==> 0 <= o < limit,
    ensures
        segs_wf(runs_of(set)),
        segs_set(runs_of(set)) == set,
{
    let segs = lemma_segs_of(set, limit);
    lemma_runs_of(segs);
}

proof fn lemma_segs_of(set: Set<int>, limit: int) -> (segs: Seq<(u64, u64)>)
    requires
        0 <= limit <= u64::MAX,
        forall|o: int| set.contains(o) ==> 0 <= o < limit,
    ensures
        segs_wf(segs),
        segs_set(segs) == set,
    decreases limit,
{
    if limit == 0 {
        let segs = Seq::<(u64, u64)>::empty();
        assert(segs_set(segs) =~= set);
        segs
    } else {
        let top = limit - 1;
        let rest = set.remove(top);
        let segs = lemma_segs_of(rest, top);
        if !set.contains(top) {
            assert(rest =~= set);
            segs
        } else if segs.len() > 0 && segs.last().0 + segs.last().1 == top {
            let l = segs.last();
            let d = segs.drop_last();
            let m = (l.0, (l.1 + 1) as u64);
            let r = d.push(m);
            assert(d.push(l) =~= segs);
            assert forall|o: int| segs_have(r, o) <==> segs_have(segs, o) || o == top by {
                lemma_have_push(d, l, o);
                lemma_have_push(d, m, o);
            }
            assert(segs_set(r) =~= set) by {
                assert forall|o: int| segs_set(r).contains(o) <==> set.contains(o) by {
                    assert(segs_set(segs).contains(o) <==> rest.contains(o));
                }
            }
            assert(forall|i: int| 0 <= i < d.len() ==> r[i] == segs[i]);
            r
        } else {
            let m = (top as u64, 1u64);
            let r = segs.push(m);
            if segs.len() > 0 {
                let l = segs.last();
                assert(segs_have(segs, l.0 + l.1 - 1)) by {
                    assert(segs[segs.len() - 1].0 <= l.0 + l.1 - 1);
                }
                assert(segs_set(segs).contains(l.0 + l.1 - 1));
            }
            lemma_segs_push(segs, top as u64, 1);
            assert forall|o: int| segs_have(r, o) <==> segs_have(segs, o) || o == top by {
                lemma_have_push(segs, m, o);
            }
            assert(segs_set(r) =~= set) by {
                assert forall|o: int| segs_set(r).contains(o) <==> set.contains(o) by {
                    assert(segs_set(segs).contains(o) <==> rest.contains(o));
                }
            }
            r
        }
    }
}

/// Every segment holds something.
pub proof fn lemma_runs_count(set: Set<int>, lo: int, hi: int)
    requires
        0 <= lo <= hi <= u64::MAX,
        forall|o: int| set.contains(o) ==> lo <= o < hi,
    ensures
        runs_of(set).len() <= hi - lo,
{
    lemma_runs_exist(set, hi);
    let segs = runs_of(set);
    assert forall|o: int| segs_have(segs, o) implies lo <= o < hi by {
        assert(segs_set(segs).contains(o));
    }
    lemma_total_size_within(segs, lo, hi);
    lemma_count_le_total(segs);
}

proof fn lemma_count_le_total(segs: Seq<(u64, u64)>)
    requires
        segs_wf(segs),
    ensures
        segs.len() <= total_size(segs),
    decreases segs.len(),
{
    if segs.len() > 0 {
        let d = segs.drop_last();
        assert(forall|i: int| 0 <= i < d.len() ==> d[i] == segs[i]);
        lemma_count_le_total(d);
        assert(segs[segs.len() - 1].1 > 0);
    }
}

/// The size of segments is that of each.
pub proof fn law_total_of_segments(segs: Seq<(u64, u64)>, seg: (u64, u64))
    ensures
        total_size(segs.push(seg)) == total_size(segs) + seg.1,
        total_size(Seq::empty()) == 0,
{
    assert(segs.push(seg).drop_last() =~= segs);
}

} // verus!
