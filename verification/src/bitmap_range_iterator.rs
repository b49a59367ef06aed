//! Sets of slot numbers, held in a compressed bitmap, and the ranges of set bits in them.
use crate::range_tree::{
    lemma_have_push, lemma_segs_push, lemma_total_size_add, lemma_total_size_push, segs_have, segs_set,
    segs_wf, span, total_size, RangeTree,
};
use roaring::RoaringBitmap;
use vstd::prelude::*;

verus! {

/// `roaring::RoaringBitmap`, a set of 32-bit integers.
#[verifier::external_type_specification]
#[verifier::external_body]
pub struct ExRoaringBitmap(RoaringBitmap);

/// The integers that a bitmap holds.
pub uninterp spec fn bitmap_slots(bitmap: RoaringBitmap) -> Set<int>;

/// `RoaringBitmap::new`: the empty set.
#[verifier::external_body]
fn bitmap_new() -> (bitmap: RoaringBitmap)
    ensures
        bitmap_slots(bitmap) == Set::<int>::empty(),
{
    RoaringBitmap::new()
}

/// `RoaringBitmap::insert`: adds a value, and says whether it was absent.
#[verifier::external_body]
fn bitmap_insert(bitmap: &mut RoaringBitmap, slot: u32) -> (absent: bool)
    ensures
        bitmap_slots(*final(bitmap)) == bitmap_slots(*old(bitmap)).insert(slot as int),
        absent == !bitmap_slots(*old(bitmap)).contains(slot as int),
{
    bitmap.insert(slot)
}

/// `RoaringBitmap::remove`: removes a value, and says whether it was present.
#[verifier::external_body]
fn bitmap_remove(bitmap: &mut RoaringBitmap, slot: u32) -> (present: bool)
    ensures
        bitmap_slots(*final(bitmap)) == bitmap_slots(*old(bitmap)).remove(slot as int),
        present == bitmap_slots(*old(bitmap)).contains(slot as int),
{
    bitmap.remove(slot)
}

/// `RoaringBitmap::insert_range` of a half-open range: adds every value in it.
#[verifier::external_body]
fn bitmap_insert_range(bitmap: &mut RoaringBitmap, first: u32, end: u32)
    requires
        first <= end,
    ensures
        bitmap_slots(*final(bitmap)) == bitmap_slots(*old(bitmap)).union(
            span(first as int, end - first),
        ),
{
    bitmap.insert_range(first..end);
}

/// `RoaringBitmap::remove_range` of a half-open range: removes every value in it.
#[verifier::external_body]
fn bitmap_remove_range(bitmap: &mut RoaringBitmap, first: u32, end: u32)
    requires
        first <= end,
    ensures
        bitmap_slots(*final(bitmap)) == bitmap_slots(*old(bitmap)).difference(
            span(first as int, end - first),
        ),
{
    bitmap.remove_range(first..end);
}

/// `RoaringBitmap::contains`: whether a value is in the set.
#[verifier::external_body]
fn bitmap_contains(bitmap: &RoaringBitmap, slot: u32) -> (present: bool)
    ensures
        present == bitmap_slots(*bitmap).contains(slot as int),
{
    bitmap.contains(slot)
}

/// `RoaringBitmap::len`: the number of values in the set.
#[verifier::external_body]
fn bitmap_len(bitmap: &RoaringBitmap) -> (len: u64)
    ensures
        len == bitmap_slots(*bitmap).len(),
{
    bitmap.len()
}

/// `RoaringBitmap::min`: the least value in the set, or `None` if the set is empty.
#[verifier::external_body]
fn bitmap_min(bitmap: &RoaringBitmap) -> (min: Option<u32>)
    ensures
        min is None <==> bitmap_slots(*bitmap) == Set::<int>::empty(),
        min matches Some(slot) ==> bitmap_slots(*bitmap).contains(slot as int) && (forall|s: int|
            bitmap_slots(*bitmap).contains(s) ==> slot <= s),
{
    bitmap.min()
}

/// `RoaringBitmap::clear`: removes every value.
#[verifier::external_body]
fn bitmap_clear(bitmap: &mut RoaringBitmap)
    ensures
        bitmap_slots(*final(bitmap)) == Set::<int>::empty(),
{
    bitmap.clear();
}

/// `RoaringBitmap::iter`: the values of the set in ascending order, each once.
#[verifier::external_body]
fn bitmap_values(bitmap: &RoaringBitmap) -> (values: Vec<u32>)
    ensures
        forall|i: int, j: int| 0 <= i < j < values@.len() ==> values@[i] < values@[j],
        forall|i: int|
            0 <= i < values@.len() ==> bitmap_slots(*bitmap).contains(#[trigger] values@[i] as int),
        forall|s: int|
            bitmap_slots(*bitmap).contains(s) ==> exists|i: int|
                0 <= i < values@.len() && values@[i] == s,
{
    bitmap.iter().collect()
}

/// A set of slot numbers.
pub struct SlotSet {
    pub bits: RoaringBitmap,
}

impl View for SlotSet {
    type V = Set<int>;

    open spec fn view(&self) -> Set<int> {
        bitmap_slots(self.bits)
    }
}

/// A run of consecutive integers is a finite set of as many elements.
pub proof fn lemma_span_len(start: int, size: int)
    requires
        size >= 0,
    ensures
        span(start, size).finite(),
        span(start, size).len() == size,
    decreases size,
{
    if size == 0 {
        assert(span(start, size) =~= Set::<int>::empty());
    } else {
        lemma_span_len(start, size - 1);
        assert(span(start, size) =~= span(start, size - 1).insert(start + size - 1));
    }
}

/// A set of integers within a range is finite and no larger than the range.
pub proof fn lemma_bounded_set(s: Set<int>, limit: int)
    requires
        limit >= 0,
        forall|x: int| s.contains(x) ==> 0 <= x < limit,
    ensures
        s.finite(),
        s.len() <= limit,
{
    lemma_span_len(0, limit);
    assert(s.subset_of(span(0, limit)));
    vstd::set_lib::lemma_set_subset_finite(span(0, limit), s);
    vstd::set_lib::lemma_len_subset(s, span(0, limit));
}

/// The total length of maximal segments is the number of elements they hold.
pub proof fn lemma_segs_len(segs: Seq<(u64, u64)>)
    requires
        segs_wf(segs),
    ensures
        segs_set(segs).finite(),
        segs_set(segs).len() == total_size(segs),
    decreases segs.len(),
{
    if segs.len() == 0 {
        assert(segs_set(segs) =~= Set::<int>::empty());
    } else {
        let d = segs.drop_last();
        let l = segs.last();
        assert(forall|i: int| 0 <= i < d.len() ==> d[i] == segs[i]);
        lemma_segs_len(d);
        lemma_span_len(l.0 as int, l.1 as int);
        assert(d.push(l) =~= segs);
        assert forall|o: int| segs_set(segs).contains(o) <==> segs_set(d).union(
            span(l.0 as int, l.1 as int),
        ).contains(o) by {
            lemma_have_push(d, l, o);
        }
        assert(segs_set(segs) =~= segs_set(d).union(span(l.0 as int, l.1 as int)));
        assert forall|o: int| !(segs_set(d).contains(o) && span(l.0 as int, l.1 as int).contains(
            o,
        )) by {
            if segs_have(d, o) {
                let i = choose|i: int|
                    0 <= i < d.len() && (#[trigger] d[i]).0 <= o < d[i].0 + d[i].1;
                assert(segs[i].0 + segs[i].1 < segs[segs.len() - 1].0);
            }
        }
        assert(segs_set(d).disjoint(span(l.0 as int, l.1 as int)));
        vstd::set_lib::lemma_set_disjoint_lens(segs_set(d), span(l.0 as int, l.1 as int));
    }
}

impl SlotSet {
    /// All members are below `limit`, which is the number of slots of a slab.
    pub open spec fn below(&self, limit: int) -> bool {
        forall|s: int| self@.contains(s) ==> 0 <= s < limit
    }

    pub fn new() -> (r: SlotSet)
        ensures
            r@ == Set::<int>::empty(),
    {
        SlotSet { bits: bitmap_new() }
    }

    pub fn insert(&mut self, slot: u32) -> (absent: bool)
        ensures
            final(self)@ == old(self)@.insert(slot as int),
            absent == !old(self)@.contains(slot as int),
    {
        bitmap_insert(&mut self.bits, slot)
    }

    pub fn remove(&mut self, slot: u32) -> (present: bool)
        ensures
            final(self)@ == old(self)@.remove(slot as int),
            present == old(self)@.contains(slot as int),
    {
        bitmap_remove(&mut self.bits, slot)
    }

    pub fn insert_range(&mut self, first: u32, end: u32)
        requires
            first <= end,
        ensures
            final(self)@ == old(self)@.union(span(first as int, end - first)),
    {
        bitmap_insert_range(&mut self.bits, first, end)
    }

    pub fn remove_range(&mut self, first: u32, end: u32)
        requires
            first <= end,
        ensures
            final(self)@ == old(self)@.difference(span(first as int, end - first)),
    {
        bitmap_remove_range(&mut self.bits, first, end)
    }

    pub fn contains(&self, slot: u32) -> (present: bool)
        ensures
            present == self@.contains(slot as int),
    {
        bitmap_contains(&self.bits, slot)
    }

    pub fn len(&self) -> (len: u64)
        ensures
            len == self@.len(),
    {
        bitmap_len(&self.bits)
    }

    pub fn min(&self) -> (min: Option<u32>)
        ensures
            min is None <==> self@ == Set::<int>::empty(),
            min matches Some(slot) ==> self@.contains(slot as int) && (forall|s: int|
                self@.contains(s) ==> slot <= s),
    {
        bitmap_min(&self.bits)
    }

    pub fn clear(&mut self)
        ensures
            final(self)@ == Set::<int>::empty(),
    {
        bitmap_clear(&mut self.bits)
    }

    /// The maximal ranges of members, as first and number, in ascending order.
    pub fn iter_runs(&self) -> (r: Vec<(u64, u64)>)
        ensures
            segs_wf(r@),
            segs_set(r@) == self@,
            total_size(r@) == self@.len(),
    {
        let values = bitmap_values(&self.bits);
        let mut r: Vec<(u64, u64)> = Vec::new();
        let mut i: usize = 0;
        while i < values.len()
            invariant
                i <= values@.len(),
                forall|a: int, b: int| 0 <= a < b < values@.len() ==> values@[a] < values@[b],
                segs_wf(r@),
                i == 0 ==> r@.len() == 0,
                i > 0 ==> r@.len() > 0 && r@.last().0 + r@.last().1 == values@[i - 1] + 1,
                forall|o: int|
                    segs_have(r@, o) <==> exists|k: int| 0 <= k < i && values@[k] == o,
            decreases values@.len() - i,
        {
            let slot: u64 = values[i] as u64;
            let n = r.len();
            let ghost r0 = r@;
            if n > 0 && r[n - 1].0 + r[n - 1].1 == slot {
                let (first, count) = r[n - 1];
                r.set(n - 1, (first, count + 1));
                proof {
                    assert(r0.drop_last().push((first, count)) =~= r0);
                    assert(r@ =~= r0.drop_last().push((first, (count + 1) as u64)));
                    assert(forall|k: int| 0 <= k < n - 1 ==> r@[k] == r0[k]);
                    assert forall|o: int| segs_have(r@, o) <==> segs_have(r0, o) || o == slot by {
                        lemma_have_push(r0.drop_last(), (first, count), o);
                        lemma_have_push(r0.drop_last(), (first, (count + 1) as u64), o);
                    }
                }
            } else {
                proof {
                    if n > 0 {
                        assert(values@[i - 1] < values@[i as int]);
                    }
                    lemma_segs_push(r@, slot, 1);
                    assert forall|o: int|
                        segs_have(r@.push((slot, 1)), o) <==> segs_have(r0, o) || o == slot by {
                        lemma_have_push(r0, (slot, 1), o);
                    }
                }
                r.push((slot, 1));
            }
            i += 1;
            proof {
                assert forall|o: int| segs_have(r@, o) <==> exists|k: int|
                    0 <= k < i && values@[k] == o by {
                    if o == slot {
                        assert(values@[i - 1] == o);
                    }
                    if segs_have(r0, o) {
                        let k = choose|k: int| 0 <= k < i - 1 && values@[k] == o;
                        assert(values@[k] == o);
                    }
                }
            }
        }
        proof {
            assert(segs_set(r@) =~= self@);
            lemma_segs_len(r@);
        }
        r
    }

    /// The maximal ranges of slots below `limit` that are not members, as first and number, in
    /// ascending order.
    pub fn iter_inverse_runs(&self, limit: u64) -> (r: Vec<(u64, u64)>)
        requires
            self.below(limit as int),
        ensures
            segs_wf(r@),
            segs_set(r@) == span(0, limit as int).difference(self@),
            total_size(r@) == limit - self@.len(),
    {
        let runs = self.iter_runs();
        let mut total: u64 = 0;
        let mut i: usize = 0;
        proof {
            lemma_bounded_set(self@, limit as int);
            assert(runs@.take(0) =~= Seq::<(u64, u64)>::empty());
            assert(runs@.take(runs@.len() as int) =~= runs@);
        }
        while i < runs.len()
            invariant
                i <= runs@.len(),
                total == total_size(runs@.take(i as int)),
                total_size(runs@) <= u64::MAX,
                segs_wf(runs@),
            decreases runs@.len() - i,
        {
            proof {
                assert(runs@.take(i + 1) =~= runs@.take(i as int).push(runs@[i as int]));
                lemma_total_size_push(runs@.take(i as int), runs@[i as int]);
                lemma_total_size_prefix(runs@, i + 1);
            }
            total = total + runs[i].1;
            i += 1;
        }
        proof {
            assert(runs@.take(i as int) =~= runs@);
        }
        let tree = RangeTree { segs: runs, total };
        proof {
            assert forall|o: int| segs_have(tree.segs@, o) implies 0 <= o < limit by {
                assert(segs_set(runs@).contains(o));
            }
        }
        tree.iter_inverse(0, limit)
    }
}

proof fn lemma_total_size_prefix(segs: Seq<(u64, u64)>, n: int)
    requires
        0 <= n <= segs.len(),
    ensures
        total_size(segs.take(n)) <= total_size(segs),
{
    lemma_total_size_add(segs.take(n), segs.skip(n));
    assert(segs.take(n) + segs.skip(n) =~= segs);
    lemma_total_size_nonneg(segs.skip(n));
}

proof fn lemma_total_size_nonneg(segs: Seq<(u64, u64)>)
    ensures
        total_size(segs) >= 0,
    decreases segs.len(),
{
    if segs.len() > 0 {
        lemma_total_size_nonneg(segs.drop_last());
    }
}

/// Inclusive ranges in ascending order with a gap between any two of them, which together hold
/// exactly the members of a set.
pub open spec fn inclusive_ranges_of(ranges: Seq<(u32, u32)>, set: Set<int>) -> bool {
    &&& forall|i: int| 0 <= i < ranges.len() ==> (#[trigger] ranges[i]).0 <= ranges[i].1
    &&& forall|i: int, j: int|
        0 <= i < j < ranges.len() ==> (#[trigger] ranges[i]).1 + 1 < (#[trigger] ranges[j]).0
    &&& forall|s: int|
        set.contains(s) <==> exists|i: int|
            0 <= i < ranges.len() && (#[trigger] ranges[i]).0 <= s <= ranges[i].1
}

/// Walks over the ranges of set bits of a bitmap, in ascending order.
pub struct BitmapRangeIter {
    /// The members.
    pub values: Vec<u32>,
    /// How many of them have been passed.
    pub passed: usize,
}

/// A range of members that no other member touches, with none before it.
pub open spec fn is_first_range(set: Set<int>, first: int, last: int) -> bool {
    &&& first <= last
    &&& forall|s: int| first <= s <= last ==> set.contains(s)
    &&& !set.contains(last + 1)
    &&& forall|s: int| set.contains(s) ==> first <= s
}

impl BitmapRangeIter {
    pub open spec fn wf(&self) -> bool {
        &&& self.passed <= self.values@.len()
        &&& forall|a: int, b: int|
            0 <= a < b < self.values@.len() ==> self.values@[a] < self.values@[b]
    }

    /// The members that have not been passed.
    pub open spec fn left(&self) -> Set<int> {
        Set::new(
            |s: int|
                exists|k: int|
                    self.passed <= k < self.values@.len() && #[trigger] self.values@[k] == s,
        )
    }

    /// The next range, as first and last member, both of them inside the range.
    pub fn next(&mut self) -> (r: Option<(u32, u32)>)
        requires
            old(self).wf(),
        ensures
            final(self).wf(),
            final(self).values == old(self).values,
            match r {
                Some((first, last)) => {
                    &&& is_first_range(old(self).left(), first as int, last as int)
                    &&& final(self).left() == old(self).left().difference(
                        span(first as int, last - first + 1),
                    )
                    &&& final(self).passed > old(self).passed
                },
                None => {
                    &&& old(self).left() == Set::<int>::empty()
                    &&& *final(self) == *old(self)
                },
            },
    {
        let ghost a = *self;
        let ghost v = self.values@;
        let n = self.values.len();
        if self.passed == n {
            assert(self.left() =~= Set::<int>::empty());
            return None;
        }
        let first: u32 = self.values[self.passed];
        let mut last: u32 = first;
        self.passed = self.passed + 1;
        while self.passed < n && self.values[self.passed] - last == 1
            invariant
                self.wf(),
                self.values == a.values,
                v == a.values@,
                n == v.len(),
                a.passed < self.passed <= n,
                first == v[a.passed as int],
                last == v[self.passed - 1],
                forall|k: int|
                    a.passed <= k < self.passed ==> #[trigger] v[k] == first + (k - a.passed),
            decreases n - self.passed,
        {
            last = self.values[self.passed];
            self.passed = self.passed + 1;
        }
        proof {
            let p = self.passed as int;
            assert(last == first + (p - 1 - a.passed));
            assert forall|s: int| first <= s <= last implies a.left().contains(s) by {
                assert(v[a.passed + (s - first)] == s);
            }
            assert(!a.left().contains(last + 1)) by {
                if a.left().contains(last + 1) {
                    let k = choose|k: int| a.passed <= k < v.len() && #[trigger] v[k] == last + 1;
                    if k > p {
                        assert(v[p] < v[k]);
                    }
                }
            }
            assert forall|s: int| a.left().contains(s) implies first <= s by {
                let k = choose|k: int| a.passed <= k < v.len() && #[trigger] v[k] == s;
                assert(k == a.passed || v[a.passed as int] < v[k]);
            }
            assert forall|s: int|
                self.left().contains(s) <==> a.left().contains(s) && !(first <= s <= last) by {
                if self.left().contains(s) {
                    let k = choose|k: int| p <= k < v.len() && #[trigger] v[k] == s;
                    assert(v[p - 1] < v[k]);
                    assert(a.left().contains(s));
                }
                if a.left().contains(s) && !(first <= s <= last) {
                    let k = choose|k: int| a.passed <= k < v.len() && #[trigger] v[k] == s;
                    assert(k >= p);
                }
            }
            assert(self.left() =~= a.left().difference(span(first as int, last - first + 1)));
        }
        Some((first, last))
    }

    /// All ranges that are left.
    pub fn collect(self) -> (r: Vec<(u32, u32)>)
        requires
            self.wf(),
        ensures
            inclusive_ranges_of(r@, self.left()),
    {
        let mut iter = self;
        let mut r: Vec<(u32, u32)> = Vec::new();
        let mut done = false;
        let ghost all = self.left();
        let ghost mut seen: Set<int> = Set::empty();
        assert(all.difference(seen) =~= all);
        while !done
            invariant
                iter.wf(),
                inclusive_ranges_of(r@, seen),
                iter.left() == all.difference(seen),
                seen.subset_of(all),
                done ==> iter.left() == Set::<int>::empty(),
                r@.len() > 0 ==> forall|s: int|
                    #[trigger] iter.left().contains(s) ==> r@.last().1 + 1 < s,
            decreases iter.values@.len() - iter.passed + if done {
                0int
            } else {
                1
            },
        {
            let ghost before = iter;
            let ghost r0 = r@;
            match iter.next() {
                Some((first, last)) => {
                    r.push((first, last));
                    proof {
                        let s1 = seen.union(span(first as int, last - first + 1));
                        assert(before.left().contains(first as int));
                        assert forall|s: int| s1.contains(s) <==> exists|k: int|
                            0 <= k < r@.len() && (#[trigger] r@[k]).0 <= s <= r@[k].1 by {
                            if seen.contains(s) {
                                let k = choose|k: int|
                                    0 <= k < r0.len() && (#[trigger] r0[k]).0 <= s <= r0[k].1;
                                assert(r@[k].0 <= s <= r@[k].1);
                            }
                            if first <= s <= last {
                                assert(r@[r@.len() - 1].0 <= s <= r@[r@.len() - 1].1);
                            }
                            if exists|k: int|
                                0 <= k < r@.len() && (#[trigger] r@[k]).0 <= s <= r@[k].1 {
                                let k = choose|k: int|
                                    0 <= k < r@.len() && (#[trigger] r@[k]).0 <= s <= r@[k].1;
                                if k < r0.len() {
                                    assert(r0[k].0 <= s <= r0[k].1);
                                }
                            }
                        }
                        assert forall|x: int, y: int| 0 <= x < y < r@.len() implies (
                        #[trigger] r@[x]).1 + 1 < (#[trigger] r@[y]).0 by {
                            assert(r@[x] == r0[x]);
                            if y < r0.len() {
                                assert(r0[x].1 + 1 < r0[y].0);
                            } else if x < r0.len() - 1 {
                                assert(r0[x].1 + 1 < r0[r0.len() - 1].0);
                                assert(r0[r0.len() - 1].0 <= r0[r0.len() - 1].1);
                            }
                        }
                        assert(iter.left() =~= all.difference(s1));
                        assert forall|s: int| #[trigger] iter.left().contains(s) implies last + 1
                            < s by {
                            assert(before.left().contains(s));
                            assert(!span(first as int, last - first + 1).contains(s));
                        }
                        assert forall|s: int| s1.contains(s) implies all.contains(s) by {
                            if !seen.contains(s) {
                                assert(before.left().contains(s));
                            }
                        }
                        seen = s1;
                    }
                },
                None => {
                    done = true;
                },
            }
        }
        proof {
            assert forall|s: int| all.contains(s) implies seen.contains(s) by {
                if !seen.contains(s) {
                    assert(iter.left().contains(s));
                }
            }
            assert(seen =~= all);
        }
        r
    }
}

/// Ranges come in ascending order, and there is a gap between one and the next.
pub proof fn law_ranges_ascend(a: Set<int>, b: Set<int>, first: (int, int), second: (int, int))
    requires
        is_first_range(a, first.0, first.1),
        b == a.difference(span(first.0, first.1 - first.0 + 1)),
        is_first_range(b, second.0, second.1),
    ensures
        first.1 + 1 < second.0,
{
    assert(b.contains(second.0));
    assert(a.contains(second.0));
    assert(!span(first.0, first.1 - first.0 + 1).contains(second.0));
}

/// Once all members have been passed no range comes any more.
pub proof fn law_ranges_end(set: Set<int>, first: int, last: int)
    requires
        set == Set::<int>::empty(),
    ensures
        !is_first_range(set, first, last),
{
    if is_first_range(set, first, last) {
        assert(set.contains(first));
    }
}

/// The ranges of set bits of a bitmap.
pub fn iter_ranges(bitmap: &RoaringBitmap) -> (r: BitmapRangeIter)
    ensures
        r.wf(),
        r.left() == bitmap_slots(*bitmap),
{
    let values = bitmap_values(bitmap);
    let r = BitmapRangeIter { values, passed: 0 };
    proof {
        assert forall|s: int| bitmap_slots(*bitmap).contains(s) <==> r.left().contains(s) by {
            if r.left().contains(s) {
                let k = choose|k: int| 0 <= k < r.values@.len() && #[trigger] r.values@[k] == s;
                assert(bitmap_slots(*bitmap).contains(r.values@[k] as int));
            }
        }
        assert(r.left() =~= bitmap_slots(*bitmap));
    }
    r
}

} // verus!
