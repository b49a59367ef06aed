//! The writes that a writer thread has to make.
use vstd::prelude::*;

verus! {

/// A write that waits: where, and how many bytes.
#[derive(Debug, Clone, Copy, PartialEq, Eq, Structural)]
pub struct QueuedWrite {
    pub offset: u64,
    pub len: usize,
}

/// What a writer thread does next.
#[derive(Debug, PartialEq, Eq)]
pub enum WriterAction {
    /// There is nothing to write; wait for a message.
    Wait,
    /// Write these, which follow each other, with one call.
    WriteRun { run: Vec<QueuedWrite>, len: usize },
}

/// The writes that wait, in order of their offsets.
pub struct WriteQueue {
    pub sorted: Vec<QueuedWrite>,
    /// Where the last write was made.
    pub prev_offset: u64,
    /// Writes are not joined to more than this.
    pub max_aggregation: usize,
}

/// Offsets in ascending order, none twice.
pub open spec fn offsets_ascend(s: Seq<QueuedWrite>) -> bool {
    forall|i: int, j: int|
        0 <= i < j < s.len() ==> (#[trigger] s[i]).offset < (#[trigger] s[j]).offset
}

/// The bytes of the writes from `i` up to `j`.
pub open spec fn run_len(s: Seq<QueuedWrite>, i: int, j: int) -> int
    decreases j - i,
{
    if j <= i {
        0
    } else {
        run_len(s, i, j - 1) + s[j - 1].len
    }
}

/// The writes from `i` up to `j` follow each other, and are not more than `most` together.
pub open spec fn is_run(s: Seq<QueuedWrite>, i: int, j: int, most: int) -> bool {
    &&& 0 <= i < j <= s.len()
    &&& forall|k: int|
        i < k < j ==> (#[trigger] s[k]).offset == s[i].offset + run_len(s, i, k)
    &&& forall|k: int|
        i < k < j ==> run_len(s, i, k) > 0 ==> run_len(s, i, k) + (#[trigger] s[k]).len
            <= most
}

/// The next write cannot be joined to the run.
pub open spec fn run_ends(s: Seq<QueuedWrite>, i: int, j: int, most: int) -> bool {
    j < s.len() ==> {
        ||| s[j].offset != s[i].offset + run_len(s, i, j)
        ||| run_len(s, i, j) > 0 && run_len(s, i, j) + s[j].len > most
    }
}

/// The place of the first write that is not before the last one made; the first of all, if
/// there is none.
pub open spec fn is_next(s: Seq<QueuedWrite>, prev: u64, i: int) -> bool {
    &&& 0 <= i < s.len()
    &&& if s[i].offset >= prev {
        forall|k: int| 0 <= k < i ==> (#[trigger] s[k]).offset < prev
    } else {
        i == 0 && forall|k: int| 0 <= k < s.len() ==> (#[trigger] s[k]).offset < prev
    }
}

/// The writes fit on the disk.
pub open spec fn writes_fit(s: Seq<QueuedWrite>) -> bool {
    &&& forall|i: int|
        0 <= i < s.len() ==> (#[trigger] s[i]).offset + s[i].len <= u64::MAX
    &&& run_len(s, 0, s.len() as int) <= usize::MAX
}

proof fn lemma_run_len_part(s: Seq<QueuedWrite>, i: int, j: int)
    requires
        0 <= i <= j <= s.len(),
    ensures
        0 <= run_len(s, i, j) <= run_len(s, 0, s.len() as int),
    decreases s.len() - j, i,
{
    lemma_run_len_from(s, i, j);
    if j < s.len() {
        lemma_run_len_part(s, i, j + 1);
    } else if i > 0 {
        lemma_run_len_part(s, i - 1, j);
        lemma_run_len_shift(s, i - 1, j);
    }
}

proof fn lemma_run_len_from(s: Seq<QueuedWrite>, i: int, j: int)
    ensures
        0 <= run_len(s, i, j),
    decreases j - i,
{
    if i < j {
        lemma_run_len_from(s, i, j - 1);
    }
}

proof fn lemma_run_len_shift(s: Seq<QueuedWrite>, i: int, j: int)
    requires
        0 <= i < j <= s.len(),
    ensures
        run_len(s, i, j) == s[i].len + run_len(s, i + 1, j),
    decreases j - i,
{
    if i + 1 < j {
        lemma_run_len_shift(s, i, j - 1);
    } else {
        assert(run_len(s, i, j) == run_len(s, i, i) + s[i].len);
    }
}

/// Whether a write can be joined to a run without making it too long.
fn can_join(len: usize, more: usize, most: usize) -> (r: bool)
    ensures
        r <==> len == 0 || len + more <= most,
{
    len == 0 || (len <= most && more <= most - len)
}

impl WriteQueue {
    pub open spec fn wf(&self) -> bool {
        offsets_ascend(self.sorted@)
    }

    pub fn new(max_aggregation: usize) -> (r: WriteQueue)
        ensures
            r.wf(),
            r.sorted@.len() == 0,
            r.prev_offset == 0,
            r.max_aggregation == max_aggregation,
    {
        WriteQueue { sorted: Vec::new(), prev_offset: 0, max_aggregation }
    }

    /// Adds a write. Returns false if there is one at that offset already, which is an error.
    pub fn push(&mut self, write: QueuedWrite) -> (r: bool)
        requires
            old(self).wf(),
        ensures
            final(self).wf(),
            final(self).prev_offset == old(self).prev_offset,
            final(self).max_aggregation == old(self).max_aggregation,
            r <==> forall|i: int|
                0 <= i < old(self).sorted@.len() ==> (#[trigger] old(self).sorted@[i]).offset
                    != write.offset,
            !r ==> *final(self) == *old(self),
            r ==> exists|i: int|
                0 <= i <= old(self).sorted@.len() && final(self).sorted@ == #[trigger] old(
                    self).sorted@.insert(i, write),
    {
        let ghost s = self.sorted@;
        let mut i: usize = 0;
        while i < self.sorted.len() && self.sorted[i].offset < write.offset
            invariant
                i <= self.sorted@.len(),
                self.sorted@ == s,
                forall|k: int| 0 <= k < i ==> (#[trigger] s[k]).offset < write.offset,
            decreases self.sorted@.len() - i,
        {
            i += 1;
        }
        if i < self.sorted.len() && self.sorted[i].offset == write.offset {
            assert(s[i as int].offset == write.offset);
            return false;
        }
        self.sorted.insert(i, write);
        proof {
            let t = self.sorted@;
            assert(t =~= s.insert(i as int, write));
            assert forall|k: int| i <= k < s.len() implies (#[trigger] s[k]).offset
                > write.offset by {
                if k > i {
                    assert(s[i as int].offset < s[k].offset);
                }
            }
            assert forall|x: int, y: int| 0 <= x < y < t.len() implies (#[trigger] t[x]).offset < (
            #[trigger] t[y]).offset by {
                let x0 = if x > i { x - 1 } else { x };
                let y0 = if y > i { y - 1 } else { y };
                if x != i {
                    assert(t[x] == s[x0]);
                }
                if y != i {
                    assert(t[y] == s[y0]);
                }
                if x != i && y != i {
                    assert(s[x0].offset < s[y0].offset);
                }
            }
        }
        true
    }

    /// The run of writes that comes next, from place `r.0` up to place `r.1`, and its bytes.
    fn find_run(&self) -> (r: (usize, usize, usize))
        requires
            self.wf(),
            self.sorted@.len() > 0,
            writes_fit(self.sorted@),
        ensures
            is_next(self.sorted@, self.prev_offset, r.0 as int),
            is_run(self.sorted@, r.0 as int, r.1 as int, self.max_aggregation as int),
            run_ends(self.sorted@, r.0 as int, r.1 as int, self.max_aggregation as int),
            r.2 == run_len(self.sorted@, r.0 as int, r.1 as int),
    {
        let ghost s = self.sorted@;
        let mut first: usize = 0;
        while first < self.sorted.len() && self.sorted[first].offset < self.prev_offset
            invariant
                s == self.sorted@,
                first <= s.len(),
                forall|k: int| 0 <= k < first ==> (#[trigger] s[k]).offset < self.prev_offset,
            decreases s.len() - first,
        {
            first += 1;
        }
        if first == self.sorted.len() {
            first = 0;
        }
        let ghost i = first as int;
        let mut next: usize = first + 1;
        let mut len: usize = self.sorted[first].len;
        proof {
            assert(run_len(s, i, i) == 0);
            assert(run_len(s, i, i + 1) == s[i].len);
        }
        while next < self.sorted.len() && can_join(len, self.sorted[next].len, self.max_aggregation)
            && self.sorted[next].offset - self.sorted[first].offset == len as u64
            invariant
                s == self.sorted@,
                self.wf(),
                writes_fit(s),
                i == first,
                0 <= i < next <= s.len(),
                len == run_len(s, i, next as int),
                is_run(s, i, next as int, self.max_aggregation as int),
            decreases s.len() - next,
        {
            proof {
                lemma_run_len_part(s, i, next + 1);
                assert(s[i].offset < s[next as int].offset);
            }
            len = len + self.sorted[next].len;
            next += 1;
        }
        proof {
            if next < s.len() {
                assert(s[i].offset < s[next as int].offset);
            }
        }
        (first, next, len)
    }

    /// What to do next. The writes of a run leave the queue; they are to be made with one call,
    /// in their order, at the place of the first.
    pub fn next_write(&mut self) -> (r: WriterAction)
        requires
            old(self).wf(),
            writes_fit(old(self).sorted@),
        ensures
            final(self).wf(),
            final(self).max_aggregation == old(self).max_aggregation,
            match r {
                WriterAction::Wait => {
                    &&& old(self).sorted@.len() == 0
                    &&& *final(self) == *old(self)
                },
                WriterAction::WriteRun { run, len } => exists|i: int, j: int|
                    #![trigger is_run(old(self).sorted@, i, j, old(self).max_aggregation as int)]
                    {
                        let s = old(self).sorted@;
                        &&& is_next(s, old(self).prev_offset, i)
                        &&& is_run(s, i, j, old(self).max_aggregation as int)
                        &&& run_ends(s, i, j, old(self).max_aggregation as int)
                        &&& run@ == s.subrange(i, j)
                        &&& len == run_len(s, i, j)
                        &&& final(self).sorted@ == s.take(i) + s.skip(j)
                        &&& final(self).prev_offset == s[i].offset
                    },
            },
    {
        if self.sorted.len() == 0 {
            return WriterAction::Wait;
        }
        let (first, next, len) = self.find_run();
        let ghost s = self.sorted@;
        let mut run: Vec<QueuedWrite> = Vec::new();
        let mut rest: Vec<QueuedWrite> = Vec::new();
        let mut i: usize = 0;
        while i < self.sorted.len()
            invariant
                s == self.sorted@,
                i <= s.len(),
                first < next <= s.len(),
                run@ == if i <= first {
                    Seq::<QueuedWrite>::empty()
                } else if i <= next {
                    s.subrange(first as int, i as int)
                } else {
                    s.subrange(first as int, next as int)
                },
                rest@ == if i <= first {
                    s.take(i as int)
                } else if i <= next {
                    s.take(first as int)
                } else {
                    s.take(first as int) + s.subrange(next as int, i as int)
                },
            decreases s.len() - i,
        {
            if first <= i && i < next {
                run.push(self.sorted[i]);
            } else {
                rest.push(self.sorted[i]);
            }
            i += 1;
            proof {
                if i == next + 1 {
                    assert(rest@ =~= s.take(first as int) + s.subrange(next as int, i as int));
                }
            }
        }
        assert(rest@ =~= s.take(first as int) + s.skip(next as int));
        self.prev_offset = run[0].offset;
        self.sorted = rest;
        proof {
            let t = rest@;
            assert forall|x: int, y: int| 0 <= x < y < t.len() implies (#[trigger] t[x]).offset < (
            #[trigger] t[y]).offset by {
                let x0 = if x < first { x } else { x + (next - first) };
                let y0 = if y < first { y } else { y + (next - first) };
                assert(t[x] == s[x0]);
                assert(t[y] == s[y0]);
            }
            assert(is_run(s, first as int, next as int, self.max_aggregation as int));
        }
        WriterAction::WriteRun { run, len }
    }
}

/// The writes of a run cover one piece of the disk, without gaps or overlaps, and a run of more
/// than one write is not too long.
pub proof fn law_run_is_contiguous(s: Seq<QueuedWrite>, i: int, j: int, k: int, most: int)
    requires
        is_run(s, i, j, most),
        i <= k < j,
    ensures
        s[k].offset == s[i].offset + run_len(s, i, k),
        k + 1 < j ==> s[k + 1].offset == s[k].offset + s[k].len,
        offsets_ascend(s) && j > i + 1 ==> run_len(s, i, j) <= most,
{
    assert(run_len(s, i, i) == 0);
    if k + 1 < j {
        assert(s[k + 1].offset == s[i].offset + run_len(s, i, k + 1));
    }
    if offsets_ascend(s) && j > i + 1 {
        assert(s[i].offset < s[j - 1].offset);
        assert(s[j - 1].offset == s[i].offset + run_len(s, i, j - 1));
    }
}

/// A run is as long as it can be: the write behind it cannot be part of it.
pub proof fn law_run_is_longest(s: Seq<QueuedWrite>, i: int, j: int, most: int)
    requires
        is_run(s, i, j, most),
        run_ends(s, i, j, most),
        j < s.len(),
    ensures
        !is_run(s, i, j + 1, most),
        s[j].offset != s[j - 1].offset + s[j - 1].len || run_len(s, i, j) + s[j].len > most,
{
    if is_run(s, i, j + 1, most) {
        assert(s[j].offset == s[i].offset + run_len(s, i, j));
    }
    law_run_is_contiguous(s, i, j, j - 1, most);
}

/// The bytes of a run are those of its writes.
pub proof fn law_run_len(s: Seq<QueuedWrite>, i: int, j: int)
    requires
        0 <= i < j <= s.len(),
    ensures
        run_len(s, i, i) == 0,
        run_len(s, i, j) == run_len(s, i, j - 1) + s[j - 1].len,
        run_len(s, i, i + 1) == s[i].len,
{
    reveal_with_fuel(run_len, 2);
}

/// Writes are issued in one direction: next is the one with the least offset that is not before
/// the previous position, and the one with the least offset of all if there is none.
pub proof fn law_next_is_nearest(s: Seq<QueuedWrite>, prev: u64, i: int)
    requires
        offsets_ascend(s),
        is_next(s, prev, i),
    ensures
        s[i].offset >= prev ==> forall|k: int|
            0 <= k < s.len() && (#[trigger] s[k]).offset >= prev ==> s[i].offset <= s[k].offset,
        s[i].offset < prev ==> forall|k: int|
            0 <= k < s.len() ==> (#[trigger] s[k]).offset < prev && s[i].offset <= s[k].offset,
{
    if s[i].offset >= prev {
        assert forall|k: int| 0 <= k < s.len() && (
        #[trigger] s[k]).offset >= prev implies s[i].offset <= s[k].offset by {
            if k > i {
                assert(s[i].offset < s[k].offset);
            }
        }
    } else {
        assert forall|k: int| 0 <= k < s.len() implies (#[trigger] s[k]).offset < prev
            && s[i].offset <= s[k].offset by {
            if k > 0 {
                assert(s[0].offset < s[k].offset);
            }
        }
    }
}

} // verus!
