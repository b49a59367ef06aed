//! Joins small writes that follow each other into larger ones.
use crate::base_types::{DiskLocation, SECTOR};
use vstd::prelude::*;

verus! {

/// A write that has not been issued yet.
pub struct PendingWrite {
    pub location: DiskLocation,
    pub bytes: Vec<u8>,
    /// How many bytes may be joined.
    pub capacity: usize,
}

impl PendingWrite {
    pub open spec fn wf(&self) -> bool {
        &&& self.location.wf()
        &&& self.bytes@.len() > 0
        &&& self.bytes@.len() <= self.capacity
        &&& self.bytes@.len() % SECTOR as nat == 0
        &&& self.location.off() + self.bytes@.len() <= u64::MAX
    }
}

/// Collects writes. A write that does not join the ones before it has these issued first.
pub struct AggregatingWriter {
    pub capacity: usize,
    pub pending: Option<PendingWrite>,
}

/// A write of whole sectors.
pub open spec fn write_ok(location: DiskLocation, data: Seq<u8>) -> bool {
    &&& location.wf()
    &&& data.len() > 0
    &&& data.len() % SECTOR as nat == 0
    &&& location.off() + data.len() <= u64::MAX
}

/// What is on the disks, by disk and offset; this is it after a write.
pub open spec fn written(
    disks: Map<(int, int), u8>,
    location: DiskLocation,
    data: Seq<u8>,
) -> Map<(int, int), u8> {
    disks.union_prefer_right(
        Map::new(
            |at: (int, int)|
                at.0 == location.disk_no() && location.off() <= at.1 < location.off() + data.len(),
            |at: (int, int)| data[at.1 - location.off()],
        ),
    )
}

/// Two writes that follow each other are the same as one with the bytes of both.
proof fn lemma_joined_writes(
    disks: Map<(int, int), u8>,
    x: DiskLocation,
    a: Seq<u8>,
    y: DiskLocation,
    b: Seq<u8>,
)
    requires
        y.disk_no() == x.disk_no(),
        y.off() == x.off() + a.len(),
    ensures
        written(written(disks, x, a), y, b) == written(disks, x, a + b),
{
    let l = written(written(disks, x, a), y, b);
    let r = written(disks, x, a + b);
    assert(l.dom() =~= r.dom());
    assert forall|at: (int, int)| l.dom().contains(at) implies #[trigger] l[at] == r[at] by {
        if at.0 == x.disk_no() && x.off() <= at.1 < y.off() {
            assert((a + b)[at.1 - x.off()] == a[at.1 - x.off()]);
        } else if at.0 == x.disk_no() && y.off() <= at.1 < y.off() + b.len() {
            assert((a + b)[at.1 - x.off()] == b[at.1 - y.off()]);
        }
    }
    assert(l =~= r);
}

/// What will be on the disks once a pending write has been made.
pub open spec fn after_write(
    disks: Map<(int, int), u8>,
    write: Option<PendingWrite>,
) -> Map<(int, int), u8> {
    match write {
        Some(p) => written(disks, p.location, p.bytes@),
        None => disks,
    }
}

/// What a write does to the writer; `issued` is the write that has to be issued now.
pub open spec fn took_write(
    before: AggregatingWriter,
    location: DiskLocation,
    data: Seq<u8>,
    after: AggregatingWriter,
    issued: Option<PendingWrite>,
) -> bool {
    &&& after.capacity == before.capacity
    &&& after.pending matches Some(p)
    &&& if before.joins(location, data) {
        &&& issued is None
        &&& p.location == before.pending->0.location
        &&& p.bytes@ == before.pending->0.bytes@ + data
        &&& p.capacity == before.pending->0.capacity
    } else {
        &&& issued == before.pending
        &&& p.location == location
        &&& p.bytes@ == data
        &&& p.capacity == if data.len() > before.capacity {
            data.len()
        } else {
            before.capacity as nat
        }
    }
}

/// No write is lost: what will be on the disks once the pending write has been made is the same
/// as if each write had been made at once.
pub proof fn law_writes_reach_disk(
    disks: Map<(int, int), u8>,
    before: AggregatingWriter,
    location: DiskLocation,
    data: Seq<u8>,
    after: AggregatingWriter,
    issued: Option<PendingWrite>,
)
    requires
        took_write(before, location, data, after, issued),
    ensures
        after_write(after_write(disks, issued), after.pending) == written(
            after_write(disks, before.pending),
            location,
            data,
        ),
{
    if before.joins(location, data) {
        let p = before.pending->0;
        lemma_joined_writes(disks, p.location, p.bytes@, location, data);
    }
}

impl AggregatingWriter {
    pub open spec fn wf(&self) -> bool {
        self.pending matches Some(p) ==> p.wf()
    }

    /// Whether the data join what is pending.
    pub open spec fn joins(&self, location: DiskLocation, data: Seq<u8>) -> bool {
        &&& self.pending matches Some(p)
        &&& location.disk_no() == p.location.disk_no()
        &&& location.off() == p.location.off() + p.bytes@.len()
        &&& p.bytes@.len() + data.len() <= p.capacity
    }

    pub fn new(capacity: usize) -> (r: Self)
        ensures
            r.wf(),
            r.capacity == capacity,
            r.pending is None,
    {
        AggregatingWriter { capacity, pending: None }
    }

    /// Adds a write. Returns the write that has to be issued now, if there is one.
    pub fn write(&mut self, location: DiskLocation, data: &Vec<u8>) -> (r: Option<PendingWrite>)
        requires
            old(self).wf(),
            write_ok(location, data@),
        ensures
            final(self).wf(),
            took_write(*old(self), location, data@, *final(self), r),
    {
        let flushed = self.pending.take();
        match flushed {
            Some(mut p) => {
                let len: usize = p.bytes.len();
                if p.location.disk().index() == location.disk().index() && p.location.offset() + (
                len as u64) == location.offset() && p.capacity - len >= data.len() {
                    extend(&mut p.bytes, data);
                    self.pending = Some(p);
                    return None;
                }
                self.pending = Some(self.start(location, data));
                Some(p)
            },
            None => {
                self.pending = Some(self.start(location, data));
                None
            },
        }
    }

    fn start(&self, location: DiskLocation, data: &Vec<u8>) -> (p: PendingWrite)
        requires
            write_ok(location, data@),
        ensures
            p.wf(),
            p.location == location,
            p.bytes@ == data@,
            p.capacity == if data@.len() > self.capacity {
                data@.len()
            } else {
                self.capacity as nat
            },
    {
        let mut bytes: Vec<u8> = Vec::new();
        extend(&mut bytes, data);
        assert(bytes@ =~= data@);
        let capacity: usize = if data.len() > self.capacity {
            data.len()
        } else {
            self.capacity
        };
        PendingWrite { location, bytes, capacity }
    }

    /// Ends the writing. Returns the write that has to be issued, if there is one.
    pub fn flush(self) -> (r: Option<PendingWrite>)
        requires
            self.wf(),
        ensures
            r == self.pending,
    {
        self.pending
    }
}

fn extend(dst: &mut Vec<u8>, src: &Vec<u8>)
    ensures
        final(dst)@ == old(dst)@ + src@,
{
    let ghost d0 = dst@;
    let mut i: usize = 0;
    while i < src.len()
        invariant
            i <= src@.len(),
            dst@ == d0 + src@.take(i as int),
        decreases src@.len() - i,
    {
        dst.push(src[i]);
        i += 1;
        assert(dst@ =~= d0 + src@.take(i as int));
    }
    assert(src@.take(i as int) =~= src@);
}

/// A write that starts where the pending one ends, and for which there is room, is joined to it,
/// and nothing is issued. Any other write takes the place of the pending one, which is issued.
pub proof fn law_adjacent_writes_join(
    before: AggregatingWriter,
    location: DiskLocation,
    data: Seq<u8>,
    after: AggregatingWriter,
    issued: Option<PendingWrite>,
)
    requires
        took_write(before, location, data, after, issued),
    ensures
        after.pending is Some,
        before.pending is None ==> issued is None && after.pending->0.location == location
            && after.pending->0.bytes@ == data,
        before.pending matches Some(p) ==> if location.disk_no() == p.location.disk_no()
            && location.off() == p.location.off() + p.bytes@.len() && p.bytes@.len() + data.len()
            <= p.capacity {
            &&& issued is None
            &&& after.pending->0.location == p.location
            &&& after.pending->0.bytes@ == p.bytes@ + data
        } else {
            &&& issued == Some(p)
            &&& after.pending->0.location == location
            &&& after.pending->0.bytes@ == data
        },
        before.pending is None || issued is Some ==> after.pending->0.capacity >= data.len()
            && after.pending->0.capacity >= before.capacity,
{
}

} // verus!
