//! Slabs that are divided into slots of equal size.
use crate::base_types::{DiskLocation, Extent, MAX_DISK_ID};
use crate::bitmap_range_iterator::{lemma_bounded_set, lemma_span_len, SlotSet};
use crate::range_tree::{
    lemma_have_push, lemma_runs_exist, lemma_runs_of, runs_of, segs_have, segs_set, segs_wf, span,
};
use crate::slab_allocator::lemma_multiple_of_sector;
use crate::space_map::{
    apply_entry, changed_extent, continued, extent_bytes, law_replay_append, lemma_continued,
    lemma_replay_push, replay, replayable, SpaceMap, SpaceMapEntry,
};
use vstd::prelude::*;

verus! {

/// The most slots that a slab can have.
pub const MAX_SLOTS: u32 = 65535;

/// The offsets of a set of units of `unit` bytes, the first of which starts at `base`.
pub open spec fn scaled(units: Set<int>, base: int, unit: int) -> Set<int> {
    Set::new(|o: int| base <= o && units.contains((o - base) / unit))
}

pub proof fn lemma_unit_of(o: int, a: int, n: int, unit: int)
    requires
        unit > 0,
        0 <= o,
        0 <= a,
        0 <= n,
    ensures
        a <= o / unit < a + n <==> a * unit <= o < a * unit + n * unit,
{
    assert(a <= o / unit <==> a * unit <= o) by (nonlinear_arith)
        requires
            unit > 0,
            0 <= o,
            0 <= a,
    ;
    let b = a + n;
    assert(o / unit < b <==> o < b * unit) by (nonlinear_arith)
        requires
            unit > 0,
            0 <= o,
            0 <= b,
    ;
    assert(b * unit == a * unit + n * unit) by (nonlinear_arith)
        requires
            b == a + n,
    ;
}

/// A run of units is a run of bytes.
pub proof fn lemma_scaled_span(a: int, n: int, base: int, unit: int)
    requires
        unit > 0,
        0 <= a,
        0 <= n,
        0 <= base,
    ensures
        scaled(span(a, n), base, unit) == span(base + a * unit, n * unit),
{
    assert(a * unit >= 0) by (nonlinear_arith)
        requires
            a >= 0,
            unit > 0,
    ;
    assert forall|o: int| scaled(span(a, n), base, unit).contains(o) <==> span(
        base + a * unit,
        n * unit,
    ).contains(o) by {
        if base <= o {
            lemma_unit_of(o - base, a, n, unit);
        }
    }
    assert(scaled(span(a, n), base, unit) =~= span(base + a * unit, n * unit));
}

pub proof fn lemma_scaled_ops(a: Set<int>, b: Set<int>, base: int, unit: int)
    ensures
        scaled(a.union(b), base, unit) == scaled(a, base, unit).union(scaled(b, base, unit)),
        scaled(a.difference(b), base, unit) == scaled(a, base, unit).difference(
            scaled(b, base, unit),
        ),
        a.disjoint(b) ==> scaled(a, base, unit).disjoint(scaled(b, base, unit)),
        a.subset_of(b) ==> scaled(a, base, unit).subset_of(scaled(b, base, unit)),
{
    assert(scaled(a.union(b), base, unit) =~= scaled(a, base, unit).union(scaled(b, base, unit)));
    assert(scaled(a.difference(b), base, unit) =~= scaled(a, base, unit).difference(
        scaled(b, base, unit),
    ));
    if a.disjoint(b) {
        assert forall|o: int|
            !(scaled(a, base, unit).contains(o) && scaled(b, base, unit).contains(o)) by {
            if scaled(a, base, unit).contains(o) {
                assert(a.contains((o - base) / unit));
            }
        }
    }
}

/// Every unit has `unit` bytes.
pub proof fn lemma_scaled_len(units: Set<int>, base: int, unit: int)
    requires
        units.finite(),
        forall|u: int| units.contains(u) ==> u >= 0,
        base >= 0,
        unit > 0,
    ensures
        scaled(units, base, unit).finite(),
        scaled(units, base, unit).len() == units.len() * unit,
    decreases units.len(),
{
    if units.len() == 0 {
        assert(units =~= Set::<int>::empty());
        assert(scaled(units, base, unit) =~= Set::<int>::empty());
    } else {
        let u = units.choose();
        let rest = units.remove(u);
        lemma_scaled_len(rest, base, unit);
        lemma_scaled_ops(rest, span(u, 1), base, unit);
        assert(rest.union(span(u, 1)) =~= units);
        lemma_scaled_span(u, 1, base, unit);
        assert(1 * unit == unit);
        lemma_span_len(base + u * unit, unit);
        vstd::set_lib::lemma_set_disjoint_lens(
            scaled(rest, base, unit),
            span(base + u * unit, unit),
        );
        let n = rest.len() as int;
        assert((n + 1) * unit == n * unit + unit) by (nonlinear_arith);
    }
}

/// The extent of a run of units.
pub open spec fn run_extent(disk: int, base: int, unit: int, run: (u64, u64)) -> Extent {
    Extent::at(disk, base + run.0 * unit, run.1 * unit)
}

/// One entry per run.
pub open spec fn alloc_entries_of(disk: int, base: int, unit: int, runs: Seq<(u64, u64)>) -> Seq<
    SpaceMapEntry,
> {
    runs.map_values(|run: (u64, u64)| SpaceMapEntry::Alloc(run_extent(disk, base, unit, run)))
}

pub open spec fn free_entries_of(disk: int, base: int, unit: int, runs: Seq<(u64, u64)>) -> Seq<
    SpaceMapEntry,
> {
    runs.map_values(|run: (u64, u64)| SpaceMapEntry::Free(run_extent(disk, base, unit, run)))
}

/// The runs lie on a disk, and units start on sector boundaries.
pub open spec fn runs_fit(disk: int, base: int, unit: int, runs: Seq<(u64, u64)>) -> bool {
    &&& 0 <= disk <= MAX_DISK_ID
    &&& 0 <= base
    &&& base % 512 == 0
    &&& unit > 0
    &&& forall|i: int|
        0 <= i < runs.len() ==> {
            &&& (#[trigger] runs[i]).0 * unit >= 0
            &&& (runs[i].0 * unit) % 512 == 0
            &&& runs[i].1 * unit >= 0
            &&& base + runs[i].0 * unit + runs[i].1 * unit <= u64::MAX
        }
}

proof fn lemma_run_bytes(disk: int, base: int, unit: int, run: (u64, u64))
    requires
        runs_fit(disk, base, unit, seq![run]),
    ensures
        extent_bytes(run_extent(disk, base, unit, run)) == scaled(
            span(run.0 as int, run.1 as int),
            base,
            unit,
        ),
{
    let runs = seq![run];
    assert(runs[0] == run);
    crate::base_types::law_location_round_trip(disk, base + run.0 * unit);
    lemma_scaled_span(run.0 as int, run.1 as int, base, unit);
}

pub proof fn lemma_segs_set_push(runs: Seq<(u64, u64)>, run: (u64, u64))
    ensures
        segs_set(runs.push(run)) == segs_set(runs).union(span(run.0 as int, run.1 as int)),
{
    assert forall|o: int| segs_set(runs.push(run)).contains(o) <==> segs_set(runs).union(
        span(run.0 as int, run.1 as int),
    ).contains(o) by {
        lemma_have_push(runs, run, o);
    }
    assert(segs_set(runs.push(run)) =~= segs_set(runs).union(span(run.0 as int, run.1 as int)));
}

/// The last of several maximal runs is apart from those before it.
proof fn lemma_last_run_apart(runs: Seq<(u64, u64)>)
    requires
        segs_wf(runs),
        runs.len() > 0,
    ensures
        segs_wf(runs.drop_last()),
        segs_set(runs.drop_last()).disjoint(
            span(runs.last().0 as int, runs.last().1 as int),
        ),
        segs_set(runs) == segs_set(runs.drop_last()).union(
            span(runs.last().0 as int, runs.last().1 as int),
        ),
{
    let d = runs.drop_last();
    let l = runs.last();
    assert(forall|i: int| 0 <= i < d.len() ==> d[i] == runs[i]);
    assert(d.push(l) =~= runs);
    lemma_segs_set_push(d, l);
    assert forall|o: int| !(segs_set(d).contains(o) && span(l.0 as int, l.1 as int).contains(
        o,
    )) by {
        if segs_have(d, o) {
            let i = choose|i: int| 0 <= i < d.len() && (#[trigger] d[i]).0 <= o < d[i].0 + d[i].1;
            assert(runs[i].0 + runs[i].1 < runs[runs.len() - 1].0);
        }
    }
}

/// Applying the entries of runs of units that are free leaves everything else free.
pub proof fn lemma_replay_allocs(
    free: Set<int>,
    disk: int,
    base: int,
    unit: int,
    runs: Seq<(u64, u64)>,
)
    requires
        segs_wf(runs),
        runs_fit(disk, base, unit, runs),
        scaled(segs_set(runs), base, unit).subset_of(free),
    ensures
        replayable(free, alloc_entries_of(disk, base, unit, runs)),
        replay(free, alloc_entries_of(disk, base, unit, runs)) == free.difference(
            scaled(segs_set(runs), base, unit),
        ),
    decreases runs.len(),
{
    let entries = alloc_entries_of(disk, base, unit, runs);
    if runs.len() == 0 {
        assert(segs_set(runs) =~= Set::<int>::empty());
        assert(free.difference(scaled(segs_set(runs), base, unit)) =~= free);
    } else {
        let d = runs.drop_last();
        let l = runs.last();
        lemma_last_run_apart(runs);
        assert(runs[runs.len() - 1] == l);
        assert forall|i: int| 0 <= i < d.len() implies ({
            &&& (#[trigger] d[i]).0 * unit >= 0
            &&& (d[i].0 * unit) % 512 == 0
            &&& d[i].1 * unit >= 0
            &&& base + d[i].0 * unit + d[i].1 * unit <= u64::MAX
        }) by {
            assert(d[i] == runs[i]);
        }
        let ls = span(l.0 as int, l.1 as int);
        lemma_scaled_ops(segs_set(d), ls, base, unit);
        assert(scaled(segs_set(d), base, unit).subset_of(free));
        lemma_replay_allocs(free, disk, base, unit, d);
        assert(seq![l][0] == l);
        lemma_run_bytes(disk, base, unit, l);
        let de = alloc_entries_of(disk, base, unit, d);
        let le = SpaceMapEntry::Alloc(run_extent(disk, base, unit, l));
        assert(entries =~= de.push(le));
        lemma_replay_push(free, de, le);
        assert(replay(free, entries) =~= free.difference(scaled(segs_set(runs), base, unit)));
    }
}

/// Applying the entries of runs of units that are not free makes them free.
pub proof fn lemma_replay_frees(
    free: Set<int>,
    disk: int,
    base: int,
    unit: int,
    runs: Seq<(u64, u64)>,
)
    requires
        segs_wf(runs),
        runs_fit(disk, base, unit, runs),
        scaled(segs_set(runs), base, unit).disjoint(free),
    ensures
        replayable(free, free_entries_of(disk, base, unit, runs)),
        replay(free, free_entries_of(disk, base, unit, runs)) == free.union(
            scaled(segs_set(runs), base, unit),
        ),
    decreases runs.len(),
{
    let entries = free_entries_of(disk, base, unit, runs);
    if runs.len() == 0 {
        assert(segs_set(runs) =~= Set::<int>::empty());
        assert(free.union(scaled(segs_set(runs), base, unit)) =~= free);
    } else {
        let d = runs.drop_last();
        let l = runs.last();
        lemma_last_run_apart(runs);
        assert(runs[runs.len() - 1] == l);
        assert forall|i: int| 0 <= i < d.len() implies ({
            &&& (#[trigger] d[i]).0 * unit >= 0
            &&& (d[i].0 * unit) % 512 == 0
            &&& d[i].1 * unit >= 0
            &&& base + d[i].0 * unit + d[i].1 * unit <= u64::MAX
        }) by {
            assert(d[i] == runs[i]);
        }
        let ls = span(l.0 as int, l.1 as int);
        lemma_scaled_ops(segs_set(d), ls, base, unit);
        assert(scaled(segs_set(d), base, unit).disjoint(free));
        lemma_replay_frees(free, disk, base, unit, d);
        assert(seq![l][0] == l);
        lemma_run_bytes(disk, base, unit, l);
        let de = free_entries_of(disk, base, unit, d);
        let le = SpaceMapEntry::Free(run_extent(disk, base, unit, l));
        assert(entries =~= de.push(le));
        lemma_replay_push(free, de, le);
        assert(replay(free, entries) =~= free.union(scaled(segs_set(runs), base, unit)));
    }
}

/// Runs of units below a limit fit where the limit fits.
proof fn lemma_runs_fit(
    disk: int,
    base: int,
    unit: int,
    runs: Seq<(u64, u64)>,
    limit: int,
)
    requires
        segs_wf(runs),
        0 <= disk <= MAX_DISK_ID,
        0 <= base,
        base % 512 == 0,
        unit > 0,
        unit % 512 == 0,
        base + limit * unit <= u64::MAX,
        forall|u: int| segs_set(runs).contains(u) ==> 0 <= u < limit,
    ensures
        runs_fit(disk, base, unit, runs),
        forall|i: int| 0 <= i < runs.len() ==> (#[trigger] runs[i]).0 + runs[i].1 <= limit,
{
    assert forall|i: int| 0 <= i < runs.len() implies ({
        &&& (#[trigger] runs[i]).0 * unit >= 0
        &&& (runs[i].0 * unit) % 512 == 0
        &&& runs[i].1 * unit >= 0
        &&& base + runs[i].0 * unit + runs[i].1 * unit <= u64::MAX
        &&& runs[i].0 + runs[i].1 <= limit
    }) by {
        let first = runs[i].0 as int;
        let count = runs[i].1 as int;
        assert(segs_have(runs, first + count - 1));
        assert(segs_set(runs).contains(first + count - 1));
        lemma_multiple_of_sector(first, unit);
        assert(first * unit >= 0 && count * unit >= 0 && first * unit + count * unit <= limit
            * unit) by (nonlinear_arith)
            requires
                first >= 0,
                count >= 0,
                first + count <= limit,
                unit > 0,
        ;
    }
}

/// Records one allocation per run.
pub(crate) fn record_allocs(
    spacemap: &mut SpaceMap,
    location: DiskLocation,
    base: u64,
    unit: u64,
    runs: &Vec<(u64, u64)>,
)
    requires
        location.wf(),
        segs_wf(runs@),
        runs_fit(location.disk_no(), base as int, unit as int, runs@),
    ensures
        continued(
            *old(spacemap),
            *final(spacemap),
            alloc_entries_of(location.disk_no(), base as int, unit as int, runs@),
        ),
{
    let ghost all0 = spacemap.all();
    let ghost d = location.disk_no();
    let ghost entries = alloc_entries_of(d, base as int, unit as int, runs@);
    let disk = location.disk();
    let mut i: usize = 0;
    assert(all0 + entries.take(0) =~= all0);
    while i < runs.len()
        invariant
            i <= runs@.len(),
            disk.wf(),
            disk.0 == d,
            segs_wf(runs@),
            runs_fit(d, base as int, unit as int, runs@),
            entries == alloc_entries_of(d, base as int, unit as int, runs@),
            all0 == old(spacemap).all(),
            continued(*old(spacemap), *spacemap, entries.take(i as int)),
        decreases runs@.len() - i,
    {
        let (first, count) = runs[i];
        proof {
            assert(runs@[i as int] == (first, count));
            assert(count * unit > 0) by (nonlinear_arith)
                requires
                    count > 0,
                    unit > 0,
            ;
        }
        let extent = Extent { location: DiskLocation::new(disk, base + first * unit), size: count * unit };
        spacemap.alloc_extent(extent);
        proof {
            assert(extent == run_extent(d, base as int, unit as int, runs@[i as int]));
            assert(entries.take(i + 1) =~= entries.take(i as int).push(SpaceMapEntry::Alloc(extent)));
            assert(entries.take(i + 1).drop_last() =~= entries.take(i as int));
            assert(all0 + entries.take(i + 1) =~= (all0 + entries.take(i as int)).push(
                SpaceMapEntry::Alloc(extent),
            ));
        }
        i += 1;
    }
    assert(entries.take(runs@.len() as int) =~= entries);
}

/// Records one free per run.
pub(crate) fn record_frees(
    spacemap: &mut SpaceMap,
    location: DiskLocation,
    base: u64,
    unit: u64,
    runs: &Vec<(u64, u64)>,
)
    requires
        location.wf(),
        segs_wf(runs@),
        runs_fit(location.disk_no(), base as int, unit as int, runs@),
    ensures
        continued(
            *old(spacemap),
            *final(spacemap),
            free_entries_of(location.disk_no(), base as int, unit as int, runs@),
        ),
{
    let ghost all0 = spacemap.all();
    let ghost d = location.disk_no();
    let ghost entries = free_entries_of(d, base as int, unit as int, runs@);
    let disk = location.disk();
    let mut i: usize = 0;
    assert(all0 + entries.take(0) =~= all0);
    while i < runs.len()
        invariant
            i <= runs@.len(),
            disk.wf(),
            disk.0 == d,
            segs_wf(runs@),
            runs_fit(d, base as int, unit as int, runs@),
            entries == free_entries_of(d, base as int, unit as int, runs@),
            all0 == old(spacemap).all(),
            continued(*old(spacemap), *spacemap, entries.take(i as int)),
        decreases runs@.len() - i,
    {
        let (first, count) = runs[i];
        proof {
            assert(runs@[i as int] == (first, count));
            assert(count * unit > 0) by (nonlinear_arith)
                requires
                    count > 0,
                    unit > 0,
            ;
        }
        let extent = Extent { location: DiskLocation::new(disk, base + first * unit), size: count * unit };
        spacemap.free(extent);
        proof {
            assert(extent == run_extent(d, base as int, unit as int, runs@[i as int]));
            assert(entries.take(i + 1) =~= entries.take(i as int).push(SpaceMapEntry::Free(extent)));
            assert(entries.take(i + 1).drop_last() =~= entries.take(i as int));
            assert(all0 + entries.take(i + 1) =~= (all0 + entries.take(i as int)).push(
                SpaceMapEntry::Free(extent),
            ));
        }
        i += 1;
    }
    assert(entries.take(runs@.len() as int) =~= entries);
}

/// A slab that is divided into slots of equal size.
pub struct BitmapSlab {
    pub allocatable: SlotSet,
    pub allocating: SlotSet,
    pub freeing: SlotSet,
    pub total_slots: u32,
    pub slot_size: u32,
    pub location: DiskLocation,
}

/// The number of slots of a slab.
pub open spec fn slots_of(slab_size: int, slot_size: int) -> int {
    if slab_size / slot_size > MAX_SLOTS {
        MAX_SLOTS as int
    } else {
        slab_size / slot_size
    }
}

pub proof fn lemma_slots_of(slab_size: int, slot_size: int)
    requires
        slab_size >= 0,
        slot_size > 0,
    ensures
        0 <= slots_of(slab_size, slot_size) <= MAX_SLOTS,
        slots_of(slab_size, slot_size) * slot_size <= slab_size,
{
    let q = slab_size / slot_size;
    assert(q >= 0 && q * slot_size <= slab_size) by (nonlinear_arith)
        requires
            slab_size >= 0,
            slot_size > 0,
            q == slab_size / slot_size,
    ;
    let s = slots_of(slab_size, slot_size);
    assert(s * slot_size <= q * slot_size) by (nonlinear_arith)
        requires
            s <= q,
            slot_size > 0,
    ;
}

impl BitmapSlab {
    pub open spec fn base(&self) -> int {
        self.location.off()
    }

    /// The bytes of a set of slots.
    pub open spec fn slot_bytes(&self, slots: Set<int>) -> Set<int> {
        scaled(slots, self.base(), self.slot_size as int)
    }

    pub open spec fn capacity(&self) -> int {
        self.total_slots * self.slot_size
    }

    pub open spec fn wf(&self) -> bool {
        &&& self.location.wf()
        &&& self.slot_size > 0
        &&& self.slot_size % 512 == 0
        &&& self.total_slots <= MAX_SLOTS
        &&& self.capacity() <= u32::MAX
        &&& self.base() + self.capacity() <= u64::MAX
        &&& self.allocatable.below(self.total_slots as int)
        &&& self.allocating.below(self.total_slots as int)
        &&& self.freeing.below(self.total_slots as int)
        &&& self.allocatable@.disjoint(self.allocating@)
        &&& self.allocatable@.disjoint(self.freeing@)
    }

    /// Only the three sets may differ.
    pub open spec fn same_slab(&self, other: &BitmapSlab) -> bool {
        &&& self.total_slots == other.total_slots
        &&& self.slot_size == other.slot_size
        &&& self.location == other.location
    }

    /// A run of slots of the slab.
    pub open spec fn fits(&self, extent: Extent) -> bool {
        &&& extent.wf()
        &&& extent.disk_no() == self.location.disk_no()
        &&& self.base() <= extent.start()
        &&& extent.end() <= self.base() + self.capacity()
        &&& (extent.start() - self.base()) % self.slot_size as int == 0
        &&& extent.size % self.slot_size as u64 == 0
        &&& extent.size > 0
    }

    pub open spec fn first_slot(&self, extent: Extent) -> int {
        (extent.start() - self.base()) / self.slot_size as int
    }

    pub open spec fn num_slots(&self, extent: Extent) -> int {
        extent.size as int / self.slot_size as int
    }

    pub open spec fn slot_extent(&self, slot: int) -> Extent {
        Extent::at(
            self.location.disk_no(),
            self.base() + slot * self.slot_size,
            self.slot_size as int,
        )
    }

    pub fn new(extent: Extent, block_size: u32) -> (r: BitmapSlab)
        requires
            extent.wf(),
            extent.size <= u32::MAX,
            block_size > 0,
            block_size % 512 == 0,
        ensures
            r.wf(),
            r.location == extent.location,
            r.slot_size == block_size,
            r.total_slots == slots_of(extent.size as int, block_size as int),
            r.allocatable@ == span(0, r.total_slots as int),
            r.allocating@ == Set::<int>::empty(),
            r.freeing@ == Set::<int>::empty(),
    {
        proof {
            lemma_slots_of(extent.size as int, block_size as int);
        }
        let slab_size: u32 = extent.size as u32;
        let num_slots: u32 = slab_size / block_size;
        let free_slots: u32 = if num_slots > MAX_SLOTS {
            // With the default slab size, slots of one sector are more than can be numbered.
            MAX_SLOTS
        } else {
            num_slots
        };
        let mut allocatable = SlotSet::new();
        allocatable.insert_range(0, free_slots);
        let r = BitmapSlab {
            allocatable,
            allocating: SlotSet::new(),
            freeing: SlotSet::new(),
            total_slots: free_slots,
            slot_size: block_size,
            location: extent.location,
        };
        assert(r.allocatable@ =~= span(0, r.total_slots as int));
        r
    }

    proof fn lemma_slot(&self, slot: int)
        requires
            self.wf(),
            0 <= slot <= self.total_slots,
        ensures
            0 <= slot * self.slot_size <= self.capacity(),
            (slot * self.slot_size) % 512 == 0,
    {
        let z = self.slot_size as int;
        let t = self.total_slots as int;
        assert(0 <= slot * z <= t * z) by (nonlinear_arith)
            requires
                0 <= slot <= t,
                z > 0,
        ;
        lemma_multiple_of_sector(slot, z);
    }

    pub fn slot_to_location(&self, slot: u32) -> (r: DiskLocation)
        requires
            self.wf(),
            slot <= self.total_slots,
        ensures
            r.wf(),
            r == DiskLocation::at(self.location.disk_no(), self.base() + slot * self.slot_size),
            r.disk_no() == self.location.disk_no(),
            r.off() == self.base() + slot * self.slot_size,
    {
        proof {
            self.lemma_slot(slot as int);
            crate::base_types::law_location_round_trip(
                self.location.disk_no(),
                self.base() + slot * self.slot_size,
            );
        }
        self.location + slot as u64 * self.slot_size as u64
    }

    proof fn lemma_fits(&self, extent: Extent)
        requires
            self.wf(),
            self.fits(extent),
        ensures
            0 <= self.first_slot(extent),
            1 <= self.num_slots(extent),
            self.first_slot(extent) + self.num_slots(extent) <= self.total_slots,
            self.slot_bytes(span(self.first_slot(extent), self.num_slots(extent)))
                == extent_bytes(extent),
    {
        let z = self.slot_size as int;
        let o = extent.start() - self.base();
        let n = extent.size as int;
        let t = self.total_slots as int;
        let f = o / z;
        let c = n / z;
        assert(f * z == o) by (nonlinear_arith)
            requires
                o % z == 0,
                f == o / z,
                z > 0,
        ;
        assert(c * z == n) by (nonlinear_arith)
            requires
                n % z == 0,
                c == n / z,
                z > 0,
        ;
        assert(f >= 0 && c >= 1 && f + c <= t) by (nonlinear_arith)
            requires
                f * z == o,
                c * z == n,
                o >= 0,
                n > 0,
                o + n <= t * z,
                z > 0,
        ;
        lemma_scaled_span(f, c, self.base(), z);
    }

    /// Takes in a logged allocation.
    pub fn import_alloc(&mut self, extent: Extent)
        requires
            old(self).wf(),
            old(self).fits(extent),
            extent_bytes(extent).subset_of(old(self).slot_bytes(old(self).allocatable@)),
        ensures
            final(self).wf(),
            final(self).same_slab(old(self)),
            final(self).allocating == old(self).allocating,
            final(self).freeing == old(self).freeing,
            final(self).allocatable@ == old(self).allocatable@.difference(
                span(old(self).first_slot(extent), old(self).num_slots(extent)),
            ),
            final(self).slot_bytes(final(self).allocatable@) == apply_entry(
                old(self).slot_bytes(old(self).allocatable@),
                SpaceMapEntry::Alloc(extent),
            ),
    {
        proof {
            self.lemma_fits(extent);
            lemma_scaled_ops(
                self.allocatable@,
                span(self.first_slot(extent), self.num_slots(extent)),
                self.base(),
                self.slot_size as int,
            );
        }
        let first: u32 = ((extent.location.offset() - self.location.offset())
            / self.slot_size as u64) as u32;
        let count: u32 = (extent.size / self.slot_size as u64) as u32;
        self.allocatable.remove_range(first, first + count);
    }

    /// Takes in a logged free.
    pub fn import_free(&mut self, extent: Extent)
        requires
            old(self).wf(),
            old(self).fits(extent),
            old(self).allocating@ == Set::<int>::empty(),
            old(self).freeing@ == Set::<int>::empty(),
            extent_bytes(extent).disjoint(old(self).slot_bytes(old(self).allocatable@)),
        ensures
            final(self).wf(),
            final(self).same_slab(old(self)),
            final(self).allocating == old(self).allocating,
            final(self).freeing == old(self).freeing,
            final(self).allocatable@ == old(self).allocatable@.union(
                span(old(self).first_slot(extent), old(self).num_slots(extent)),
            ),
            final(self).slot_bytes(final(self).allocatable@) == apply_entry(
                old(self).slot_bytes(old(self).allocatable@),
                SpaceMapEntry::Free(extent),
            ),
    {
        proof {
            self.lemma_fits(extent);
            lemma_scaled_ops(
                self.allocatable@,
                span(self.first_slot(extent), self.num_slots(extent)),
                self.base(),
                self.slot_size as int,
            );
        }
        let first: u32 = ((extent.location.offset() - self.location.offset())
            / self.slot_size as u64) as u32;
        let count: u32 = (extent.size / self.slot_size as u64) as u32;
        self.allocatable.insert_range(first, first + count);
    }

    /// Takes the first free slot.
    pub fn allocate(&mut self, size: u32) -> (r: Option<Extent>)
        requires
            old(self).wf(),
            size <= old(self).slot_size,
        ensures
            final(self).wf(),
            final(self).same_slab(old(self)),
            final(self).freeing == old(self).freeing,
            match r {
                None => old(self).allocatable@ == Set::<int>::empty() && *final(self) == *old(
                    self,
                ),
                Some(extent) => exists|slot: int|
                    {
                        &&& #[trigger] old(self).allocatable@.contains(slot)
                        &&& forall|s: int| old(self).allocatable@.contains(s) ==> slot <= s
                        &&& extent == old(self).slot_extent(slot)
                        &&& final(self).allocatable@ == old(self).allocatable@.remove(slot)
                        &&& final(self).allocating@ == old(self).allocating@.insert(slot)
                    },
            },
            r matches Some(extent) ==> {
                &&& old(self).fits(extent)
                &&& extent.size == old(self).slot_size
                &&& extent_bytes(extent).subset_of(old(self).slot_bytes(old(self).allocatable@))
                &&& final(self).slot_bytes(final(self).allocatable@) == old(self).slot_bytes(
                    old(self).allocatable@,
                ).difference(extent_bytes(extent))
                &&& final(self).slot_bytes(final(self).allocating@) == old(self).slot_bytes(
                    old(self).allocating@,
                ).union(extent_bytes(extent))
            },
    {
        let slot: u32 = match self.allocatable.min() {
            None => {
                return None;
            },
            Some(slot) => slot,
        };
        let _ = self.allocating.insert(slot);
        let _ = self.allocatable.remove(slot);
        let extent = Extent { location: self.slot_to_location(slot), size: self.slot_size as u64 };
        proof {
            let s = slot as int;
            assert(old(self).allocatable@.contains(s));
            assert(extent == old(self).slot_extent(s));
            self.lemma_slot(s);
            self.lemma_slot(s + 1);
            assert((s + 1) * self.slot_size == s * self.slot_size + self.slot_size)
                by (nonlinear_arith);
            assert((s * self.slot_size) % (self.slot_size as int) == 0) by (nonlinear_arith)
                requires
                    self.slot_size > 0,
            ;
            lemma_scaled_span(s, 1, self.base(), self.slot_size as int);
            assert(1 * self.slot_size == self.slot_size);
            assert(old(self).allocatable@.remove(s) =~= old(self).allocatable@.difference(
                span(s, 1),
            ));
            assert(old(self).allocating@.insert(s) =~= old(self).allocating@.union(span(s, 1)));
            let b = self.base();
            let z = self.slot_size as int;
            lemma_scaled_ops(old(self).allocatable@, span(s, 1), b, z);
            lemma_scaled_ops(old(self).allocating@, span(s, 1), b, z);
            lemma_scaled_ops(span(s, 1), old(self).allocatable@, b, z);
        }
        Some(extent)
    }

    /// Frees the slot at which the extent starts.
    pub fn free(&mut self, extent: Extent)
        requires
            old(self).wf(),
            old(self).fits(extent),
            !old(self).allocatable@.contains(old(self).first_slot(extent)),
        ensures
            final(self).wf(),
            final(self).same_slab(old(self)),
            final(self).allocatable == old(self).allocatable,
            final(self).allocating == old(self).allocating,
            final(self).freeing@ == old(self).freeing@.insert(old(self).first_slot(extent)),
            extent.size == old(self).slot_size ==> final(self).slot_bytes(final(self).freeing@)
                == old(self).slot_bytes(old(self).freeing@).union(extent_bytes(extent)),
    {
        let slot: u32 = ((extent.location.offset() - self.location.offset())
            / self.slot_size as u64) as u32;
        proof {
            self.lemma_fits(extent);
            let s = slot as int;
            if extent.size == self.slot_size {
                assert(self.num_slots(extent) == 1) by (nonlinear_arith)
                    requires
                        self.num_slots(extent) == extent.size as int / self.slot_size as int,
                        extent.size == self.slot_size,
                        self.slot_size > 0,
                ;
                assert(self.freeing@.insert(s) =~= self.freeing@.union(span(s, 1)));
                lemma_scaled_ops(self.freeing@, span(s, 1), self.base(), self.slot_size as int);
            }
        }
        let _ = self.freeing.insert(slot);
    }

    proof fn lemma_space(&self, slots: Set<int>)
        requires
            self.wf(),
            forall|s: int| slots.contains(s) ==> 0 <= s < self.total_slots,
        ensures
            slots.finite(),
            slots.len() <= self.total_slots,
            0 <= slots.len() * self.slot_size <= self.capacity(),
            self.slot_bytes(slots).finite(),
            self.slot_bytes(slots).len() == slots.len() * self.slot_size,
    {
        lemma_bounded_set(slots, self.total_slots as int);
        lemma_scaled_len(slots, self.base(), self.slot_size as int);
        self.lemma_slot(slots.len() as int);
    }

    proof fn lemma_runs(&self, runs: Seq<(u64, u64)>)
        requires
            self.wf(),
            segs_wf(runs),
            forall|s: int| segs_set(runs).contains(s) ==> 0 <= s < self.total_slots,
        ensures
            runs_fit(self.location.disk_no(), self.base(), self.slot_size as int, runs),
            forall|i: int|
                0 <= i < runs.len() ==> (#[trigger] runs[i]).0 + runs[i].1 <= self.total_slots,
    {
        lemma_runs_fit(
            self.location.disk_no(),
            self.base(),
            self.slot_size as int,
            runs,
            self.total_slots as int,
        );
    }

    /// The entries that a flush records.
    pub open spec fn flush_entries(&self) -> Seq<SpaceMapEntry> {
        let d = self.location.disk_no();
        let z = self.slot_size as int;
        alloc_entries_of(d, self.base(), z, runs_of(self.allocating@)) + free_entries_of(
            d,
            self.base(),
            z,
            runs_of(self.freeing@),
        )
    }

    /// What is free according to the entries recorded so far.
    pub open spec fn recorded_free(&self) -> Set<int> {
        self.slot_bytes(self.allocatable@.union(self.allocating@))
    }

    /// Applying what a flush records to what was recorded before gives what is free afterwards.
    pub proof fn law_flush_replays(&self)
        requires
            self.wf(),
        ensures
            replayable(self.recorded_free(), self.flush_entries()),
            replay(self.recorded_free(), self.flush_entries()) == self.slot_bytes(
                self.allocatable@.union(self.freeing@),
            ),
    {
        let d = self.location.disk_no();
        let b = self.base();
        let z = self.slot_size as int;
        let ar = runs_of(self.allocating@);
        let fr = runs_of(self.freeing@);
        self.lemma_has_runs(self.allocating@);
        self.lemma_has_runs(self.freeing@);
        self.lemma_runs(ar);
        self.lemma_runs(fr);
        let f0 = self.recorded_free();
        lemma_scaled_ops(self.allocatable@, self.allocating@, b, z);
        lemma_replay_allocs(f0, d, b, z, ar);
        let f1 = self.slot_bytes(self.allocatable@);
        assert(f0.difference(self.slot_bytes(self.allocating@)) =~= f1);
        lemma_scaled_ops(self.allocatable@, self.freeing@, b, z);
        lemma_replay_frees(f1, d, b, z, fr);
        law_replay_append(
            f0,
            alloc_entries_of(d, b, z, ar),
            free_entries_of(d, b, z, fr),
        );
    }

    /// A set of slots has maximal runs.
    proof fn lemma_has_runs(&self, slots: Set<int>)
        requires
            self.wf(),
            forall|s: int| slots.contains(s) ==> 0 <= s < self.total_slots,
        ensures
            segs_wf(runs_of(slots)),
            segs_set(runs_of(slots)) == slots,
    {
        lemma_runs_exist(slots, self.total_slots as int);
    }

    pub fn flush_to_spacemap(&mut self, spacemap: &mut SpaceMap) -> (r: (u64, u64))
        requires
            old(self).wf(),
        ensures
            final(self).wf(),
            final(self).same_slab(old(self)),
            final(self).allocatable@ == old(self).allocatable@.union(old(self).freeing@),
            final(self).allocating@ == Set::<int>::empty(),
            final(self).freeing@ == Set::<int>::empty(),
            continued(*old(spacemap), *final(spacemap), old(self).flush_entries()),
            r.0 == old(self).slot_bytes(old(self).allocating@).len(),
            r.1 == old(self).slot_bytes(old(self).freeing@).len(),
    {
        // A slot that was allocated and then freed since the last flush is in both sets, so the
        // allocations are recorded before the frees. A slot cannot be freed and then allocated
        // between two flushes.
        proof {
            self.lemma_space(self.allocating@);
            self.lemma_space(self.freeing@);
        }
        let allocated_bytes: u64 = self.allocating.len() * self.slot_size as u64;
        let freed_bytes: u64 = self.freeing.len() * self.slot_size as u64;
        let base = self.location.offset();
        let runs = self.allocating.iter_runs();
        proof {
            self.lemma_runs(runs@);
            lemma_runs_of(runs@);
        }
        let ghost s0 = *spacemap;
        let ghost d = self.location.disk_no();
        let ghost x = alloc_entries_of(d, base as int, self.slot_size as int, runs@);
        record_allocs(spacemap, self.location, base, self.slot_size as u64, &runs);
        let ghost s1 = *spacemap;
        self.allocating.clear();
        let runs = self.freeing.iter_runs();
        proof {
            self.lemma_runs(runs@);
            lemma_runs_of(runs@);
        }
        record_frees(spacemap, self.location, base, self.slot_size as u64, &runs);
        proof {
            let y = free_entries_of(d, base as int, self.slot_size as int, runs@);
            lemma_continued(s0, s1, *spacemap, x, y);
            assert(x + y == old(self).flush_entries());
        }
        let ghost a0 = self.allocatable@;
        let mut i: usize = 0;
        assert(runs@.take(0) =~= Seq::<(u64, u64)>::empty());
        assert(a0.union(segs_set(runs@.take(0))) =~= a0);
        while i < runs.len()
            invariant
                i <= runs@.len(),
                self.total_slots <= MAX_SLOTS,
                self.same_slab(old(self)),
                self.allocating@ == Set::<int>::empty(),
                self.freeing == old(self).freeing,
                self.allocatable@ == a0.union(segs_set(runs@.take(i as int))),
                forall|i: int|
                    0 <= i < runs@.len() ==> (#[trigger] runs@[i]).0 + runs@[i].1
                        <= self.total_slots,
            decreases runs@.len() - i,
        {
            let (first, count) = runs[i];
            assert(runs@[i as int] == (first, count));
            self.allocatable.insert_range(first as u32, (first + count) as u32);
            proof {
                assert(runs@.take(i + 1) =~= runs@.take(i as int).push((first, count)));
                lemma_segs_set_push(runs@.take(i as int), (first, count));
                assert(self.allocatable@ =~= a0.union(segs_set(runs@.take(i + 1))));
            }
            i += 1;
        }
        assert(runs@.take(runs@.len() as int) =~= runs@);
        self.freeing.clear();
        (allocated_bytes, freed_bytes)
    }

    /// The entries from which the recorded state can be rebuilt.
    pub open spec fn condense_entries(&self) -> Seq<SpaceMapEntry> {
        let d = self.location.disk_no();
        let z = self.slot_size as int;
        alloc_entries_of(
            d,
            self.base(),
            z,
            runs_of(span(0, self.total_slots as int).difference(self.allocatable@)),
        ) + free_entries_of(d, self.base(), z, runs_of(self.allocating@))
    }

    /// Applying the condensed entries to an empty slab gives what was recorded so far.
    pub proof fn law_condense_replays(&self)
        requires
            self.wf(),
        ensures
            replayable(
                self.slot_bytes(span(0, self.total_slots as int)),
                self.condense_entries(),
            ),
            replay(self.slot_bytes(span(0, self.total_slots as int)), self.condense_entries())
                == self.recorded_free(),
    {
        let d = self.location.disk_no();
        let b = self.base();
        let z = self.slot_size as int;
        let whole = span(0, self.total_slots as int);
        let taken = whole.difference(self.allocatable@);
        self.lemma_has_runs(taken);
        self.lemma_has_runs(self.allocating@);
        let tr = runs_of(taken);
        let ar = runs_of(self.allocating@);
        self.lemma_runs(tr);
        self.lemma_runs(ar);
        let f0 = self.slot_bytes(whole);
        lemma_scaled_ops(taken, whole, b, z);
        lemma_replay_allocs(f0, d, b, z, tr);
        let f1 = self.slot_bytes(self.allocatable@);
        lemma_scaled_ops(whole, taken, b, z);
        assert(whole.difference(taken) =~= self.allocatable@);
        lemma_scaled_ops(self.allocatable@, self.allocating@, b, z);
        lemma_replay_frees(f1, d, b, z, ar);
        law_replay_append(
            f0,
            alloc_entries_of(d, b, z, tr),
            free_entries_of(d, b, z, ar),
        );
    }

    pub fn condense_to_spacemap(&self, spacemap: &mut SpaceMap)
        requires
            self.wf(),
        ensures
            continued(*old(spacemap), *final(spacemap), self.condense_entries()),
    {
        let base = self.location.offset();
        let runs = self.allocatable.iter_inverse_runs(self.total_slots as u64);
        proof {
            self.lemma_runs(runs@);
            lemma_runs_of(runs@);
        }
        let ghost s0 = *spacemap;
        let ghost d = self.location.disk_no();
        let ghost x = alloc_entries_of(d, base as int, self.slot_size as int, runs@);
        record_allocs(spacemap, self.location, base, self.slot_size as u64, &runs);
        let ghost s1 = *spacemap;
        // The slots that are being allocated are recorded as free: the next flush records them
        // as allocated.
        let runs = self.allocating.iter_runs();
        proof {
            self.lemma_runs(runs@);
            lemma_runs_of(runs@);
        }
        record_frees(spacemap, self.location, base, self.slot_size as u64, &runs);
        proof {
            let y = free_entries_of(d, base as int, self.slot_size as int, runs@);
            lemma_continued(s0, s1, *spacemap, x, y);
            assert(x + y == self.condense_entries());
        }
    }

    pub proof fn lemma_run_fits(&self, run: (u64, u64))
        requires
            self.wf(),
            run.1 > 0,
            run.0 + run.1 <= self.total_slots,
        ensures
            self.fits(
                run_extent(self.location.disk_no(), self.base(), self.slot_size as int, run),
            ),
    {
        let z = self.slot_size as int;
        let f = run.0 as int;
        let c = run.1 as int;
        let t = self.total_slots as int;
        assert(f * z >= 0 && c * z > 0 && f * z + c * z <= t * z) by (nonlinear_arith)
            requires
                f >= 0,
                c > 0,
                f + c <= t,
                z > 0,
        ;
        assert((f * z) % z == 0) by (nonlinear_arith)
            requires
                z > 0,
        ;
        assert((c * z) % z == 0) by (nonlinear_arith)
            requires
                z > 0,
        ;
        lemma_multiple_of_sector(f, z);
        crate::base_types::law_location_round_trip(self.location.disk_no(), self.base() + f * z);
    }

    /// What is recorded are runs of slots.
    pub proof fn lemma_entries_fit(&self)
        requires
            self.wf(),
        ensures
            forall|i: int|
                0 <= i < self.flush_entries().len() ==> {
                    let e = changed_extent(#[trigger] self.flush_entries()[i]);
                    e is Some && self.fits(e->0)
                },
            forall|i: int|
                0 <= i < self.condense_entries().len() ==> {
                    let e = changed_extent(#[trigger] self.condense_entries()[i]);
                    e is Some && self.fits(e->0)
                },
    {
        let taken = span(0, self.total_slots as int).difference(self.allocatable@);
        self.lemma_has_runs(self.allocating@);
        self.lemma_has_runs(self.freeing@);
        self.lemma_has_runs(taken);
        let ar = runs_of(self.allocating@);
        let fr = runs_of(self.freeing@);
        let tr = runs_of(taken);
        self.lemma_runs(ar);
        self.lemma_runs(fr);
        self.lemma_runs(tr);
        assert forall|i: int| 0 <= i < self.flush_entries().len() implies ({
            let e = changed_extent(#[trigger] self.flush_entries()[i]);
            e is Some && self.fits(e->0)
        }) by {
            if i < ar.len() {
                self.lemma_run_fits(ar[i]);
            } else {
                self.lemma_run_fits(fr[i - ar.len()]);
            }
        }
        assert forall|i: int| 0 <= i < self.condense_entries().len() implies ({
            let e = changed_extent(#[trigger] self.condense_entries()[i]);
            e is Some && self.fits(e->0)
        }) by {
            if i < tr.len() {
                self.lemma_run_fits(tr[i]);
            } else {
                self.lemma_run_fits(ar[i - tr.len()]);
            }
        }
    }

    pub fn max_size(&self) -> (r: u32)
        ensures
            r == self.slot_size,
    {
        self.slot_size
    }

    /// The slots need not fill the whole slab.
    pub fn capacity_bytes(&self) -> (r: u64)
        requires
            self.wf(),
        ensures
            r == self.capacity(),
    {
        proof {
            self.lemma_slot(self.total_slots as int);
        }
        self.total_slots as u64 * self.slot_size as u64
    }

    pub fn free_space(&self) -> (r: u64)
        requires
            self.wf(),
        ensures
            r == self.slot_bytes(self.allocatable@).len(),
            r <= self.capacity(),
    {
        proof {
            self.lemma_space(self.allocatable@);
        }
        self.allocatable.len() * self.slot_size as u64
    }

    pub fn freeing_space(&self) -> (r: u64)
        requires
            self.wf(),
        ensures
            r == self.slot_bytes(self.freeing@).len(),
            r <= self.capacity(),
    {
        proof {
            self.lemma_space(self.freeing@);
        }
        self.freeing.len() * self.slot_size as u64
    }

    /// The slots that hold something.
    pub open spec fn allocated_slots(&self) -> Set<int> {
        span(0, self.total_slots as int).difference(self.allocatable@).difference(self.freeing@)
    }

    proof fn lemma_allocated_slots(&self)
        requires
            self.wf(),
        ensures
            self.allocatable@.len() + self.freeing@.len() + self.allocated_slots().len()
                == self.total_slots,
    {
        let whole = span(0, self.total_slots as int);
        lemma_span_len(0, self.total_slots as int);
        lemma_bounded_set(self.allocatable@, self.total_slots as int);
        lemma_bounded_set(self.freeing@, self.total_slots as int);
        lemma_bounded_set(self.allocated_slots(), self.total_slots as int);
        let taken = self.allocatable@.union(self.freeing@);
        vstd::set_lib::lemma_set_disjoint_lens(self.allocatable@, self.freeing@);
        assert(taken.disjoint(self.allocated_slots()));
        vstd::set_lib::lemma_set_disjoint_lens(taken, self.allocated_slots());
        assert(taken.union(self.allocated_slots()) =~= whole);
    }

    pub proof fn lemma_allocated_bytes(&self)
        ensures
            self.slot_bytes(self.allocated_slots()) == self.slot_bytes(
                span(0, self.total_slots as int),
            ).difference(self.slot_bytes(self.allocatable@)).difference(
                self.slot_bytes(self.freeing@),
            ),
    {
        let b = self.base();
        let z = self.slot_size as int;
        let w = span(0, self.total_slots as int);
        lemma_scaled_ops(w, self.allocatable@, b, z);
        lemma_scaled_ops(w.difference(self.allocatable@), self.freeing@, b, z);
    }

    pub fn allocated_space(&self) -> (r: u64)
        requires
            self.wf(),
        ensures
            r == self.slot_bytes(self.allocated_slots()).len(),
            r <= self.capacity(),
    {
        proof {
            self.lemma_allocated_slots();
            self.lemma_space(self.allocated_slots());
        }
        (self.total_slots as u64 - self.allocatable.len() - self.freeing.len())
            * self.slot_size as u64
    }

    /// The number of maximal runs of slots that are not free.
    pub fn num_segments(&self) -> (r: u64)
        requires
            self.wf(),
        ensures
            r == runs_of(span(0, self.total_slots as int).difference(self.allocatable@)).len(),
    {
        let runs = self.allocatable.iter_inverse_runs(self.total_slots as u64);
        proof {
            lemma_runs_of(runs@);
        }
        runs.len() as u64
    }

    pub proof fn lemma_allocated_runs(&self)
        requires
            self.wf(),
        ensures
            segs_wf(runs_of(self.allocated_slots())),
            segs_set(runs_of(self.allocated_slots())) == self.allocated_slots(),
            forall|k: int|
                0 <= k < runs_of(self.allocated_slots()).len() ==> {
                    let run = #[trigger] runs_of(self.allocated_slots())[k];
                    run.1 > 0 && run.0 + run.1 <= self.total_slots
                },
    {
        self.lemma_has_runs(self.allocated_slots());
        self.lemma_runs(runs_of(self.allocated_slots()));
    }

    /// The allocated extents in ascending order; each may cover several adjacent slots.
    pub fn allocated_extents(&self) -> (r: Vec<Extent>)
        requires
            self.wf(),
        ensures
            r@ == runs_of(self.allocated_slots()).map_values(
                |run: (u64, u64)|
                    run_extent(
                        self.location.disk_no(),
                        self.base(),
                        self.slot_size as int,
                        run,
                    ),
            ),
    {
        let mut allocated = SlotSet::new();
        allocated.insert_range(0, self.total_slots);
        let free = self.allocatable.iter_runs();
        remove_runs(&mut allocated, &free, self.total_slots);
        // Frees show in the allocatable set only after the next flush.
        let freeing = self.freeing.iter_runs();
        remove_runs(&mut allocated, &freeing, self.total_slots);
        assert(allocated@ =~= self.allocated_slots());
        let runs = allocated.iter_runs();
        proof {
            self.lemma_runs(runs@);
            lemma_runs_of(runs@);
        }
        extents_of(self.location, self.location.offset(), self.slot_size as u64, &runs)
    }
}

fn remove_runs(slots: &mut SlotSet, runs: &Vec<(u64, u64)>, limit: u32)
    requires
        segs_wf(runs@),
        forall|o: int| segs_set(runs@).contains(o) ==> o < limit,
    ensures
        final(slots)@ == old(slots)@.difference(segs_set(runs@)),
{
    let ghost s0 = slots@;
    let mut i: usize = 0;
    assert(runs@.take(0) =~= Seq::<(u64, u64)>::empty());
    assert(s0.difference(segs_set(runs@.take(0))) =~= s0);
    while i < runs.len()
        invariant
            i <= runs@.len(),
            segs_wf(runs@),
            forall|o: int| segs_set(runs@).contains(o) ==> o < limit,
            slots@ == s0.difference(segs_set(runs@.take(i as int))),
        decreases runs@.len() - i,
    {
        let (first, count) = runs[i];
        proof {
            assert(runs@[i as int] == (first, count));
            assert(segs_have(runs@, first + count - 1));
            assert(segs_set(runs@).contains(first + count - 1));
        }
        slots.remove_range(first as u32, (first + count) as u32);
        proof {
            assert(runs@.take(i + 1) =~= runs@.take(i as int).push((first, count)));
            lemma_segs_set_push(runs@.take(i as int), (first, count));
            assert(slots@ =~= s0.difference(segs_set(runs@.take(i + 1))));
        }
        i += 1;
    }
    assert(runs@.take(runs@.len() as int) =~= runs@);
}

/// One extent per run.
pub(crate) fn extents_of(
    location: DiskLocation,
    base: u64,
    unit: u64,
    runs: &Vec<(u64, u64)>,
) -> (r: Vec<Extent>)
    requires
        location.wf(),
        runs_fit(location.disk_no(), base as int, unit as int, runs@),
    ensures
        r@ == runs@.map_values(
            |run: (u64, u64)| run_extent(location.disk_no(), base as int, unit as int, run),
        ),
{
    let ghost d = location.disk_no();
    let disk = location.disk();
    let mut r: Vec<Extent> = Vec::new();
    let mut i: usize = 0;
    while i < runs.len()
        invariant
            i <= runs@.len(),
            disk.wf(),
            disk.0 == d,
            d == location.disk_no(),
            runs_fit(d, base as int, unit as int, runs@),
            r@.len() == i,
            forall|k: int|
                0 <= k < i ==> r@[k] == run_extent(
                    d,
                    base as int,
                    unit as int,
                    #[trigger] runs@[k],
                ),
        decreases runs@.len() - i,
    {
        let (first, count) = runs[i];
        assert(runs@[i as int] == (first, count));
        r.push(Extent { location: DiskLocation::new(disk, base + first * unit), size: count * unit });
        i += 1;
    }
    r
}

} // verus!
