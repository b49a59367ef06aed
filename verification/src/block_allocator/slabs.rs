//! The slabs of the block allocator, and how they are rebuilt from the space maps.
use crate::block_allocator::flush::all_clean;
use crate::block_allocator::slab::{fits_type, type_ok, usable_bytes, Slab};
use crate::block_allocator::SlabPhysType;
use crate::slab_allocator::{SlabAccess, SlabAllocatorBuilder, SlabId};
use crate::space_map::{apply_entry, changed_extent, entry_fits, replay, replayable, SpaceMapEntry};
use crate::vec_map::VecMap;
use vstd::prelude::*;

verus! {

/// What a log says about one slab.
pub enum SlabRecord {
    /// The slab is not in use.
    Absent,
    /// Some entry did not fit what came before it.
    Broken,
    /// The slab is in use, and these bytes are free.
    Used { slab_type: SlabPhysType, free: Set<int> },
}

/// Whether an entry is about the slab.
pub open spec fn touches(access: SlabAccess, entry: SpaceMapEntry, id: SlabId) -> bool {
    match entry {
        SpaceMapEntry::Alloc(e) => access.valid(id) && access.slab_extent(id).spec_contains(e),
        SpaceMapEntry::Free(e) => access.valid(id) && access.slab_extent(id).spec_contains(e),
        SpaceMapEntry::SlabInfo(i, _) => i == id,
    }
}

/// What is known about the slab after one more entry.
pub open spec fn record_step(
    access: SlabAccess,
    record: SlabRecord,
    entry: SpaceMapEntry,
    id: SlabId,
) -> SlabRecord {
    if !touches(access, entry, id) || record is Broken {
        record
    } else {
        match entry {
            SpaceMapEntry::SlabInfo(_, SlabPhysType::Free) => if record is Used {
                SlabRecord::Absent
            } else {
                SlabRecord::Broken
            },
            SpaceMapEntry::SlabInfo(_, slab_type) => if type_ok(slab_type) {
                SlabRecord::Used {
                    slab_type,
                    free: usable_bytes(slab_type, access.slab_extent(id)),
                }
            } else {
                SlabRecord::Broken
            },
            _ => match record {
                SlabRecord::Used { slab_type, free } => if fits_type(
                    slab_type,
                    access.slab_extent(id),
                    changed_extent(entry)->0,
                ) && entry_fits(free, entry) {
                    SlabRecord::Used { slab_type, free: apply_entry(free, entry) }
                } else {
                    SlabRecord::Broken
                },
                _ => SlabRecord::Broken,
            },
        }
    }
}

/// What is known about the slab after all entries.
pub open spec fn record_after(
    access: SlabAccess,
    record: SlabRecord,
    entries: Seq<SpaceMapEntry>,
    id: SlabId,
) -> SlabRecord
    decreases entries.len(),
{
    if entries.len() == 0 {
        record
    } else {
        record_step(
            access,
            record_after(access, record, entries.drop_last(), id),
            entries.last(),
            id,
        )
    }
}

/// Whether some entry is about the slab.
pub open spec fn mentions(access: SlabAccess, entries: Seq<SpaceMapEntry>, id: SlabId) -> bool {
    exists|i: int| 0 <= i < entries.len() && touches(access, #[trigger] entries[i], id)
}

/// Every entry is about a slab that exists.
pub open spec fn entries_placed(access: SlabAccess, entries: Seq<SpaceMapEntry>) -> bool {
    forall|i: int| 0 <= i < entries.len() ==> entry_placed(access, #[trigger] entries[i])
}

pub open spec fn entry_placed(access: SlabAccess, entry: SpaceMapEntry) -> bool {
    match entry {
        SpaceMapEntry::SlabInfo(id, _) => access.valid(id),
        SpaceMapEntry::Alloc(e) => {
            &&& e.wf()
            &&& e.size > 0
            &&& exists|id: SlabId| access.valid(id) && access.slab_extent(id).spec_contains(e)
        },
        SpaceMapEntry::Free(e) => {
            &&& e.wf()
            &&& e.size > 0
            &&& exists|id: SlabId| access.valid(id) && access.slab_extent(id).spec_contains(e)
        },
    }
}

pub proof fn lemma_record_push(
    access: SlabAccess,
    record: SlabRecord,
    entries: Seq<SpaceMapEntry>,
    entry: SpaceMapEntry,
    id: SlabId,
)
    ensures
        record_after(access, record, entries.push(entry), id) == record_step(
            access,
            record_after(access, record, entries, id),
            entry,
            id,
        ),
{
    assert(entries.push(entry).drop_last() =~= entries);
}

pub proof fn lemma_record_append(
    access: SlabAccess,
    record: SlabRecord,
    a: Seq<SpaceMapEntry>,
    b: Seq<SpaceMapEntry>,
    id: SlabId,
)
    ensures
        record_after(access, record, a + b, id) == record_after(
            access,
            record_after(access, record, a, id),
            b,
            id,
        ),
    decreases b.len(),
{
    if b.len() == 0 {
        assert(a + b =~= a);
    } else {
        lemma_record_append(access, record, a, b.drop_last(), id);
        assert((a + b).drop_last() =~= a + b.drop_last());
    }
}

pub proof fn lemma_record_untouched(
    access: SlabAccess,
    record: SlabRecord,
    entries: Seq<SpaceMapEntry>,
    id: SlabId,
)
    requires
        !mentions(access, entries, id),
    ensures
        record_after(access, record, entries, id) == record,
    decreases entries.len(),
{
    if entries.len() > 0 {
        let d = entries.drop_last();
        assert(!touches(access, entries[entries.len() - 1], id));
        assert forall|i: int| 0 <= i < d.len() implies !touches(access, #[trigger] d[i], id) by {
            assert(d[i] == entries[i]);
        }
        lemma_record_untouched(access, record, d, id);
    }
}

pub proof fn lemma_record_broken(access: SlabAccess, entries: Seq<SpaceMapEntry>, id: SlabId)
    ensures
        record_after(access, SlabRecord::Broken, entries, id) is Broken,
    decreases entries.len(),
{
    if entries.len() > 0 {
        lemma_record_broken(access, entries.drop_last(), id);
    }
}

pub proof fn lemma_mentions_append(
    access: SlabAccess,
    a: Seq<SpaceMapEntry>,
    b: Seq<SpaceMapEntry>,
    id: SlabId,
)
    ensures
        mentions(access, a + b, id) <==> mentions(access, a, id) || mentions(access, b, id),
{
    let s = a + b;
    if mentions(access, a, id) {
        let i = choose|i: int| 0 <= i < a.len() && touches(access, #[trigger] a[i], id);
        assert(touches(access, s[i], id));
    }
    if mentions(access, b, id) {
        let i = choose|i: int| 0 <= i < b.len() && touches(access, #[trigger] b[i], id);
        assert(touches(access, s[a.len() + i], id));
    }
    if mentions(access, s, id) {
        let i = choose|i: int| 0 <= i < s.len() && touches(access, #[trigger] s[i], id);
        if i < a.len() {
            assert(touches(access, a[i], id));
        } else {
            assert(touches(access, b[i - a.len()], id));
        }
    }
}

/// All entries allocate or free blocks of the slab.
pub open spec fn changes_of(
    access: SlabAccess,
    slab_type: SlabPhysType,
    entries: Seq<SpaceMapEntry>,
    id: SlabId,
) -> bool {
    forall|i: int|
        0 <= i < entries.len() ==> {
            let e = changed_extent(#[trigger] entries[i]);
            &&& e is Some
            &&& fits_type(slab_type, access.slab_extent(id), e->0)
            &&& access.slab_extent(id).spec_contains(e->0)
        }
}

/// Changes of one slab can be applied to what is free in it.
pub proof fn lemma_record_changes(
    access: SlabAccess,
    slab_type: SlabPhysType,
    free: Set<int>,
    entries: Seq<SpaceMapEntry>,
    id: SlabId,
)
    requires
        access.valid(id),
        changes_of(access, slab_type, entries, id),
        replayable(free, entries),
    ensures
        record_after(access, SlabRecord::Used { slab_type, free }, entries, id)
            == (SlabRecord::Used { slab_type, free: replay(free, entries) }),
    decreases entries.len(),
{
    if entries.len() > 0 {
        let d = entries.drop_last();
        assert forall|i: int| 0 <= i < d.len() implies ({
            let e = changed_extent(#[trigger] d[i]);
            &&& e is Some
            &&& fits_type(slab_type, access.slab_extent(id), e->0)
            &&& access.slab_extent(id).spec_contains(e->0)
        }) by {
            assert(d[i] == entries[i]);
        }
        lemma_record_changes(access, slab_type, free, d, id);
        let l = entries[entries.len() - 1];
        assert(changed_extent(l) is Some);
    }
}

/// Changes of one slab are about no other slab.
pub proof fn lemma_changes_of_one(
    access: SlabAccess,
    slab_type: SlabPhysType,
    entries: Seq<SpaceMapEntry>,
    id: SlabId,
)
    requires
        access.wf(),
        access.valid(id),
        changes_of(access, slab_type, entries, id),
    ensures
        forall|other: SlabId| other != id ==> !mentions(access, entries, other),
        entries_placed(access, entries),
{
    assert forall|other: SlabId| other != id implies !mentions(access, entries, other) by {
        if mentions(access, entries, other) {
            let i = choose|i: int|
                0 <= i < entries.len() && touches(access, #[trigger] entries[i], other);
            let e = changed_extent(entries[i]);
            assert(e is Some);
            access.law_slab_of_extent_unique(id, other, e->0);
        }
    }
    assert forall|i: int| 0 <= i < entries.len() implies entry_placed(
        access,
        #[trigger] entries[i],
    ) by {
        let e = changed_extent(entries[i]);
        assert(e is Some);
        assert(access.valid(id) && access.slab_extent(id).spec_contains(e->0));
    }
}

/// Sums a number over the slabs below `n`.
pub open spec fn sum_slabs(m: Map<int, Slab>, n: int, f: spec_fn(Slab) -> int) -> int
    decreases n,
{
    if n <= 0 {
        0
    } else {
        sum_slabs(m, n - 1, f) + if m.contains_key(n - 1) {
            f(m[n - 1])
        } else {
            0
        }
    }
}

/// One slab more, less or changed.
pub proof fn lemma_sum_slabs_change(
    a: Map<int, Slab>,
    b: Map<int, Slab>,
    id: int,
    n: int,
    f: spec_fn(Slab) -> int,
)
    requires
        0 <= id,
        a.remove(id) =~= b.remove(id),
    ensures
        sum_slabs(b, n, f) == sum_slabs(a, n, f) + if id < n {
            (if b.contains_key(id) {
                f(b[id])
            } else {
                0
            }) - (if a.contains_key(id) {
                f(a[id])
            } else {
                0
            })
        } else {
            0
        },
    decreases n,
{
    if n > 0 {
        lemma_sum_slabs_change(a, b, id, n - 1, f);
        let k = n - 1;
        if k != id {
            assert(a.remove(id).contains_key(k) == a.contains_key(k));
            assert(b.remove(id).contains_key(k) == b.contains_key(k));
            assert(a.remove(id)[k] == a[k]);
            assert(b.remove(id)[k] == b[k]);
        }
    }
}

/// The numbers of the slabs below `n`.
pub open spec fn ids_below(m: Map<int, Slab>, n: int) -> Set<int> {
    Set::new(|k: int| 0 <= k < n && m.contains_key(k))
}

pub proof fn lemma_sum_slabs_bound(m: Map<int, Slab>, n: int, f: spec_fn(Slab) -> int, most: int)
    requires
        forall|k: int| #[trigger] m.contains_key(k) ==> 0 <= f(m[k]) <= most,
    ensures
        ids_below(m, n).finite(),
        0 <= sum_slabs(m, n, f) <= ids_below(m, n).len() * most,
    decreases n,
{
    if n <= 0 {
        assert(ids_below(m, n) =~= Set::<int>::empty());
    } else {
        lemma_sum_slabs_bound(m, n - 1, f, most);
        let c = ids_below(m, n - 1).len() as int;
        if m.contains_key(n - 1) {
            assert(ids_below(m, n) =~= ids_below(m, n - 1).insert(n - 1));
            assert((c + 1) * most == c * most + most) by (nonlinear_arith);
        } else {
            assert(ids_below(m, n) =~= ids_below(m, n - 1));
        }
    }
}

/// One slab has at most the sum.
pub proof fn lemma_sum_slabs_at_least(
    m: Map<int, Slab>,
    n: int,
    f: spec_fn(Slab) -> int,
    id: int,
)
    requires
        forall|k: int| #[trigger] m.contains_key(k) ==> 0 <= f(m[k]),
        0 <= id < n,
        m.contains_key(id),
    ensures
        f(m[id]) <= sum_slabs(m, n, f),
        0 <= sum_slabs(m, n, f),
    decreases n,
{
    lemma_sum_slabs_nonneg(m, n - 1, f);
    if id < n - 1 {
        lemma_sum_slabs_at_least(m, n - 1, f, id);
    }
}

pub proof fn lemma_sum_slabs_nonneg(m: Map<int, Slab>, n: int, f: spec_fn(Slab) -> int)
    requires
        forall|k: int| #[trigger] m.contains_key(k) ==> 0 <= f(m[k]),
    ensures
        0 <= sum_slabs(m, n, f),
    decreases n,
{
    if n > 0 {
        lemma_sum_slabs_nonneg(m, n - 1, f);
    }
}

pub proof fn lemma_sum_slabs_same(
    a: Map<int, Slab>,
    n: int,
    f: spec_fn(Slab) -> int,
    b: Map<int, Slab>,
    g: spec_fn(Slab) -> int,
)
    requires
        forall|k: int|
            0 <= k < n ==> {
                &&& #[trigger] a.contains_key(k) == b.contains_key(k)
                &&& a.contains_key(k) ==> f(a[k]) == g(b[k])
            },
    ensures
        sum_slabs(a, n, f) == sum_slabs(b, n, g),
    decreases n,
{
    if n > 0 {
        lemma_sum_slabs_same(a, n - 1, f, b, g);
        assert(a.contains_key(n - 1) == b.contains_key(n - 1));
    }
}

/// The slabs by number.
pub struct Slabs {
    pub slabs: VecMap<Slab>,
}

impl View for Slabs {
    type V = Map<int, Slab>;

    open spec fn view(&self) -> Map<int, Slab> {
        self.slabs@
    }
}

/// A slab that is what and where it should be.
pub open spec fn slab_ok(access: SlabAccess, slab: Slab, id: int) -> bool {
    &&& 0 <= id <= u64::MAX
    &&& access.valid(SlabId(id as u64))
    &&& slab.id.0 == id
    &&& slab.wf()
    &&& slab.of(access.slab_extent(SlabId(id as u64)))
    &&& type_ok(slab.slab_type())
}

pub open spec fn slabs_ok(access: SlabAccess, m: Map<int, Slab>) -> bool {
    forall|id: int| #[trigger] m.contains_key(id) ==> slab_ok(access, m[id], id)
}

/// Slab numbers can be used as indices.
pub open spec fn indexable(access: SlabAccess) -> bool {
    &&& access.wf()
    &&& access.slab_size <= u32::MAX
    &&& access.next_slab_id.0 <= usize::MAX
}

/// What has been recorded about a slab.
pub open spec fn record_of(m: Map<int, Slab>, id: int) -> SlabRecord {
    if m.contains_key(id) {
        SlabRecord::Used { slab_type: m[id].slab_type(), free: m[id].recorded_free() }
    } else {
        SlabRecord::Absent
    }
}

/// The entries of two logs can be taken in, one log after the other.
pub open spec fn loadable(
    access: SlabAccess,
    first: Seq<SpaceMapEntry>,
    second: Seq<SpaceMapEntry>,
) -> bool {
    &&& indexable(access)
    &&& entries_placed(access, first)
    &&& entries_placed(access, second)
    &&& forall|id: SlabId|
        !(#[trigger] record_after(access, SlabRecord::Absent, first, id) is Broken)
    &&& forall|id: SlabId|
        !(#[trigger] record_after(access, SlabRecord::Absent, first + second, id) is Broken)
}

impl Slabs {
    pub fn new() -> (r: Slabs)
        ensures
            r@ == Map::<int, Slab>::empty(),
    {
        Slabs { slabs: VecMap::new() }
    }

    pub fn contains(&self, id: SlabId) -> (r: bool)
        requires
            id.0 <= usize::MAX,
        ensures
            r == self@.contains_key(id.0 as int),
    {
        self.slabs.contains_key(id.0 as usize)
    }

    pub fn get(&self, id: SlabId) -> (r: &Slab)
        requires
            id.0 <= usize::MAX,
            self@.contains_key(id.0 as int),
        ensures
            *r == self@[id.0 as int],
    {
        self.slabs.get(id.0 as usize).unwrap()
    }

    /// Returns the old slab.
    pub fn insert(&mut self, id: SlabId, slab: Slab) -> (r: Option<Slab>)
        requires
            id.0 < usize::MAX,
            slab.id == id,
        ensures
            final(self)@ == old(self)@.insert(id.0 as int, slab),
            match r {
                Some(v) => old(self)@.contains_key(id.0 as int) && v == old(self)@[id.0 as int],
                None => !old(self)@.contains_key(id.0 as int),
            },
    {
        self.slabs.insert(id.0 as usize, slab)
    }

    /// Returns the old slab.
    pub fn remove(&mut self, id: SlabId) -> (r: Option<Slab>)
        requires
            id.0 <= usize::MAX,
        ensures
            final(self)@ == old(self)@.remove(id.0 as int),
            match r {
                Some(v) => old(self)@.contains_key(id.0 as int) && v == old(self)@[id.0 as int],
                None => !old(self)@.contains_key(id.0 as int),
            },
    {
        self.slabs.remove(id.0 as usize)
    }

    /// The numbers of the slabs, in ascending order.
    pub fn ids(&self) -> (r: Vec<SlabId>)
        ensures
            forall|i: int, j: int| 0 <= i < j < r@.len() ==> (#[trigger] r@[i]).0 < (
            #[trigger] r@[j]).0,
            forall|i: int|
                0 <= i < r@.len() ==> (#[trigger] r@[i]).0 <= usize::MAX && self@.contains_key(
                    r@[i].0 as int,
                ),
            forall|k: int|
                #[trigger] self@.contains_key(k) ==> exists|i: int|
                    0 <= i < r@.len() && (#[trigger] r@[i]).0 == k,
    {
        let keys = self.slabs.keys();
        let mut r: Vec<SlabId> = Vec::new();
        let mut i: usize = 0;
        while i < keys.len()
            invariant
                i <= keys@.len(),
                r@.len() == i,
                forall|k: int| 0 <= k < i ==> (#[trigger] r@[k]).0 == keys@[k],
            decreases keys@.len() - i,
        {
            r.push(SlabId(keys[i] as u64));
            i += 1;
        }
        proof {
            assert forall|k: int| #[trigger] self@.contains_key(k) implies exists|i: int|
                0 <= i < r@.len() && (#[trigger] r@[i]).0 == k by {
                let i = choose|i: int| 0 <= i < keys@.len() && keys@[i] == k;
                assert(r@[i].0 == k);
            }
        }
        r
    }

    pub open spec fn segments(&self, n: int) -> int {
        sum_slabs(self@, n, |s: Slab| s.spec_num_segments())
    }

    pub fn total_segments(&self) -> (r: u64)
        requires
            forall|id: int| #[trigger] self@.contains_key(id) ==> self@[id].wf(),
            self.segments(self.slabs.entries@.len() as int) <= u64::MAX,
        ensures
            r == self.segments(self.slabs.entries@.len() as int),
    {
        let mut total: u64 = 0;
        let mut i: usize = 0;
        let ghost f = |s: Slab| s.spec_num_segments();
        while i < self.slabs.entries.len()
            invariant
                i <= self.slabs.entries@.len(),
                forall|id: int| #[trigger] self@.contains_key(id) ==> self@[id].wf(),
                self.segments(self.slabs.entries@.len() as int) <= u64::MAX,
                f == |s: Slab| s.spec_num_segments(),
                total == sum_slabs(self@, i as int, f),
            decreases self.slabs.entries@.len() - i,
        {
            proof {
                assert(sum_slabs(self@, i + 1, f) == sum_slabs(self@, i as int, f)
                    + if self@.contains_key(i as int) {
                    f(self@[i as int])
                } else {
                    0
                });
                lemma_sum_slabs_mono(self@, i + 1, self.slabs.entries@.len() as int, f);
            }
            if let Some(slab) = self.slabs.get(i) {
                total = total + slab.num_segments();
            }
            i += 1;
        }
        total
    }

    pub fn len(&self) -> (r: usize)
        ensures
            r == ids_below(self@, self.slabs.entries@.len() as int).len(),
    {
        let mut n: usize = 0;
        let mut i: usize = 0;
        assert(ids_below(self@, 0) =~= Set::<int>::empty());
        while i < self.slabs.entries.len()
            invariant
                i <= self.slabs.entries@.len(),
                n <= i,
                ids_below(self@, i as int).finite(),
                n == ids_below(self@, i as int).len(),
            decreases self.slabs.entries@.len() - i,
        {
            if self.slabs.contains_key(i) {
                n += 1;
                assert(ids_below(self@, i + 1) =~= ids_below(self@, i as int).insert(i as int));
            } else {
                assert(ids_below(self@, i + 1) =~= ids_below(self@, i as int));
            }
            i += 1;
        }
        n
    }

    /// Takes in one logged entry.
    pub fn import(&mut self, entry: SpaceMapEntry, access: &SlabAccess)
        requires
            indexable(*access),
            slabs_ok(*access, old(self)@),
            forall|id: int| #[trigger] old(self)@.contains_key(id) ==> old(self)@[id].clean(),
            entry_placed(*access, entry),
            forall|id: SlabId|
                !(#[trigger] record_step(
                    *access,
                    record_of(old(self)@, id.0 as int),
                    entry,
                    id,
                ) is Broken),
        ensures
            slabs_ok(*access, final(self)@),
            forall|id: int| #[trigger] final(self)@.contains_key(id) ==> final(self)@[id].clean(),
            all_clean(old(self)@) ==> all_clean(final(self)@),
            forall|id: SlabId|
                record_of(final(self)@, id.0 as int) == #[trigger] record_step(
                    *access,
                    record_of(old(self)@, id.0 as int),
                    entry,
                    id,
                ),
    {
        let ghost m0 = self@;
        match entry {
            SpaceMapEntry::Alloc(extent) => {
                let id = access.extent_to_slab_id(extent);
                proof {
                    access.lemma_id_below_next(id);
                    lemma_touches_one(*access, entry, id);
                    assert(!(record_step(
                        *access,
                        record_of(m0, id.0 as int),
                        entry,
                        id,
                    ) is Broken));
                    assert(m0.contains_key(id.0 as int));
                    m0[id.0 as int].lemma_fits(access.slab_extent(id), extent);
                    m0[id.0 as int].lemma_clean_record();
                }
                let mut slab = self.remove(id).unwrap();
                slab.import_alloc(extent);
                proof {
                    slab.lemma_clean_record();
                }
                let _ = self.insert(id, slab);
                proof {
                    assert(self@ =~= m0.insert(id.0 as int, slab));
                    lemma_imported(*access, m0, self@, entry, id);
                }
            },
            SpaceMapEntry::Free(extent) => {
                let id = access.extent_to_slab_id(extent);
                proof {
                    access.lemma_id_below_next(id);
                    lemma_touches_one(*access, entry, id);
                    assert(!(record_step(
                        *access,
                        record_of(m0, id.0 as int),
                        entry,
                        id,
                    ) is Broken));
                    assert(m0.contains_key(id.0 as int));
                    m0[id.0 as int].lemma_fits(access.slab_extent(id), extent);
                    m0[id.0 as int].lemma_clean_record();
                }
                let mut slab = self.remove(id).unwrap();
                slab.import_free(extent);
                proof {
                    slab.lemma_clean_record();
                }
                let _ = self.insert(id, slab);
                proof {
                    assert(self@ =~= m0.insert(id.0 as int, slab));
                    lemma_imported(*access, m0, self@, entry, id);
                }
            },
            SpaceMapEntry::SlabInfo(id, slab_type) => {
                proof {
                    access.lemma_id_below_next(id);
                    assert(!(record_step(
                        *access,
                        record_of(m0, id.0 as int),
                        entry,
                        id,
                    ) is Broken));
                }
                let extent = access.slab_id_to_extent(id);
                match slab_type {
                    SlabPhysType::BitmapBased { block_size } => {
                        let slab = Slab::new_bitmap(id, extent, block_size);
                        proof {
                            slab.lemma_clean_record();
                        }
                        let _ = self.insert(id, slab);
                    },
                    SlabPhysType::ExtentBased { max_size } => {
                        let slab = Slab::new_extent_based(id, extent, max_size);
                        proof {
                            slab.lemma_clean_record();
                        }
                        let _ = self.insert(id, slab);
                    },
                    SlabPhysType::Free => {
                        let _ = self.remove(id);
                    },
                    SlabPhysType::Evacuating => {
                        let slab = Slab::new_evacuating(id, extent);
                        proof {
                            slab.lemma_clean_record();
                        }
                        let _ = self.insert(id, slab);
                    },
                }
                proof {
                    lemma_imported(*access, m0, self@, entry, id);
                }
            },
        }
    }

    /// Takes in all entries of a log.
    pub fn import_all(&mut self, entries: &Vec<SpaceMapEntry>, access: &SlabAccess)
        requires
            indexable(*access),
            slabs_ok(*access, old(self)@),
            forall|id: int| #[trigger] old(self)@.contains_key(id) ==> old(self)@[id].clean(),
            entries_placed(*access, entries@),
            forall|id: SlabId|
                !(#[trigger] record_after(
                    *access,
                    record_of(old(self)@, id.0 as int),
                    entries@,
                    id,
                ) is Broken),
        ensures
            slabs_ok(*access, final(self)@),
            forall|id: int| #[trigger] final(self)@.contains_key(id) ==> final(self)@[id].clean(),
            all_clean(old(self)@) ==> all_clean(final(self)@),
            forall|id: SlabId|
                record_of(final(self)@, id.0 as int) == #[trigger] record_after(
                    *access,
                    record_of(old(self)@, id.0 as int),
                    entries@,
                    id,
                ),
    {
        let ghost m0 = self@;
        let mut i: usize = 0;
        assert(entries@.take(0) =~= Seq::<SpaceMapEntry>::empty());
        while i < entries.len()
            invariant
                i <= entries@.len(),
                indexable(*access),
                slabs_ok(*access, self@),
                forall|id: int| #[trigger] self@.contains_key(id) ==> self@[id].clean(),
                all_clean(m0) ==> all_clean(self@),
                entries_placed(*access, entries@),
                forall|id: SlabId|
                    !(#[trigger] record_after(
                        *access,
                        record_of(m0, id.0 as int),
                        entries@,
                        id,
                    ) is Broken),
                forall|id: SlabId|
                    record_of(self@, id.0 as int) == #[trigger] record_after(
                        *access,
                        record_of(m0, id.0 as int),
                        entries@.take(i as int),
                        id,
                    ),
            decreases entries@.len() - i,
        {
            let entry = entries[i];
            let ghost m1 = self@;
            proof {
                assert(entries@.take(i + 1) =~= entries@.take(i as int).push(entry));
                assert forall|id: SlabId|
                    !(#[trigger] record_step(
                        *access,
                        record_of(m1, id.0 as int),
                        entry,
                        id,
                    ) is Broken) by {
                    let r0 = record_of(m0, id.0 as int);
                    lemma_record_push(*access, r0, entries@.take(i as int), entry, id);
                    let done = entries@.take(i + 1);
                    let rest = entries@.skip(i + 1);
                    assert(entries@ =~= done + rest);
                    lemma_record_append(*access, r0, done, rest, id);
                    assert(!(record_after(*access, r0, entries@, id) is Broken));
                    lemma_record_broken(*access, rest, id);
                    assert(record_of(m1, id.0 as int) == record_after(
                        *access,
                        r0,
                        entries@.take(i as int),
                        id,
                    ));
                }
                assert(entry_placed(*access, entries@[i as int]));
            }
            self.import(entry, access);
            proof {
                assert forall|id: SlabId|
                    record_of(self@, id.0 as int) == #[trigger] record_after(
                        *access,
                        record_of(m0, id.0 as int),
                        entries@.take(i + 1),
                        id,
                    ) by {
                    let r0 = record_of(m0, id.0 as int);
                    lemma_record_push(*access, r0, entries@.take(i as int), entry, id);
                    assert(record_of(m1, id.0 as int) == record_after(
                        *access,
                        r0,
                        entries@.take(i as int),
                        id,
                    ));
                    assert(record_of(self@, id.0 as int) == record_step(
                        *access,
                        record_of(m1, id.0 as int),
                        entry,
                        id,
                    ));
                }
            }
            i += 1;
        }
        assert(entries@.take(entries@.len() as int) =~= entries@);
    }

    /// The slabs, as recorded in the space maps whose entries are given.
    pub fn load(
        access: &SlabAccess,
        first: &Vec<SpaceMapEntry>,
        second: &Vec<SpaceMapEntry>,
    ) -> (r: Slabs)
        requires
            loadable(*access, first@, second@),
        ensures
            slabs_ok(*access, r@),
            all_clean(r@),
            forall|id: SlabId|
                record_of(r@, id.0 as int) == #[trigger] record_after(
                    *access,
                    SlabRecord::Absent,
                    first@ + second@,
                    id,
                ),
    {
        let mut slabs = Slabs::new();
        proof {
            assert forall|id: SlabId|
                !(#[trigger] record_after(
                    *access,
                    record_of(slabs@, id.0 as int),
                    first@,
                    id,
                ) is Broken) by {
                assert(record_of(slabs@, id.0 as int) == SlabRecord::Absent);
            }
        }
        let ghost m0 = slabs@;
        slabs.import_all(first, access);
        proof {
            assert forall|id: SlabId|
                #[trigger] record_after(
                    *access,
                    record_of(slabs@, id.0 as int),
                    second@,
                    id,
                ) == record_after(*access, SlabRecord::Absent, first@ + second@, id) by {
                assert(record_of(m0, id.0 as int) == SlabRecord::Absent);
                assert(record_of(slabs@, id.0 as int) == record_after(
                    *access,
                    record_of(m0, id.0 as int),
                    first@,
                    id,
                ));
                lemma_record_append(*access, SlabRecord::Absent, first@, second@, id);
            }
        }
        let ghost m1 = slabs@;
        slabs.import_all(second, access);
        proof {
            assert forall|id: SlabId|
                record_of(slabs@, id.0 as int) == #[trigger] record_after(
                    *access,
                    SlabRecord::Absent,
                    first@ + second@,
                    id,
                ) by {
                assert(record_of(slabs@, id.0 as int) == record_after(
                    *access,
                    record_of(m1, id.0 as int),
                    second@,
                    id,
                ));
            }
        }
        slabs
    }

    /// Claims all slabs.
    pub fn claim_all(&self, slab_builder: &mut SlabAllocatorBuilder)
        requires
            old(slab_builder).wf(),
            slabs_ok(old(slab_builder).access, self@),
            forall|x: int|
                #[trigger] self@.contains_key(x) ==> old(slab_builder).unclaimed(
                    SlabId(x as u64),
                ),
        ensures
            final(slab_builder).wf(),
            final(slab_builder).access == old(slab_builder).access,
            forall|s: SlabId|
                #[trigger] final(slab_builder).unclaimed(s) <==> old(slab_builder).unclaimed(s)
                    && !self@.contains_key(s.0 as int),
    {
        let ids = self.ids();
        let ghost b0 = *slab_builder;
        let mut i: usize = 0;
        while i < ids.len()
            invariant
                i <= ids@.len(),
                slab_builder.wf(),
                slab_builder.access == b0.access,
                forall|x: int, y: int| 0 <= x < y < ids@.len() ==> (#[trigger] ids@[x]).0 < (
                #[trigger] ids@[y]).0,
                forall|x: int|
                    0 <= x < ids@.len() ==> self@.contains_key(
                        (#[trigger] ids@[x]).0 as int,
                    ),
                forall|x: int|
                    #[trigger] self@.contains_key(x) ==> b0.unclaimed(SlabId(x as u64)),
                forall|s: SlabId|
                    #[trigger] slab_builder.unclaimed(s) <==> b0.unclaimed(s) && !exists|k: int|
                        0 <= k < i && (#[trigger] ids@[k]) == s,
            decreases ids@.len() - i,
        {
            let ghost b1 = *slab_builder;
            proof {
                let s = ids@[i as int];
                assert(self@.contains_key(s.0 as int));
                assert(SlabId(s.0 as int as u64) == s);
                assert(b1.unclaimed(s));
            }
            slab_builder.claim(ids[i]);
            proof {
                assert forall|s: SlabId|
                    #[trigger] slab_builder.unclaimed(s) <==> b0.unclaimed(s) && !exists|k: int|
                        0 <= k < i + 1 && (#[trigger] ids@[k]) == s by {
                    assert(b1.unclaimed(s) <==> b0.unclaimed(s) && !exists|k: int|
                        0 <= k < i && (#[trigger] ids@[k]) == s);
                    assert(slab_builder.unclaimed(s) <==> b1.unclaimed(s) && s != ids@[i as int]);
                    if exists|k: int| 0 <= k < i && (#[trigger] ids@[k]) == s {
                        let k = choose|k: int| 0 <= k < i && (#[trigger] ids@[k]) == s;
                        assert(ids@[k] == s);
                    }
                    if s == ids@[i as int] {
                        assert(ids@[i as int] == s);
                    }
                }
            }
            i += 1;
        }
        proof {
            assert forall|s: SlabId|
                #[trigger] slab_builder.unclaimed(s) <==> b0.unclaimed(s)
                    && !self@.contains_key(s.0 as int) by {
                if self@.contains_key(s.0 as int) {
                    let k = choose|k: int| 0 <= k < ids@.len() && (#[trigger] ids@[k]).0 == s.0;
                    assert(ids@[k] == s);
                }
            }
        }
    }

    /// Opens the slabs that the space maps record: those whose last record is not that they are
    /// free. They are claimed, and are as the logs left them.
    pub fn open(
        slab_builder: &mut SlabAllocatorBuilder,
        first: &Vec<SpaceMapEntry>,
        second: &Vec<SpaceMapEntry>,
    ) -> (r: Slabs)
        requires
            old(slab_builder).wf(),
            loadable(old(slab_builder).access, first@, second@),
            forall|id: SlabId|
                !(#[trigger] record_after(
                    old(slab_builder).access,
                    SlabRecord::Absent,
                    first@ + second@,
                    id,
                ) is Absent) ==> old(slab_builder).unclaimed(id),
        ensures
            final(slab_builder).wf(),
            final(slab_builder).access == old(slab_builder).access,
            slabs_ok(old(slab_builder).access, r@),
            all_clean(r@),
            forall|id: SlabId|
                record_of(r@, id.0 as int) == #[trigger] record_after(
                    old(slab_builder).access,
                    SlabRecord::Absent,
                    first@ + second@,
                    id,
                ),
            forall|id: SlabId|
                #[trigger] final(slab_builder).unclaimed(id) <==> old(slab_builder).unclaimed(id)
                    && record_after(
                    old(slab_builder).access,
                    SlabRecord::Absent,
                    first@ + second@,
                    id,
                ) is Absent,
    {
        let ghost b0 = *slab_builder;
        let slabs = Slabs::load(slab_builder.access(), first, second);
        proof {
            assert forall|x: int| #[trigger] slabs@.contains_key(x) implies b0.unclaimed(
                SlabId(x as u64),
            ) by {
                assert(slab_ok(b0.access, slabs@[x], x));
                let id = SlabId(x as u64);
                assert(record_of(slabs@, id.0 as int) == record_after(
                    b0.access,
                    SlabRecord::Absent,
                    first@ + second@,
                    id,
                ));
            }
        }
        slabs.claim_all(slab_builder);
        proof {
            assert forall|id: SlabId|
                #[trigger] slab_builder.unclaimed(id) <==> b0.unclaimed(id) && record_after(
                    b0.access,
                    SlabRecord::Absent,
                    first@ + second@,
                    id,
                ) is Absent by {
                assert(record_of(slabs@, id.0 as int) == record_after(
                    b0.access,
                    SlabRecord::Absent,
                    first@ + second@,
                    id,
                ));
            }
        }
        slabs
    }
}

proof fn lemma_touches_one(access: SlabAccess, entry: SpaceMapEntry, id: SlabId)
    requires
        access.wf(),
        entry_placed(access, entry),
        touches(access, entry, id),
    ensures
        forall|other: SlabId| other != id ==> !#[trigger] touches(access, entry, other),
{
    assert forall|other: SlabId| other != id implies !#[trigger] touches(access, entry, other) by {
        if touches(access, entry, other) {
            if changed_extent(entry) is Some {
                access.law_slab_of_extent_unique(id, other, changed_extent(entry)->0);
            }
        }
    }
}

/// Only the slab that the entry is about has changed.
proof fn lemma_imported(
    access: SlabAccess,
    a: Map<int, Slab>,
    b: Map<int, Slab>,
    entry: SpaceMapEntry,
    id: SlabId,
)
    requires
        access.wf(),
        entry_placed(access, entry),
        touches(access, entry, id),
        slabs_ok(access, a),
        forall|k: int| #[trigger] a.contains_key(k) ==> a[k].clean(),
        b.remove(id.0 as int) =~= a.remove(id.0 as int),
        b.contains_key(id.0 as int) ==> slab_ok(access, b[id.0 as int], id.0 as int)
            && b[id.0 as int].clean(),
        record_of(b, id.0 as int) == record_step(access, record_of(a, id.0 as int), entry, id),
    ensures
        slabs_ok(access, b),
        forall|k: int| #[trigger] b.contains_key(k) ==> b[k].clean(),
        forall|other: SlabId|
            record_of(b, other.0 as int) == #[trigger] record_step(
                access,
                record_of(a, other.0 as int),
                entry,
                other,
            ),
{
    lemma_touches_one(access, entry, id);
    let i = id.0 as int;
    assert forall|k: int| k != i implies (#[trigger] b.contains_key(k) == a.contains_key(k)) && (
    a.contains_key(k) ==> b[k] == a[k]) by {
        assert(b.remove(i).contains_key(k) == b.contains_key(k));
        assert(a.remove(i).contains_key(k) == a.contains_key(k));
        assert(b.remove(i)[k] == b[k]);
        assert(a.remove(i)[k] == a[k]);
    }
    assert forall|other: SlabId|
        record_of(b, other.0 as int) == #[trigger] record_step(
            access,
            record_of(a, other.0 as int),
            entry,
            other,
        ) by {
        if other != id {
            assert(other.0 as int != i);
            assert(b.contains_key(other.0 as int) == a.contains_key(other.0 as int));
            assert(!touches(access, entry, other));
        }
    }
}

proof fn lemma_sum_slabs_mono(m: Map<int, Slab>, n: int, l: int, f: spec_fn(Slab) -> int)
    requires
        n <= l,
        forall|k: int| #[trigger] m.contains_key(k) ==> 0 <= f(m[k]),
    ensures
        sum_slabs(m, n, f) <= sum_slabs(m, l, f),
    decreases l - n,
{
    if n < l {
        lemma_sum_slabs_mono(m, n, l - 1, f);
        lemma_sum_slabs_nonneg(m, l - 1, f);
    }
}

} // verus!
