//! The end of a rebalance: the slabs that were given up become free.
use crate::block_allocator::buckets::has_slab;
use crate::block_allocator::invariants::{
    blocked, buckets_ok, distinct, home, inside, lemma_dirty_change, lemma_logs_append,
    lemma_stats_change, noalloc_exact, noalloc_ok, stats_ok,
};
use crate::block_allocator::slab::Slab;
use crate::block_allocator::slabs::{
    entry_placed, mentions, record_after, record_of, slab_ok, slabs_ok, touches, SlabRecord,
};
use crate::block_allocator::{logged, BlockAllocator, SlabPhysType};
use crate::slab_allocator::{SlabAllocator, SlabId};
use crate::space_map::{
    continued, lemma_continued, lemma_continued_by_info, lemma_continued_by_none, SpaceMapEntry,
};
use vstd::prelude::*;

verus! {

/// The slabs that are listed for a disk.
pub open spec fn list_at(noalloc: Map<int, Vec<SlabId>>, d: int) -> Seq<SlabId> {
    if noalloc.contains_key(d) {
        noalloc[d]@
    } else {
        Seq::empty()
    }
}

/// The slabs of a list that are still in use.
pub open spec fn live_in(list: Seq<SlabId>, m: Map<int, Slab>) -> Seq<SlabId> {
    list.filter(|id: SlabId| m[id.0 as int].live())
}

/// The entries that record slabs as free in the first space map, or else in the second one.
pub open spec fn free_infos(ids: Seq<SlabId>, cursor: SlabId, first: bool) -> Seq<SpaceMapEntry>
    decreases ids.len(),
{
    if ids.len() == 0 {
        Seq::empty()
    } else {
        let rest = free_infos(ids.drop_last(), cursor, first);
        if (cursor.0 <= ids.last().0) == first {
            rest.push(SpaceMapEntry::SlabInfo(ids.last(), SlabPhysType::Free))
        } else {
            rest
        }
    }
}

/// What is left of the lists when `id` is taken out of that of disk `d`.
pub open spec fn taken_out(
    a: Map<int, Vec<SlabId>>,
    b: Map<int, Vec<SlabId>>,
    d: int,
    id: SlabId,
) -> bool {
    &&& forall|x: int| x != d ==> #[trigger] list_at(b, x) == list_at(a, x)
    &&& if a.contains_key(d) {
        exists|p: int|
            0 <= p < a[d]@.len() && a[d]@[p] == id && list_at(b, d) == #[trigger] a[d]@.remove(p)
    } else {
        list_at(b, d) == list_at(a, d)
    }
    &&& forall|x: int| #[trigger] b.contains_key(x) ==> a.contains_key(x) && b[x]@.len() > 0
}

proof fn lemma_live_in_remove(list: Seq<SlabId>, m: Map<int, Slab>, p: int)
    requires
        0 <= p < list.len(),
        !m[list[p].0 as int].live(),
    ensures
        live_in(list.remove(p), m) == live_in(list, m),
    decreases list.len(),
{
    reveal(Seq::filter);
    let rest = list.remove(p);
    if p == list.len() - 1 {
        assert(rest =~= list.drop_last());
    } else {
        lemma_live_in_remove(list.drop_last(), m, p);
        assert(rest.drop_last() =~= list.drop_last().remove(p));
        assert(rest.last() == list.last());
    }
}

proof fn lemma_live_in_all(list: Seq<SlabId>, m: Map<int, Slab>)
    requires
        forall|k: int| 0 <= k < list.len() ==> m[(#[trigger] list[k]).0 as int].live(),
    ensures
        live_in(list, m) == list,
    decreases list.len(),
{
    reveal(Seq::filter);
    if list.len() > 0 {
        assert forall|k: int| 0 <= k < list.drop_last().len() implies m[(
        #[trigger] list.drop_last()[k]).0 as int].live() by {
            assert(list.drop_last()[k] == list[k]);
        }
        lemma_live_in_all(list.drop_last(), m);
        assert(m[list[list.len() - 1].0 as int].live());
        assert(list.drop_last().push(list.last()) =~= list);
    }
}

/// Which disks are blocked depends on slabs that are in use only.
proof fn lemma_released_noalloc(a: BlockAllocator, b: BlockAllocator, id: SlabId, d: int)
    requires
        noalloc_ok(a.noalloc_state@, a.evacuating_slabs@, a.slabs@),
        a.evacuating_slabs@.len() > 0,
        id == a.evacuating_slabs@[0],
        a.slabs@.contains_key(id.0 as int),
        !a.slabs@[id.0 as int].live(),
        d == a.slabs@[id.0 as int].disk(),
        b.slabs@ == a.slabs@.remove(id.0 as int),
        b.evacuating_slabs@ == a.evacuating_slabs@.remove(0),
        taken_out(a.noalloc_state@, b.noalloc_state@, d, id),
        forall|x: int| #[trigger] a.slabs@.contains_key(x) ==> a.slabs@[x].id.0 == x,
    ensures
        noalloc_ok(b.noalloc_state@, b.evacuating_slabs@, b.slabs@),
        forall|x: int| #[trigger] b.is_blocked(x) == a.is_blocked(x),
{
    reveal(noalloc_ok);
    let n = a.noalloc_state@;
    let n2 = b.noalloc_state@;
    let m = a.slabs@;
    let m2 = b.slabs@;
    let e = a.evacuating_slabs@;
    let e2 = b.evacuating_slabs@;
    assert forall|s: SlabId| #[trigger] e2.contains(s) <==> m2.contains_key(s.0 as int)
        && !m2[s.0 as int].live() by {
        if e2.contains(s) {
            let k = choose|k: int| 0 <= k < e2.len() && e2[k] == s;
            assert(e2[k] == e[k + 1]);
            assert(e[0] != e[k + 1]);
            assert(e.contains(s));
        }
        if m2.contains_key(s.0 as int) && !m2[s.0 as int].live() {
            assert(e.contains(s));
            let k = choose|k: int| 0 <= k < e.len() && e[k] == s;
            assert(e2[k - 1] == s);
        }
    }
    assert(distinct(e2)) by {
        assert forall|i: int, j: int| 0 <= i < j < e2.len() implies e2[i] != e2[j] by {
            assert(e2[i] == e[i + 1] && e2[j] == e[j + 1]);
        }
    }
    if n.contains_key(d) {
        assert(n[d]@.contains(id));
    }
    // the members of a list are those of the list before, but for the slab
    assert forall|x: int, s: SlabId| #[trigger] list_at(n2, x).contains(s) <==> list_at(
        n,
        x,
    ).contains(s) && s != id by {
        if x == d && n.contains_key(d) {
            let l = n[d]@;
            let p = choose|p: int|
                0 <= p < l.len() && l[p] == id && list_at(n2, d) == #[trigger] l.remove(p);
            assert(distinct(l));
            let l2 = l.remove(p);
            if l2.contains(s) {
                let k = choose|k: int| 0 <= k < l2.len() && l2[k] == s;
                if k < p {
                    assert(l[k] == s);
                } else {
                    assert(l[k + 1] == s);
                }
            }
            if l.contains(s) && s != id {
                let k = choose|k: int| 0 <= k < l.len() && l[k] == s;
                if k < p {
                    assert(l2[k] == s);
                } else {
                    assert(l2[k - 1] == s);
                }
            }
        } else {
            assert(list_at(n2, x) == list_at(n, x));
            if list_at(n, x).contains(id) {
                let k = choose|k: int| 0 <= k < list_at(n, x).len() && list_at(n, x)[k] == id;
                assert(m[n[x]@[k].0 as int].disk() == x);
            }
        }
    }
    assert forall|x: int| #[trigger] n2.contains_key(x) implies distinct(n2[x]@) && n2[x]@.len()
        > 0 by {
        assert(n.contains_key(x));
        assert(distinct(n[x]@));
        assert(n2[x]@ == list_at(n2, x));
        if x == d {
            let l = n[d]@;
            let p = choose|p: int|
                0 <= p < l.len() && l[p] == id && list_at(n2, d) == #[trigger] l.remove(p);
            let l2 = l.remove(p);
            assert forall|i: int, j: int| 0 <= i < j < l2.len() implies l2[i] != l2[j] by {
                let i0 = if i < p { i } else { i + 1 };
                let j0 = if j < p { j } else { j + 1 };
                assert(l2[i] == l[i0] && l2[j] == l[j0]);
            }
        } else {
            assert(list_at(n2, x) == list_at(n, x));
        }
    }
    assert forall|x: int, k: int|
        n2.contains_key(x) && 0 <= k < n2[x]@.len() implies m2.contains_key(
        (#[trigger] n2[x]@[k]).0 as int,
    ) && m2[n2[x]@[k].0 as int].disk() == x by {
        let s = n2[x]@[k];
        assert(list_at(n2, x).contains(s));
        assert(list_at(n, x).contains(s));
        let j = choose|j: int| 0 <= j < list_at(n, x).len() && list_at(n, x)[j] == s;
        assert(n[x]@[j] == s);
    }
    assert forall|x: int| #[trigger] b.is_blocked(x) == a.is_blocked(x) by {
        if a.is_blocked(x) {
            let k = choose|k: int|
                0 <= k < n[x]@.len() && m[(#[trigger] n[x]@[k]).0 as int].live();
            let s = n[x]@[k];
            assert(list_at(n, x).contains(s));
            assert(list_at(n2, x).contains(s));
            let j = choose|j: int| 0 <= j < list_at(n2, x).len() && list_at(n2, x)[j] == s;
            assert(n2[x]@[j] == s);
        }
        if b.is_blocked(x) {
            let k = choose|k: int|
                0 <= k < n2[x]@.len() && m2[(#[trigger] n2[x]@[k]).0 as int].live();
            let s = n2[x]@[k];
            assert(list_at(n2, x).contains(s));
            assert(list_at(n, x).contains(s));
            let j = choose|j: int| 0 <= j < list_at(n, x).len() && list_at(n, x)[j] == s;
            assert(n[x]@[j] == s);
        }
    }
    assert forall|x: int| #[trigger]
        m2.contains_key(x) && n2.contains_key(m2[x].disk()) && (!m2[x].live() || blocked(
            n2,
            m2,
            m2[x].disk(),
        )) implies n2[m2[x].disk()]@.contains(m2[x].id) by {
        let y = m2[x].disk();
        assert(m.contains_key(x));
        assert(n.contains_key(y));
        assert(b.is_blocked(y) == a.is_blocked(y));
        assert(list_at(n, y).contains(m[x].id));
        assert(list_at(n2, y).contains(m[x].id));
    }
}

#[verifier::spinoff_prover]
#[verifier::rlimit(40)]
proof fn lemma_released(
    a: BlockAllocator,
    b: BlockAllocator,
    sa: SlabAllocator,
    sb: SlabAllocator,
    id: SlabId,
    d: int,
)
    requires
        a.wf(sa),
        a.aside@ == Set::<int>::empty(),
        a.evacuating_slabs@.len() > 0,
        id == a.evacuating_slabs@[0],
        a.slabs@.contains_key(id.0 as int),
        !a.slabs@[id.0 as int].live(),
        d == a.slabs@[id.0 as int].disk(),
        b == (BlockAllocator {
            spacemap: b.spacemap,
            spacemap_next: b.spacemap_next,
            slabs: b.slabs,
            evacuating_slabs: b.evacuating_slabs,
            noalloc_state: b.noalloc_state,
            ..a
        }),
        b.slabs@ == a.slabs@.remove(id.0 as int),
        b.evacuating_slabs@ == a.evacuating_slabs@.remove(0),
        taken_out(a.noalloc_state@, b.noalloc_state@, d, id),
        logged(a, b, id, seq![SpaceMapEntry::SlabInfo(id, SlabPhysType::Free)]),
        sb.wf(),
        sb.access == sa.access,
        sb.allocatable == sa.allocatable,
        forall|s: SlabId|
            #[trigger] sb.places(s) == sa.places(s) + if s == id {
                1nat
            } else {
                0nat
            },
    ensures
        b.wf(sb),
        a.ready(sa) ==> b.ready(sb),
        forall|x: int| #[trigger] b.is_blocked(x) == a.is_blocked(x),
{
    let i = id.0 as int;
    let m = a.slabs@;
    let m2 = b.slabs@;
    let access = sa.access;
    reveal(BlockAllocator::owned_ok);
    assert forall|x: int| #[trigger] m.contains_key(x) implies m[x].id.0 == x by {
        assert(slab_ok(access, m[x], x));
    }
    assert(slab_ok(access, m[i], i));
    access.lemma_id_below_next(id);
    lemma_released_noalloc(a, b, id, d);
    assert(slabs_ok(access, m2)) by {
        assert forall|x: int| #[trigger] m2.contains_key(x) implies slab_ok(access, m2[x], x) by {
            assert(m.contains_key(x));
        }
    }
    assert(m[i].free_bytes() =~= Set::<int>::empty());
    assert(m[i].allocated_bytes() =~= Set::<int>::empty());
    assert(a.per_disk_stats@.contains_key(d)) by {
        reveal(stats_ok);
    }
    assert(a.per_disk_stats@[d].noalloc_bytes <= a.per_disk_stats@[d].free_bytes) by {
        reveal(stats_ok);
    }
    lemma_stats_change(
        a.per_disk_stats@,
        b.per_disk_stats@,
        m,
        m2,
        i,
        access.next_slab_id.0 as int,
        d,
    );
    lemma_dirty_change(a.dirty_slabs@, b.dirty_slabs@, m, m2, i);
    let entry = SpaceMapEntry::SlabInfo(id, SlabPhysType::Free);
    let entries = seq![entry];
    assert(entries.drop_last() =~= Seq::<SpaceMapEntry>::empty());
    assert(entries.last() == entry);
    assert(record_after(access, record_of(m, i), entries.drop_last(), id) == record_of(m, i));
    assert(record_after(access, record_of(m, i), entries, id) == SlabRecord::Absent);
    assert(entry_placed(access, entry));
    assert forall|o: SlabId| o != id implies !mentions(access, entries, o) by {
        if mentions(access, entries, o) {
            let x = choose|x: int|
                0 <= x < entries.len() && touches(access, #[trigger] entries[x], o);
            assert(entries[x] == entry);
        }
    }
    lemma_logs_append(
        access,
        m,
        m2,
        a.spacemap.all(),
        a.spacemap_next.all(),
        a.next_slab_to_condense.0,
        id,
        entries,
    );
    assert(b.owned_ok(sb)) by {
        assert forall|x: int| #[trigger] m2.contains_key(x) implies sb.allocated(
            SlabId(x as u64),
        ) by {
            assert(m.contains_key(x));
            assert(sa.allocated(SlabId(x as u64)));
        }
        let l = a.spacemap.log.phys.slabs@;
        let l2 = a.spacemap_next.log.phys.slabs@;
        assert forall|k: int| 0 <= k < l.len() implies sb.allocated(#[trigger] l[k])
            && !m2.contains_key(l[k].0 as int) by {
            assert(sa.allocated(l[k]));
            assert(!m.contains_key(l[k].0 as int));
        }
        assert forall|k: int| 0 <= k < l2.len() implies sb.allocated(#[trigger] l2[k])
            && !m2.contains_key(l2[k].0 as int) by {
            assert(sa.allocated(l2[k]));
            assert(!m.contains_key(l2[k].0 as int));
        }
    }
    assert(buckets_ok(b.slab_buckets, m2, b.inside())) by {
        reveal(buckets_ok);
        let buckets = a.slab_buckets;
        assert forall|x: int| x != i implies (#[trigger] b.inside().contains(x)
            <==> a.inside().contains(x)) by {
            if m.contains_key(x) {
                assert(b.is_blocked(m[x].disk()) == a.is_blocked(m[x].disk()));
            }
        }
        assert forall|j: int, k: int|
            0 <= j < buckets.len() && 0 <= k < buckets.bucket(j).by_freeness@.len() implies ({
            let x = (#[trigger] buckets.bucket(j).by_freeness@[k]).slab_id.0 as int;
            &&& m2.contains_key(x)
            &&& m2[x].live()
            &&& home(buckets, m2[x], j)
            &&& b.inside().contains(x)
        }) by {
            let x = buckets.bucket(j).by_freeness@[k].slab_id.0 as int;
            assert(m.contains_key(x) && m[x].live());
            assert(a.inside().contains(x));
        }
        assert forall|x: int| #[trigger] m2.contains_key(x) && m2[x].live() implies exists|
            j: int,
        | #[trigger]
            home(buckets, m2[x], j) && (has_slab(buckets.bucket(j).by_freeness@, m2[x].id)
                <==> b.inside().contains(x)) by {
            assert(m.contains_key(x) && m[x].live());
            let j = choose|j: int| #[trigger]
                home(buckets, m[x], j) && (has_slab(buckets.bucket(j).by_freeness@, m[x].id)
                    <==> a.inside().contains(x));
            assert(home(buckets, m2[x], j));
        }
    }
    if a.ready(sa) {
        assert(b.exact()) by {
            reveal(noalloc_exact);
            assert forall|x: int| #[trigger] b.per_disk_stats@.contains_key(
                x,
            ) implies b.per_disk_stats@[x].noalloc_bytes == if blocked(
                b.noalloc_state@,
                m2,
                x,
            ) {
                b.per_disk_stats@[x].free_bytes
            } else {
                0
            } by {
                assert(b.is_blocked(x) == a.is_blocked(x));
            }
        }
        assert forall|k: int| 0 <= k < sb.allocatable@.len() implies ({
            let x = sb.access.slab_disk(#[trigger] sb.allocatable@[k]);
            &&& b.per_disk_stats@.contains_key(x)
            &&& !b.is_blocked(x)
        }) by {
            let x = sa.access.slab_disk(sa.allocatable@[k]);
            assert(b.is_blocked(x) == a.is_blocked(x));
        }
    }
}

impl BlockAllocator {
    /// Makes the first of the slabs that were given up free.
    fn release_first(&mut self, sa: &mut SlabAllocator)
        requires
            old(self).wf(*old(sa)),
            old(self).aside@ == Set::<int>::empty(),
            old(self).evacuating_slabs@.len() > 0,
        ensures
            final(self).wf(*final(sa)),
            old(self).ready(*old(sa)) ==> final(self).ready(*final(sa)),
            forall|x: int| #[trigger] final(self).is_blocked(x) == old(self).is_blocked(x),
            final(sa).access == old(sa).access,
            final(sa).allocatable == old(sa).allocatable,
            final(sa).noalloc_state == old(sa).noalloc_state,
            final(sa).reserved_slabs == old(sa).reserved_slabs,
            old(sa).separate() ==> final(sa).separate(),
            *final(self) == (BlockAllocator {
                spacemap: final(self).spacemap,
                spacemap_next: final(self).spacemap_next,
                slabs: final(self).slabs,
                evacuating_slabs: final(self).evacuating_slabs,
                noalloc_state: final(self).noalloc_state,
                ..*old(self)
            }),
            ({
                let id = old(self).evacuating_slabs@[0];
                &&& old(self).slabs@.contains_key(id.0 as int)
                &&& !old(self).slabs@[id.0 as int].live()
                &&& final(self).slabs@ == old(self).slabs@.remove(id.0 as int)
                &&& final(self).evacuating_slabs@ == old(self).evacuating_slabs@.remove(0)
                &&& taken_out(
                    old(self).noalloc_state@,
                    final(self).noalloc_state@,
                    old(self).slabs@[id.0 as int].disk(),
                    id,
                )
                &&& logged(
                    *old(self),
                    *final(self),
                    id,
                    seq![SpaceMapEntry::SlabInfo(id, SlabPhysType::Free)],
                )
                &&& forall|s: SlabId|
                    #[trigger] final(sa).places(s) == old(sa).places(s) + if s == id {
                        1nat
                    } else {
                        0nat
                    }
            }),
    {
        let ghost a = *self;
        let ghost sa0 = *sa;
        let ghost n = self.noalloc_state@;
        let id = self.evacuating_slabs.remove(0);
        let ghost x = id.0 as int;
        proof {
            reveal(BlockAllocator::owned_ok);
            assert(a.slabs@.contains_key(x) && !a.slabs@[x].live()) by {
                reveal(noalloc_ok);
                assert(a.evacuating_slabs@.contains(id));
            }
            assert(slab_ok(sa.access, a.slabs@[x], x));
            sa.access.lemma_id_below_next(id);
            sa.access.lemma_slab_extent(sa.access.holder(id), id);
            a.slabs@[x].lemma_within(sa.access.slab_extent(id));
        }
        let disk: usize = self.slabs.get(id).location().disk().index();
        proof {
            assert(disk == a.slabs@[x].disk());
        }
        let ghost mut at: int = 0;
        // if the slab is on a disk that is being removed, it is in the list of that disk
        if let Some(mut list) = self.noalloc_state.remove(disk) {
            proof {
                reveal(noalloc_ok);
                assert(n[disk as int]@.contains(a.slabs@[x].id));
            }
            let ghost l = list@;
            let mut p: usize = 0;
            while p < list.len() && list[p].0 != id.0
                invariant
                    p <= list@.len(),
                    list@ == l,
                    forall|k: int| 0 <= k < p ==> (#[trigger] l[k]).0 != id.0,
                decreases list@.len() - p,
            {
                p += 1;
            }
            proof {
                let k = choose|k: int| 0 <= k < l.len() && l[k] == id;
                assert(l[k].0 == id.0);
            }
            list.remove(p);
            proof {
                at = p as int;
                assert(list@ == l.remove(p as int));
                assert(l[p as int] == id);
            }
            if list.len() > 0 {
                let _ = self.noalloc_state.insert(disk, list);
            }
        }
        sa.free(id);
        let _ = self.slabs.remove(id);
        if self.next_slab_to_condense.0 <= id.0 {
            self.spacemap.mark_slab_info(id, SlabPhysType::Free);
        } else {
            self.spacemap_next.mark_slab_info(id, SlabPhysType::Free);
        }
        proof {
            assert(logged(a, *self, id, seq![SpaceMapEntry::SlabInfo(id, SlabPhysType::Free)])) by {
                if a.next_slab_to_condense.0 <= id.0 {
                    lemma_continued_by_info(a.spacemap, self.spacemap, id, SlabPhysType::Free);
                } else {
                    lemma_continued_by_info(
                        a.spacemap_next,
                        self.spacemap_next,
                        id,
                        SlabPhysType::Free,
                    );
                }
            }
            let n2 = self.noalloc_state@;
            let d = disk as int;
            assert(taken_out(n, n2, d, id)) by {
                reveal(noalloc_ok);
                assert forall|y: int| y != d implies #[trigger] list_at(n2, y) == list_at(n, y) by {}
                if n.contains_key(d) {
                    assert(n[d]@[at] == id);
                    assert(list_at(n2, d) =~= n[d]@.remove(at));
                } else {
                    assert(list_at(n2, d) == list_at(n, d));
                }
                assert forall|y: int| #[trigger] n2.contains_key(y) implies n.contains_key(y)
                    && n2[y]@.len() > 0 by {}
            }
            lemma_released(a, *self, sa0, *sa, id, d);
        }
    }

    /// Finishes a rebalance: the slabs that were given up become free, and are no longer listed
    /// for the disks that are being removed.
    pub fn rebalance_fini(&mut self, sa: &mut SlabAllocator)
        requires
            old(self).wf(*old(sa)),
            old(self).aside@ == Set::<int>::empty(),
        ensures
            final(self).wf(*final(sa)),
            old(self).ready(*old(sa)) ==> final(self).ready(*final(sa)),
            forall|x: int| #[trigger] final(self).is_blocked(x) == old(self).is_blocked(x),
            final(sa).access == old(sa).access,
            final(sa).allocatable == old(sa).allocatable,
            final(sa).noalloc_state == old(sa).noalloc_state,
            final(sa).reserved_slabs == old(sa).reserved_slabs,
            old(sa).separate() ==> final(sa).separate(),
            *final(self) == (BlockAllocator {
                spacemap: final(self).spacemap,
                spacemap_next: final(self).spacemap_next,
                slabs: final(self).slabs,
                evacuating_slabs: final(self).evacuating_slabs,
                noalloc_state: final(self).noalloc_state,
                ..*old(self)
            }),
            final(self).evacuating_slabs@.len() == 0,
            final(self).slabs@ == old(self).slabs@.restrict(
                Set::new(|x: int| old(self).slabs@.contains_key(x) && old(self).slabs@[x].live()),
            ),
            forall|d: int| #[trigger]
                list_at(final(self).noalloc_state@, d) == live_in(
                    list_at(old(self).noalloc_state@, d),
                    old(self).slabs@,
                ),
            forall|d: int| #[trigger]
                final(self).noalloc_state@.contains_key(d) ==> list_at(
                    final(self).noalloc_state@,
                    d,
                ).len() > 0,
            continued(
                old(self).spacemap,
                final(self).spacemap,
                free_infos(old(self).evacuating_slabs@, old(self).next_slab_to_condense, true),
            ),
            continued(
                old(self).spacemap_next,
                final(self).spacemap_next,
                free_infos(old(self).evacuating_slabs@, old(self).next_slab_to_condense, false),
            ),
            forall|s: SlabId|
                #[trigger] final(sa).places(s) == old(sa).places(s) + if old(self).evacuating_slabs@.contains(s) {
                    1nat
                } else {
                    0nat
                },
    {
        let ghost a = *self;
        let ghost sa0 = *sa;
        let ghost ids = self.evacuating_slabs@;
        let ghost m = self.slabs@;
        let ghost mut k: int = 0;
        proof {
            assert(ids.skip(0) =~= ids);
            assert(ids.take(0) =~= Seq::<SlabId>::empty());
            lemma_continued_by_none(a.spacemap, Seq::empty());
            lemma_continued_by_none(a.spacemap_next, Seq::empty());
            assert(forall|x: int| #[trigger] ids.take(0).contains(SlabId(x as u64)) ==> false);
        }
        while self.evacuating_slabs.len() > 0
            invariant
                self.wf(*sa),
                a.wf(sa0),
                a.ready(sa0) ==> self.ready(*sa),
                forall|x: int| #[trigger] self.is_blocked(x) == a.is_blocked(x),
                sa.access == sa0.access,
                sa.allocatable == sa0.allocatable,
                sa.noalloc_state == sa0.noalloc_state,
                sa.reserved_slabs == sa0.reserved_slabs,
                sa0.separate() ==> sa.separate(),
                a.aside@ == Set::<int>::empty(),
                *self == (BlockAllocator {
                    spacemap: self.spacemap,
                    spacemap_next: self.spacemap_next,
                    slabs: self.slabs,
                    evacuating_slabs: self.evacuating_slabs,
                    noalloc_state: self.noalloc_state,
                    ..a
                }),
                ids == a.evacuating_slabs@,
                m == a.slabs@,
                0 <= k <= ids.len(),
                self.evacuating_slabs@ == ids.skip(k),
                forall|x: int|
                    #![trigger self.slabs@.contains_key(x)]
                    #![trigger m.contains_key(x)]
                    (self.slabs@.contains_key(x) ==> m.contains_key(x) && self.slabs@[x] == m[x])
                        && (m.contains_key(x) && m[x].live() ==> self.slabs@.contains_key(x)),
                forall|d: int| #[trigger]
                    live_in(list_at(self.noalloc_state@, d), m) == live_in(
                        list_at(a.noalloc_state@, d),
                        m,
                    ),
                continued(
                    a.spacemap,
                    self.spacemap,
                    free_infos(ids.take(k), a.next_slab_to_condense, true),
                ),
                continued(
                    a.spacemap_next,
                    self.spacemap_next,
                    free_infos(ids.take(k), a.next_slab_to_condense, false),
                ),
                forall|s: SlabId|
                    #[trigger] sa.places(s) == sa0.places(s) + if ids.take(k).contains(s) {
                        1nat
                    } else {
                        0nat
                    },
            decreases self.evacuating_slabs@.len(),
        {
            let ghost b = *self;
            let ghost sb = *sa;
            self.release_first(sa);
            proof {
                let id = ids[k];
                let x = id.0 as int;
                assert(b.evacuating_slabs@[0] == id);
                assert(ids.skip(k).remove(0) =~= ids.skip(k + 1));
                assert(ids.take(k + 1).drop_last() =~= ids.take(k));
                assert(ids.take(k + 1).last() == id);
                let e = SpaceMapEntry::SlabInfo(id, SlabPhysType::Free);
                let f1 = free_infos(ids.take(k), a.next_slab_to_condense, true);
                let f2 = free_infos(ids.take(k), a.next_slab_to_condense, false);
                if a.next_slab_to_condense.0 <= id.0 {
                    lemma_continued(a.spacemap, b.spacemap, self.spacemap, f1, seq![e]);
                    assert(f1 + seq![e] =~= f1.push(e));
                } else {
                    lemma_continued(
                        a.spacemap_next,
                        b.spacemap_next,
                        self.spacemap_next,
                        f2,
                        seq![e],
                    );
                    assert(f2 + seq![e] =~= f2.push(e));
                }
                let d0 = b.slabs@[x].disk();
                assert forall|d: int| #[trigger]
                    live_in(list_at(self.noalloc_state@, d), m) == live_in(
                        list_at(a.noalloc_state@, d),
                        m,
                    ) by {
                    let l = list_at(b.noalloc_state@, d);
                    assert(live_in(l, m) == live_in(list_at(a.noalloc_state@, d), m));
                    if d == d0 && b.noalloc_state@.contains_key(d) {
                        let p = choose|p: int|
                            0 <= p < l.len() && l[p] == id && list_at(self.noalloc_state@, d)
                                == #[trigger] l.remove(p);
                        lemma_live_in_remove(l, m, p);
                    } else {
                        assert(list_at(self.noalloc_state@, d) == l);
                    }
                }
                assert forall|s: SlabId|
                    #[trigger] sa.places(s) == sa0.places(s) + if ids.take(k + 1).contains(s) {
                        1nat
                    } else {
                        0nat
                    } by {
                    assert(sb.places(s) == sa0.places(s) + if ids.take(k).contains(s) {
                        1nat
                    } else {
                        0nat
                    });
                    let t = ids.take(k + 1);
                    if ids.take(k).contains(s) {
                        let j = choose|j: int| 0 <= j < k && ids.take(k)[j] == s;
                        assert(t[j] == s);
                        reveal(noalloc_ok);
                        assert(ids[j] != ids[k]);
                    }
                    if t.contains(s) && s != id {
                        let j = choose|j: int| 0 <= j < t.len() && t[j] == s;
                        assert(ids.take(k)[j] == s);
                    }
                    assert(t[k] == id);
                }
                assert forall|y: int| #[trigger] self.is_blocked(y) == a.is_blocked(y) by {
                    assert(b.is_blocked(y) == a.is_blocked(y));
                }
                k = k + 1;
            }
        }
        proof {
            assert(ids.take(k) =~= ids);
            assert forall|x: int| #[trigger] self.slabs@.contains_key(x) implies m[x].live() by {
                reveal(noalloc_ok);
                reveal(BlockAllocator::owned_ok);
                assert(slab_ok(sa0.access, m[x], x));
                if !m[x].live() {
                    assert(self.evacuating_slabs@.contains(m[x].id));
                }
            }
            assert(self.slabs@ =~= a.slabs@.restrict(
                Set::new(|x: int| a.slabs@.contains_key(x) && a.slabs@[x].live()),
            ));
            assert forall|d: int| #[trigger] list_at(self.noalloc_state@, d) == live_in(
                list_at(a.noalloc_state@, d),
                a.slabs@,
            ) by {
                let l = list_at(self.noalloc_state@, d);
                assert(live_in(l, m) == live_in(list_at(a.noalloc_state@, d), m));
                assert forall|j: int| 0 <= j < l.len() implies m[(
                #[trigger] l[j]).0 as int].live() by {
                    reveal(noalloc_ok);
                    assert(self.slabs@.contains_key(self.noalloc_state@[d]@[j].0 as int));
                }
                lemma_live_in_all(l, m);
            }
            assert forall|d: int| #[trigger] self.noalloc_state@.contains_key(d) implies list_at(
                self.noalloc_state@,
                d,
            ).len() > 0 by {
                reveal(noalloc_ok);
            }
        }
    }
}

/// Of a list those slabs are left that are not being emptied.
pub proof fn law_live_in(list: Seq<SlabId>, m: Map<int, Slab>, id: SlabId)
    ensures
        live_in(list, m).contains(id) <==> list.contains(id) && !(m[id.0 as int].inner
            is Evacuating),
{
    let f = |id: SlabId| m[id.0 as int].live();
    if live_in(list, m).contains(id) {
        list.lemma_filter_contains_rev(f, id);
    }
    if list.contains(id) && f(id) {
        let i = choose|i: int| 0 <= i < list.len() && list[i] == id;
        list.lemma_filter_contains(f, i);
    }
}

/// A slab that was emptied is recorded as free in the log where it is looked for: in the new one
/// if it has been condensed already, and else in the old one.
pub proof fn law_free_infos(ids: Seq<SlabId>, cursor: SlabId, id: SlabId)
    ensures
        free_infos(ids, cursor, true).contains(SpaceMapEntry::SlabInfo(id, SlabPhysType::Free))
            <==> ids.contains(id) && id.0 >= cursor.0,
        free_infos(ids, cursor, false).contains(SpaceMapEntry::SlabInfo(id, SlabPhysType::Free))
            <==> ids.contains(id) && id.0 < cursor.0,
        free_infos(ids, cursor, true).len() + free_infos(ids, cursor, false).len() == ids.len(),
    decreases ids.len(),
{
    if ids.len() > 0 {
        let p = ids.drop_last();
        law_free_infos(p, cursor, id);
        let last = ids.last();
        let x = SpaceMapEntry::SlabInfo(id, SlabPhysType::Free);
        let y = SpaceMapEntry::SlabInfo(last, SlabPhysType::Free);
        lemma_info_pushed(free_infos(p, cursor, true), y, x);
        lemma_info_pushed(free_infos(p, cursor, false), y, x);
        assert(p.push(last) =~= ids);
        if p.contains(id) {
            let i = choose|i: int| 0 <= i < p.len() && p[i] == id;
            assert(ids[i] == id);
        }
        if ids.contains(id) && id != last {
            let i = choose|i: int| 0 <= i < ids.len() && ids[i] == id;
            assert(p[i] == id);
        }
        assert(ids[ids.len() - 1] == last);
    }
}

proof fn lemma_info_pushed(s: Seq<SpaceMapEntry>, last: SpaceMapEntry, x: SpaceMapEntry)
    ensures
        s.push(last).contains(x) <==> s.contains(x) || x == last,
{
    let t = s.push(last);
    if s.contains(x) {
        let i = choose|i: int| 0 <= i < s.len() && s[i] == x;
        assert(t[i] == x);
    }
    assert(t[s.len() as int] == last);
    if t.contains(x) {
        let i = choose|i: int| 0 <= i < t.len() && t[i] == x;
        if i < s.len() {
            assert(s[i] == x);
        }
    }
}

/// A slab that is taken out of the list of its disk is not listed any more, and all others still
/// are. A list that gets empty is gone.
pub proof fn law_taken_out(
    a: Map<int, Vec<SlabId>>,
    b: Map<int, Vec<SlabId>>,
    d: int,
    id: SlabId,
    other: SlabId,
    x: int,
)
    requires
        taken_out(a, b, d, id),
        a.contains_key(d),
        distinct(a[d]@),
        other != id,
    ensures
        !list_at(b, d).contains(id),
        list_at(b, d).contains(other) <==> a[d]@.contains(other),
        x != d ==> list_at(b, x) == list_at(a, x),
        b.contains_key(x) ==> b[x]@.len() > 0,
{
    let s = a[d]@;
    let p = choose|p: int|
        0 <= p < s.len() && s[p] == id && list_at(b, d) == #[trigger] s.remove(p);
    let t = s.remove(p);
    if t.contains(id) {
        let k = choose|k: int| 0 <= k < t.len() && t[k] == id;
        if k < p {
            assert(s[k] == id && s[k] != s[p]);
        } else {
            assert(s[k + 1] == id && s[p] != s[k + 1]);
        }
    }
    if t.contains(other) {
        let k = choose|k: int| 0 <= k < t.len() && t[k] == other;
        if k < p {
            assert(s[k] == other);
        } else {
            assert(s[k + 1] == other);
        }
    }
    if s.contains(other) {
        let k = choose|k: int| 0 <= k < s.len() && s[k] == other;
        if k < p {
            assert(t[k] == other);
        } else {
            assert(t[k - 1] == other);
        }
    }
}

} // verus!
