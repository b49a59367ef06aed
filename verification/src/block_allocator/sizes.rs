//! How much space is allocated and free.
use crate::base_types::DiskId;
use crate::block_allocator::builder::lemma_sum_add;
use crate::block_allocator::invariants::{
    alloc_on, free_on, lemma_sum_fits, noalloc_exact, stats_ok,
};
use crate::block_allocator::slab::Slab;
use crate::block_allocator::slabs::{
    ids_below, lemma_sum_slabs_bound, lemma_sum_slabs_same, slab_ok, sum_slabs,
};
use crate::block_allocator::BlockAllocator;
use crate::slab_allocator::{SlabAllocator, SlabId};
use vstd::prelude::*;

verus! {

/// The bytes of slabs on disks with a number below `n` for which `on` holds.
pub open spec fn below(
    n: int,
    on: spec_fn(int) -> bool,
    f: spec_fn(Slab) -> int,
) -> spec_fn(Slab) -> int {
    |s: Slab|
        if s.disk() < n && on(s.disk()) {
            f(s)
        } else {
            0
        }
}

/// The bytes of slabs on disks for which `on` holds.
pub open spec fn on_disks(on: spec_fn(int) -> bool, f: spec_fn(Slab) -> int) -> spec_fn(
    Slab,
) -> int {
    |s: Slab|
        if on(s.disk()) {
            f(s)
        } else {
            0
        }
}

pub open spec fn allocated_len() -> spec_fn(Slab) -> int {
    |s: Slab| s.allocated_bytes().len() as int
}

pub open spec fn free_len() -> spec_fn(Slab) -> int {
    |s: Slab| s.free_bytes().len() as int
}

/// Those of one more disk.
proof fn lemma_below_step(
    a: BlockAllocator,
    sa: SlabAllocator,
    d: int,
    on: spec_fn(int) -> bool,
    f: spec_fn(Slab) -> int,
    one: spec_fn(Slab) -> int,
)
    requires
        a.wf(sa),
        0 <= d,
        f == allocated_len() && one == alloc_on(d) || f == free_len() && one == free_on(d),
    ensures
        ({
            let n = sa.access.next_slab_id.0 as int;
            &&& sum_slabs(a.slabs@, n, below(d + 1, on, f)) == sum_slabs(
                a.slabs@,
                n,
                below(d, on, f),
            ) + if on(d) {
                sum_slabs(a.slabs@, n, one)
            } else {
                0
            }
            &&& 0 <= sum_slabs(a.slabs@, n, below(d + 1, on, f)) <= u64::MAX
        }),
{
    reveal(BlockAllocator::owned_ok);
    let n = sa.access.next_slab_id.0 as int;
    let m = a.slabs@;
    if on(d) {
        lemma_sum_add(m, n, below(d, on, f), one, below(d + 1, on, f));
    } else {
        assert forall|k: int| 0 <= k < n implies (#[trigger] m.contains_key(k) == m.contains_key(k))
            && (m.contains_key(k) ==> below(d, on, f)(m[k]) == below(d + 1, on, f)(m[k])) by {}
        lemma_sum_slabs_same(m, n, below(d, on, f), m, below(d + 1, on, f));
    }
    assert forall|k: int| #[trigger] m.contains_key(k) implies 0 <= below(d + 1, on, f)(m[k])
        <= m[k].whole().len() by {
        assert(slab_ok(sa.access, m[k], k));
        m[k].lemma_sizes();
    }
    lemma_sum_fits(sa.access, m, below(d + 1, on, f));
}

/// With all disks counted.
proof fn lemma_below_all(
    a: BlockAllocator,
    sa: SlabAllocator,
    d: int,
    on: spec_fn(int) -> bool,
    f: spec_fn(Slab) -> int,
)
    requires
        a.wf(sa),
        forall|x: int| #[trigger] a.per_disk_stats@.contains_key(x) ==> x < d,
    ensures
        sum_slabs(a.slabs@, sa.access.next_slab_id.0 as int, below(d, on, f)) == sum_slabs(
            a.slabs@,
            sa.access.next_slab_id.0 as int,
            on_disks(on, f),
        ),
{
    let n = sa.access.next_slab_id.0 as int;
    let m = a.slabs@;
    assert forall|k: int| 0 <= k < n implies (#[trigger] m.contains_key(k) == m.contains_key(k))
        && (m.contains_key(k) ==> below(d, on, f)(m[k]) == on_disks(on, f)(m[k])) by {
        if m.contains_key(k) {
            reveal(stats_ok);
            assert(a.per_disk_stats@.contains_key(m[k].disk()));
        }
    }
    lemma_sum_slabs_same(m, n, below(d, on, f), m, on_disks(on, f));
}

proof fn lemma_below_none(
    m: Map<int, Slab>,
    n: int,
    on: spec_fn(int) -> bool,
    f: spec_fn(Slab) -> int,
)
    requires
        forall|k: int| #[trigger] m.contains_key(k) ==> m[k].disk() >= 0,
    ensures
        sum_slabs(m, n, below(0, on, f)) == 0,
    decreases n,
{
    if n > 0 {
        lemma_below_none(m, n - 1, on, f);
        if m.contains_key(n - 1) {
            assert(below(0, on, f)(m[n - 1]) == 0);
        }
    }
}

/// A disk without statistics has no slabs.
proof fn lemma_no_stats(a: BlockAllocator, sa: SlabAllocator, d: int)
    requires
        a.wf(sa),
        !a.per_disk_stats@.contains_key(d),
    ensures
        sum_slabs(a.slabs@, sa.access.next_slab_id.0 as int, alloc_on(d)) == 0,
        sum_slabs(a.slabs@, sa.access.next_slab_id.0 as int, free_on(d)) == 0,
{
    let n = sa.access.next_slab_id.0 as int;
    let m = a.slabs@;
    assert forall|k: int| #[trigger] m.contains_key(k) implies m[k].disk() != d by {
        reveal(stats_ok);
    }
    crate::block_allocator::lemma_sum_none(m, n, alloc_on(d));
    crate::block_allocator::lemma_sum_none(m, n, free_on(d));
}

impl BlockAllocator {
    /// The amount of allocated space in slabs that are marked for removal.
    pub fn removing_bytes(&self, sa: &SlabAllocator) -> (r: u64)
        requires
            self.wf(*sa),
        ensures
            r == sum_slabs(
                self.slabs@,
                sa.access.next_slab_id.0 as int,
                on_disks(|d: int| self.noalloc_state@.contains_key(d), allocated_len()),
            ),
    {
        let ghost on = |d: int| self.noalloc_state@.contains_key(d);
        let ghost n = sa.access.next_slab_id.0 as int;
        let mut total: u64 = 0;
        let mut d: usize = 0;
        proof {
            assert forall|k: int| #[trigger] self.slabs@.contains_key(
                k,
            ) implies self.slabs@[k].disk() >= 0 by {
                reveal(stats_ok);
                assert(self.per_disk_stats@.contains_key(self.slabs@[k].disk()));
            }
            lemma_below_none(self.slabs@, n, on, allocated_len());
        }
        while d < self.per_disk_stats.entries.len()
            invariant
                d <= self.per_disk_stats.entries@.len(),
                self.wf(*sa),
                on == |d: int| self.noalloc_state@.contains_key(d),
                n == sa.access.next_slab_id.0,
                total == sum_slabs(self.slabs@, n, below(d as int, on, allocated_len())),
            decreases self.per_disk_stats.entries@.len() - d,
        {
            proof {
                lemma_below_step(*self, *sa, d as int, on, allocated_len(), alloc_on(d as int));
                if !self.per_disk_stats@.contains_key(d as int) {
                    lemma_no_stats(*self, *sa, d as int);
                }
                reveal(stats_ok);
            }
            if self.noalloc_state.contains_key(d) {
                if let Some(stats) = self.per_disk_stats.get(d) {
                    total = total + stats.alloc_bytes;
                }
            }
            d += 1;
        }
        proof {
            lemma_below_all(*self, *sa, d as int, on, allocated_len());
        }
        total
    }

    /// The allocated space on a disk.
    pub fn disk_allocated_bytes(&self, sa: &SlabAllocator, disk: DiskId) -> (r: u64)
        requires
            self.wf(*sa),
            self.per_disk_stats@.contains_key(disk.0 as int),
        ensures
            r == sum_slabs(
                self.slabs@,
                sa.access.next_slab_id.0 as int,
                alloc_on(disk.0 as int),
            ),
    {
        proof {
            reveal(stats_ok);
        }
        self.per_disk_stats.get(disk.index()).unwrap().alloc_bytes
    }

    /// The amount of space in unallocated blocks. This does not count space in empty slabs.
    pub fn free_bytes(&self, sa: &SlabAllocator) -> (r: u64)
        requires
            self.wf(*sa),
        ensures
            r == sum_slabs(
                self.slabs@,
                sa.access.next_slab_id.0 as int,
                on_disks(|d: int| true, free_len()),
            ),
    {
        let ghost on = |d: int| true;
        let ghost n = sa.access.next_slab_id.0 as int;
        let mut total: u64 = 0;
        let mut d: usize = 0;
        proof {
            assert forall|k: int| #[trigger] self.slabs@.contains_key(
                k,
            ) implies self.slabs@[k].disk() >= 0 by {
                reveal(stats_ok);
                assert(self.per_disk_stats@.contains_key(self.slabs@[k].disk()));
            }
            lemma_below_none(self.slabs@, n, on, free_len());
        }
        while d < self.per_disk_stats.entries.len()
            invariant
                d <= self.per_disk_stats.entries@.len(),
                self.wf(*sa),
                on == |d: int| true,
                n == sa.access.next_slab_id.0,
                total == sum_slabs(self.slabs@, n, below(d as int, on, free_len())),
            decreases self.per_disk_stats.entries@.len() - d,
        {
            proof {
                lemma_below_step(*self, *sa, d as int, on, free_len(), free_on(d as int));
                if !self.per_disk_stats@.contains_key(d as int) {
                    lemma_no_stats(*self, *sa, d as int);
                }
                reveal(stats_ok);
            }
            if let Some(stats) = self.per_disk_stats.get(d) {
                total = total + stats.free_bytes;
            }
            d += 1;
        }
        proof {
            lemma_below_all(*self, *sa, d as int, on, free_len());
        }
        total
    }

    /// The space for blocks, but for that of disks that are being removed.
    pub fn size(&self, sa: &SlabAllocator) -> (r: u64)
        requires
            sa.wf(),
        ensures
            r == (sa.access.num_slabs - sa.removing_slabs()) * sa.access.slab_size,
    {
        proof {
            vstd::arithmetic::mul::lemma_mul_is_distributive_sub_other_way(
                sa.access.slab_size as int,
                sa.access.num_slabs as int,
                sa.removing_slabs(),
            );
        }
        let n: u64 = sa.num_slabs();
        assert(n * sa.access.slab_size <= sa.access.num_slabs * sa.access.slab_size)
            by (nonlinear_arith)
            requires
                n <= sa.access.num_slabs,
        ;
        n * sa.slab_size()
    }

    /// There is no more space that can be allocated than the slabs have: what is free in slabs
    /// that have blocks, and the empty slabs.
    pub proof fn law_available_fits(&self, sa: SlabAllocator)
        requires
            self.wf(sa),
        ensures
            sa.allocatable@.len() * sa.access.slab_size + sum_slabs(
                self.slabs@,
                sa.access.next_slab_id.0 as int,
                on_disks(|d: int| !self.is_blocked(d), free_len()),
            ) <= sa.access.num_slabs * sa.access.slab_size,
            sa.access.num_slabs * sa.access.slab_size <= u64::MAX,
    {
        reveal(BlockAllocator::owned_ok);
        let m = self.slabs@;
        let access = sa.access;
        let n = access.next_slab_id.0 as int;
        let f = on_disks(|d: int| !self.is_blocked(d), free_len());
        assert forall|k: int| #[trigger] m.contains_key(k) implies 0 <= f(m[k])
            <= access.slab_size by {
            let id = SlabId(k as u64);
            assert(slab_ok(access, m[k], k));
            access.lemma_slab_extent(access.holder(id), id);
            let e = access.slab_extent(id);
            m[k].lemma_within(e);
            m[k].lemma_bytes();
            crate::bitmap_range_iterator::lemma_span_len(e.start(), e.size as int);
            vstd::set_lib::lemma_len_subset(
                m[k].whole(),
                crate::range_tree::span(e.start(), e.size as int),
            );
            vstd::set_lib::lemma_len_subset(m[k].free_bytes(), m[k].whole());
        }
        lemma_sum_slabs_bound(m, n, f, access.slab_size as int);
        let held = ids_below(m, n);
        assert forall|x: int| #[trigger] held.contains(x) implies 0 <= x <= u64::MAX
            && sa.allocated(SlabId(x as u64)) by {
            assert(m.contains_key(x));
        }
        sa.lemma_empty_and_held(held);
        let a = sa.allocatable@.len() as int;
        let c = held.len() as int;
        let z = access.slab_size as int;
        let k = access.num_slabs as int;
        assert(a * z + c * z <= k * z) by (nonlinear_arith)
            requires
                a + c <= k,
                z >= 0,
        ;
    }

    /// The space that can be allocated: in empty slabs and in slabs that have blocks.
    pub fn available(&self, sa: &SlabAllocator) -> (r: u64)
        requires
            self.wf(*sa),
            self.exact(),
        ensures
            r == sum_slabs(
                self.slabs@,
                sa.access.next_slab_id.0 as int,
                on_disks(|d: int| !self.is_blocked(d), free_len()),
            ) + if sa.allocatable@.len() > sa.reserved_slabs {
                (sa.allocatable@.len() - sa.reserved_slabs) * sa.access.slab_size
            } else {
                0
            },
    {
        proof {
            reveal(BlockAllocator::owned_ok);
        }
        let in_slabs: u64 = self.allocatable_bytes(sa);
        let empty: u64 = sa.allocatable_bytes();
        proof {
            self.law_available_fits(*sa);
            let n = sa.allocatable@.len() as int;
            let z = sa.access.slab_size as int;
            let k = sa.reserved_slabs as int;
            if n > k {
                assert((n - k) * z <= n * z) by (nonlinear_arith)
                    requires
                        0 <= k < n,
                        z >= 0,
                ;
            } else {
                assert(n * z >= 0) by (nonlinear_arith)
                    requires
                        n >= 0,
                        z >= 0,
                ;
            }
        }
        in_slabs + empty
    }

    /// The amount of space in unallocated blocks that can be allocated. This counts neither
    /// space in empty slabs nor space in slabs of a disk that is being removed.
    pub fn allocatable_bytes(&self, sa: &SlabAllocator) -> (r: u64)
        requires
            self.wf(*sa),
            self.exact(),
        ensures
            r == sum_slabs(
                self.slabs@,
                sa.access.next_slab_id.0 as int,
                on_disks(|d: int| !self.is_blocked(d), free_len()),
            ),
    {
        let ghost on = |d: int| !self.is_blocked(d);
        let ghost n = sa.access.next_slab_id.0 as int;
        let mut total: u64 = 0;
        let mut d: usize = 0;
        proof {
            assert forall|k: int| #[trigger] self.slabs@.contains_key(
                k,
            ) implies self.slabs@[k].disk() >= 0 by {
                reveal(stats_ok);
                assert(self.per_disk_stats@.contains_key(self.slabs@[k].disk()));
            }
            lemma_below_none(self.slabs@, n, on, free_len());
        }
        while d < self.per_disk_stats.entries.len()
            invariant
                d <= self.per_disk_stats.entries@.len(),
                self.wf(*sa),
                self.exact(),
                on == |d: int| !self.is_blocked(d),
                n == sa.access.next_slab_id.0,
                total == sum_slabs(self.slabs@, n, below(d as int, on, free_len())),
            decreases self.per_disk_stats.entries@.len() - d,
        {
            proof {
                lemma_below_step(*self, *sa, d as int, on, free_len(), free_on(d as int));
                if !self.per_disk_stats@.contains_key(d as int) {
                    lemma_no_stats(*self, *sa, d as int);
                }
                reveal(stats_ok);
                reveal(noalloc_exact);
            }
            if let Some(stats) = self.per_disk_stats.get(d) {
                total = total + (stats.free_bytes - stats.noalloc_bytes);
            }
            d += 1;
        }
        proof {
            lemma_below_all(*self, *sa, d as int, on, free_len());
        }
        total
    }

    /// Whether the disk is marked for removal and has slabs here that a rebalance is to empty.
    pub fn disk_is_pending_remap(&self, disk: DiskId) -> (r: bool)
        ensures
            r == self.noalloc_state@.contains_key(disk.0 as int),
    {
        self.noalloc_state.contains_key(disk.index())
    }

    /// The amount of space that is to be moved before a disk that is being removed has been
    /// evacuated. Slabs that are not used here hold metadata, and count in full.
    pub fn disk_space_to_evacuate(&self, sa: &SlabAllocator, disk: DiskId) -> (r: u64)
        requires
            self.wf(*sa),
            self.per_disk_stats@.contains_key(disk.0 as int),
            sa.removing(disk.0 as int),
            ({
                let listed = crate::block_allocator::release::list_at(
                    self.noalloc_state@,
                    disk.0 as int,
                ).len();
                let held = sa.access.disk_slab_count(disk.0 as int)
                    - sa.noalloc_state@[disk.0 as int]@.len();
                &&& listed <= held
                &&& self.per_disk_stats@[disk.0 as int].alloc_bytes + (held - listed)
                    * sa.access.slab_size <= u64::MAX
            }),
        ensures
            r == sum_slabs(
                self.slabs@,
                sa.access.next_slab_id.0 as int,
                alloc_on(disk.0 as int),
            ) + (sa.access.disk_slab_count(disk.0 as int)
                - sa.noalloc_state@[disk.0 as int]@.len()
                - crate::block_allocator::release::list_at(
                self.noalloc_state@,
                disk.0 as int,
            ).len()) * sa.access.slab_size,
    {
        proof {
            reveal(BlockAllocator::owned_ok);
            reveal(stats_ok);
        }
        let listed: u64 = match self.noalloc_state.get(disk.index()) {
            Some(slabs) => slabs.len() as u64,
            None => 0,
        };
        let metadata_slabs: u64 = sa.disk_slabs_to_evacuate(disk) - listed;
        proof {
            assert(metadata_slabs * sa.access.slab_size >= 0) by (nonlinear_arith);
        }
        self.per_disk_stats.get(disk.index()).unwrap().alloc_bytes + metadata_slabs
            * sa.access.slab_size
    }
}

} // verus!
