//! What is found of a block when a merge has ended.
use super::laws::law_cached_is_remembered;
use super::rotation::{cache_filled, cache_moved, cache_without, changes_moved, place_after};
use super::{ValidIndexValue, ZettaCacheState};
use crate::index::{law_key_order, IndexEntry, IndexKey, IndexValue};
use crate::lru_cache::{
    cache_key, find, lemma_find, one_per_key, put_front, CacheKey, CacheValue,
};
use crate::merge::outcome::place_now;
use crate::merge::{MergeState, RebalanceState};
use crate::pending_changes::{ascending, PendingChange, UpdateAtime};
use vstd::prelude::*;

verus! {

/// There is a change of the same key, and it is an insertion exactly if this one is.
#[verifier::opaque]
pub open spec fn comes_from(
    s: Seq<(IndexKey, PendingChange)>,
    x: (IndexKey, PendingChange),
) -> bool {
    exists|i: int|
        0 <= i < s.len() && (#[trigger] s[i]).0 == x.0 && (s[i].1 is Insert <==> x.1 is Insert)
}

/// The changes that are pending afterwards are in order, and of keys that had some before.
proof fn lemma_changes_come_from(
    rebalance: Option<RebalanceState>,
    s: Seq<(IndexKey, PendingChange)>,
)
    requires
        ascending(s),
    ensures
        ascending(changes_moved(rebalance, s)),
        forall|j: int|
            0 <= j < changes_moved(rebalance, s).len() ==> comes_from(
                s,
                #[trigger] changes_moved(rebalance, s)[j],
            ),
    decreases s.len(),
{
    reveal(comes_from);
    if s.len() > 0 {
        let p = s.drop_last();
        let n = s.len() - 1;
        let t = changes_moved(rebalance, s);
        let q = changes_moved(rebalance, p);
        assert(ascending(p)) by {
            assert forall|i: int, j: int| 0 <= i < j < p.len() implies (
            #[trigger] p[i]).0.place() < (#[trigger] p[j]).0.place() by {
                assert(s[i].0.place() < s[j].0.place());
            }
        }
        lemma_changes_come_from(rebalance, p);
        assert forall|j: int| 0 <= j < t.len() implies comes_from(s, #[trigger] t[j]) by {
            if j < q.len() {
                assert(q[j] == t[j]);
                assert(comes_from(p, q[j]));
                let i = choose|i: int|
                    0 <= i < p.len() && (#[trigger] p[i]).0 == q[j].0 && (p[i].1 is Insert
                        <==> q[j].1 is Insert);
                assert(s[i] == p[i]);
            } else {
                assert(s[n].0 == t[j].0);
            }
        }
        assert forall|i: int, j: int| 0 <= i < j < t.len() implies (#[trigger] t[i]).0.place() < (
        #[trigger] t[j]).0.place() by {
            assert(q[i] == t[i]);
            if j < q.len() {
                assert(q[j] == t[j]);
            } else {
                assert(comes_from(p, q[i]));
                let k = choose|k: int|
                    0 <= k < p.len() && (#[trigger] p[k]).0 == q[i].0 && (p[k].1 is Insert
                        <==> q[i].1 is Insert);
                assert(s[k].0.place() < s[n].0.place());
            }
        }
    }
}

/// The change of an access when the merge has ended.
pub open spec fn access_after(m: MergeState, change: (IndexKey, PendingChange)) -> (
    IndexKey,
    PendingChange,
) {
    let u = change.1->UpdateAtime_0;
    (
        change.0,
        PendingChange::UpdateAtime(
            UpdateAtime(
                IndexValue {
                    location: place_now(m, u.0),
                    sectors: u.0.sectors,
                    atime: u.0.atime,
                },
                u.1,
            ),
        ),
    )
}

/// An insertion that is pending when a merge ends is pending afterwards, as it was. An access is
/// pending afterwards, with the place where the block is now, unless the block has lost its place.
/// Nothing else is pending afterwards.
pub proof fn law_changes_outlive_merge(m: MergeState, s: Seq<(IndexKey, PendingChange)>, i: int)
    requires
        ascending(s),
        0 <= i < s.len(),
        value_of(s[i].1).location is Some,
    ensures
        ({
            let t = changes_moved(m.rebalance, s);
            &&& ascending(t)
            &&& s[i].1 is Insert ==> t.contains(s[i])
            &&& s[i].1 is UpdateAtime && place_now(m, value_of(s[i].1)) is Some ==> t.contains(
                access_after(m, s[i]),
            )
            &&& s[i].1 is UpdateAtime && place_now(m, value_of(s[i].1)) is None ==> forall|j: int|
                0 <= j < t.len() ==> (#[trigger] t[j]).0 != s[i].0
            &&& forall|j: int| 0 <= j < t.len() ==> comes_from(s, #[trigger] t[j])
        }),
    decreases s.len(),
{
    lemma_changes_come_from(m.rebalance, s);
    let t = changes_moved(m.rebalance, s);
    let p = s.drop_last();
    let n = s.len() - 1;
    let q = changes_moved(m.rebalance, p);
    assert(ascending(p)) by {
        assert forall|i: int, j: int| 0 <= i < j < p.len() implies (#[trigger] p[i]).0.place() < (
        #[trigger] p[j]).0.place() by {
            assert(s[i].0.place() < s[j].0.place());
        }
    }
    lemma_changes_come_from(m.rebalance, p);
    assert forall|x: (IndexKey, PendingChange)| #[trigger] q.contains(x) implies t.contains(x) by {
        let j = choose|j: int| 0 <= j < q.len() && q[j] == x;
        assert(t[j] == x);
    }
    if i < n {
        assert(p[i] == s[i]);
        law_changes_outlive_merge(m, p, i);
        if s[i].1 is UpdateAtime && place_now(m, value_of(s[i].1)) is None {
            assert forall|j: int| 0 <= j < t.len() implies (#[trigger] t[j]).0 != s[i].0 by {
                if j < q.len() {
                    assert(q[j] == t[j]);
                } else {
                    assert(s[i].0.place() < s[n].0.place());
                }
            }
        }
    } else {
        if t.len() > q.len() {
            assert(t[q.len() as int] == t.last());
            assert(t.contains(t.last()));
        }
        if s[i].1 is UpdateAtime && place_now(m, value_of(s[i].1)) is None {
            assert forall|j: int| 0 <= j < t.len() implies (#[trigger] t[j]).0 != s[i].0 by {
                assert(q[j] == t[j]);
                assert(comes_from(p, q[j]));
                reveal(comes_from);
                let k = choose|k: int|
                    0 <= k < p.len() && (#[trigger] p[k]).0 == q[j].0 && (p[k].1 is Insert
                        <==> q[j].1 is Insert);
                assert(s[k].0.place() < s[n].0.place());
            }
        }
    }
}

/// The pair is among the first ones, up to the given position.
#[verifier::opaque]
pub open spec fn within(
    t: Seq<(CacheKey, CacheValue)>,
    x: (CacheKey, CacheValue),
    last: int,
) -> bool {
    exists|j: int| 0 <= j <= last && j < t.len() && #[trigger] t[j] == x
}

/// What is put is in the front, each of the others moves back by one place at most, and only one
/// that is last can be dropped. Nothing else comes in.
#[verifier::spinoff_prover]
#[verifier::rlimit(40)]
pub proof fn law_put_moves_others(
    s: Seq<(CacheKey, CacheValue)>,
    cap: nat,
    k: CacheKey,
    v: CacheValue,
)
    requires
        one_per_key(s),
        s.len() <= cap,
    ensures
        ({
            let t = put_front(s, cap, k, v);
            &&& one_per_key(t)
            &&& t.len() <= cap
            &&& cap > 0 ==> t.len() > 0 && t[0] == (k, v)
            &&& forall|i: int|
                0 <= i < s.len() && (#[trigger] s[i]).0 != k && i + 1 < cap ==> within(
                    t,
                    s[i],
                    i + 1,
                )
            &&& forall|j: int| 0 < j < t.len() ==> (#[trigger] t[j]).0 != k && s.contains(t[j])
        }),
{
    reveal(within);
    let t = put_front(s, cap, k, v);
    match find(s, k) {
        Some(f) => {
            assert(0 <= f < s.len() && s[f].0 == k);
            assert forall|i: int| 0 <= i < s.len() && (#[trigger] s[i]).0 != k && i + 1
                < cap implies within(t, s[i], i + 1) by {
                if i < f {
                    assert(t[i + 1] == s[i]);
                } else {
                    assert(t[i] == s[i]);
                }
            }
            assert forall|j: int| 0 < j < t.len() implies (#[trigger] t[j]).0 != k && s.contains(
                t[j],
            ) by {
                if j - 1 < f {
                    assert(s[j - 1] == t[j]);
                    assert(s[j - 1].0 != s[f].0);
                } else {
                    assert(s[j] == t[j]);
                    assert(s[f].0 != s[j].0);
                }
            }
            assert forall|i: int, j: int| 0 <= i < j < t.len() implies (#[trigger] t[i]).0 != (
            #[trigger] t[j]).0 by {
                if i > 0 {
                    let a = if i - 1 < f {
                        i - 1
                    } else {
                        i
                    };
                    let b = if j - 1 < f {
                        j - 1
                    } else {
                        j
                    };
                    assert(t[i] == s[a] && t[j] == s[b]);
                    assert(s[a].0 != s[b].0);
                }
            }
        },
        None => {
            assert forall|i: int| 0 <= i < s.len() implies (#[trigger] s[i]).0 != k by {
                if s[i].0 == k {
                    lemma_find(s, i);
                }
            }
            if cap > 0 {
                assert forall|i: int| 0 <= i < s.len() && (#[trigger] s[i]).0 != k && i + 1
                    < cap implies within(t, s[i], i + 1) by {
                    assert(t[i + 1] == s[i]);
                }
                assert forall|j: int| 0 < j < t.len() implies (#[trigger] t[j]).0 != k
                    && s.contains(t[j]) by {
                    assert(s[j - 1] == t[j]);
                }
                assert forall|i: int, j: int| 0 <= i < j < t.len() implies (#[trigger] t[i]).0 != (
                #[trigger] t[j]).0 by {
                    assert(t[j] == s[j - 1]);
                    if i > 0 {
                        assert(t[i] == s[i - 1]);
                    }
                }
            }
        },
    }
}

/// What is taken out is gone, and the others stay in their order.
pub proof fn law_removed_is_gone(s: Seq<(CacheKey, CacheValue)>, k: CacheKey)
    requires
        one_per_key(s),
    ensures
        ({
            let t = cache_without(s, k);
            &&& one_per_key(t)
            &&& t.len() <= s.len()
            &&& forall|j: int|
                0 <= j < t.len() ==> (#[trigger] t[j]).0 != k && s.contains(t[j])
            &&& forall|i: int|
                0 <= i < s.len() && (#[trigger] s[i]).0 != k ==> within(t, s[i], i)
        }),
{
    reveal(within);
    let t = cache_without(s, k);
    match find(s, k) {
        Some(f) => {
            assert(0 <= f < s.len() && s[f].0 == k);
            assert forall|i: int| 0 <= i < s.len() && (#[trigger] s[i]).0 != k implies within(
                t,
                s[i],
                i,
            ) by {
                if i < f {
                    assert(t[i] == s[i]);
                } else {
                    assert(t[i - 1] == s[i]);
                }
            }
            assert forall|j: int| 0 <= j < t.len() implies (#[trigger] t[j]).0 != k && s.contains(
                t[j],
            ) by {
                if j < f {
                    assert(s[j] == t[j]);
                    assert(s[j].0 != s[f].0);
                } else {
                    assert(s[j + 1] == t[j]);
                    assert(s[f].0 != s[j + 1].0);
                }
            }
            assert forall|i: int, j: int| 0 <= i < j < t.len() implies (#[trigger] t[i]).0 != (
            #[trigger] t[j]).0 by {
                let a = if i < f {
                    i
                } else {
                    i + 1
                };
                let b = if j < f {
                    j
                } else {
                    j + 1
                };
                assert(t[i] == s[a] && t[j] == s[b]);
                assert(s[a].0 != s[b].0);
            }
        },
        None => {
            assert forall|i: int| 0 <= i < s.len() implies (#[trigger] s[i]).0 != k by {
                if s[i].0 == k {
                    lemma_find(s, i);
                }
            }
        },
    }
}

/// The value of a change.
pub open spec fn value_of(change: PendingChange) -> IndexValue {
    match change {
        PendingChange::Insert(value) => value,
        PendingChange::UpdateAtime(update) => update.0,
    }
}

/// The merged change is of a block that is still in the cache.
pub open spec fn is_live(m: MergeState, change: (IndexKey, PendingChange)) -> bool {
    value_of(change.1).atime.0 >= m.eviction_cutoff.0
}

/// The block of a merged change, as the index cache has it, where it is now.
pub open spec fn cached_change(m: MergeState, change: (IndexKey, PendingChange)) -> (
    CacheKey,
    CacheValue,
) {
    let v = value_of(change.1);
    (
        (change.0.id.0, change.0.block.0),
        (place_now(m, v)->0.raw, v.sectors, v.atime.0),
    )
}

/// What is in the index cache when a merge has ended was there before, or is a merged change.
/// Of a key that has a merged change whose block is still in the cache, only that change is
/// there, with the place where the block is now; and nothing, if it has lost its place.
pub proof fn law_cache_follows_merge(
    m: MergeState,
    s: Seq<(CacheKey, CacheValue)>,
    cap: nat,
    changes: Seq<(IndexKey, PendingChange)>,
)
    requires
        one_per_key(s),
        s.len() <= cap,
        ascending(changes),
        forall|i: int|
            0 <= i < changes.len() && is_live(m, #[trigger] changes[i]) ==> value_of(
                changes[i].1,
            ).location is Some,
    ensures
        ({
            let t = cache_filled(s, cap, m.eviction_cutoff, m.rebalance, changes);
            &&& one_per_key(t)
            &&& t.len() <= cap
            &&& forall|j: int|
                0 <= j < t.len() ==> {
                    ||| s.contains(#[trigger] t[j])
                    ||| exists|i: int|
                        0 <= i < changes.len() && is_live(m, #[trigger] changes[i])
                            && cached_change(m, changes[i]) == t[j]
                }
            &&& forall|i: int, j: int|
                0 <= i < changes.len() && is_live(m, #[trigger] changes[i]) && 0 <= j < t.len() && (
                #[trigger] t[j]).0 == (changes[i].0.id.0, changes[i].0.block.0) ==> place_now(
                    m,
                    value_of(changes[i].1),
                ) is Some && t[j] == cached_change(m, changes[i])
        }),
    decreases changes.len(),
{
    if changes.len() > 0 {
        let p = changes.drop_last();
        let n = changes.len() - 1;
        let (key, change) = changes[n];
        lemma_shorter(m, changes);
        law_cache_follows_merge(m, s, cap, p);
        let q = cache_filled(s, cap, m.eviction_cutoff, m.rebalance, p);
        let t = cache_filled(s, cap, m.eviction_cutoff, m.rebalance, changes);
        let v = value_of(change);
        let k = cache_key(key);
        if is_live(m, changes[n]) {
            match place_after(m.rebalance, v) {
                Some(location) => {
                    law_put_moves_others(q, cap, k, (location.raw, v.sectors, v.atime.0));
                },
                None => law_removed_is_gone(q, k),
            }
        }
        assert forall|j: int| 0 <= j < t.len() implies (t[j].0 == k && is_live(m, changes[n])
            && place_now(m, v) is Some && t[j] == cached_change(m, changes[n])) || ((t[j].0 != k
            || !is_live(m, changes[n])) && q.contains(#[trigger] t[j])) by {
            if is_live(m, changes[n]) {
                if place_after(m.rebalance, v) is Some {
                    if j > 0 {
                        assert(q.contains(t[j]));
                    }
                } else {
                    assert(q.contains(t[j]));
                }
            } else {
                assert(q[j] == t[j]);
            }
        }
        assert forall|j: int| 0 <= j < t.len() implies {
            ||| s.contains(#[trigger] t[j])
            ||| exists|i: int|
                0 <= i < changes.len() && is_live(m, #[trigger] changes[i]) && cached_change(
                    m,
                    changes[i],
                ) == t[j]
        } by {
            if q.contains(t[j]) {
                let l = choose|l: int| 0 <= l < q.len() && q[l] == t[j];
                if !s.contains(q[l]) {
                    let i = choose|i: int|
                        0 <= i < p.len() && is_live(m, #[trigger] p[i]) && cached_change(m, p[i])
                            == q[l];
                    assert(changes[i] == p[i]);
                }
            }
        }
        assert forall|i: int, j: int|
            0 <= i < changes.len() && is_live(m, #[trigger] changes[i]) && 0 <= j < t.len() && (
            #[trigger] t[j]).0 == (changes[i].0.id.0, changes[i].0.block.0) implies place_now(
            m,
            value_of(changes[i].1),
        ) is Some && t[j] == cached_change(m, changes[i]) by {
            if i < n {
                assert(changes[i].0.place() < changes[n].0.place());
                law_key_order(changes[i].0, changes[n].0);
                assert(t[j].0 != k) by {
                    if t[j].0 == k {
                        assert(changes[i].0 == changes[n].0);
                    }
                }
                let l = choose|l: int| 0 <= l < q.len() && q[l] == t[j];
                assert(p[i] == changes[i]);
            }
        }
    }
}

proof fn lemma_shorter(m: MergeState, changes: Seq<(IndexKey, PendingChange)>)
    requires
        changes.len() > 0,
        ascending(changes),
        forall|i: int|
            0 <= i < changes.len() && is_live(m, #[trigger] changes[i]) ==> value_of(
                changes[i].1,
            ).location is Some,
    ensures
        ascending(changes.drop_last()),
        forall|i: int|
            0 <= i < changes.drop_last().len() && is_live(m, #[trigger] changes.drop_last()[i])
                ==> value_of(changes.drop_last()[i].1).location is Some,
{
    let p = changes.drop_last();
    assert forall|i: int, j: int| 0 <= i < j < p.len() implies (#[trigger] p[i]).0.place() < (
    #[trigger] p[j]).0.place() by {
        assert(changes[i].0.place() < changes[j].0.place());
    }
    assert forall|i: int| 0 <= i < p.len() && is_live(m, #[trigger] p[i]) implies value_of(
        p[i].1,
    ).location is Some by {
        assert(p[i] == changes[i]);
    }
}

/// Each merged change whose block is still in the cache, and that has not lost its place, is in
/// the index cache when the merge has ended, with the place where the block is now; unless so
/// many changes came after it that there is no room for it.
pub proof fn law_merged_is_cached(
    m: MergeState,
    s: Seq<(CacheKey, CacheValue)>,
    cap: nat,
    changes: Seq<(IndexKey, PendingChange)>,
    i: int,
)
    requires
        one_per_key(s),
        s.len() <= cap,
        ascending(changes),
        forall|i: int|
            0 <= i < changes.len() && is_live(m, #[trigger] changes[i]) ==> value_of(
                changes[i].1,
            ).location is Some,
        0 <= i < changes.len(),
        changes.len() - i <= cap,
        is_live(m, changes[i]),
        place_now(m, value_of(changes[i].1)) is Some,
    ensures
        exists|j: int|
            0 <= j < changes.len() - i && j < cache_filled(
                s,
                cap,
                m.eviction_cutoff,
                m.rebalance,
                changes,
            ).len() && #[trigger] cache_filled(
                s,
                cap,
                m.eviction_cutoff,
                m.rebalance,
                changes,
            )[j] == cached_change(m, changes[i]),
    decreases changes.len(),
{
    let p = changes.drop_last();
    let n = changes.len() - 1;
    let (key, change) = changes[n];
    lemma_shorter(m, changes);
    law_cache_follows_merge(m, s, cap, p);
    let q = cache_filled(s, cap, m.eviction_cutoff, m.rebalance, p);
    let t = cache_filled(s, cap, m.eviction_cutoff, m.rebalance, changes);
    let v = value_of(change);
    let k = cache_key(key);
    if is_live(m, changes[n]) {
        match place_after(m.rebalance, v) {
            Some(location) => law_put_moves_others(q, cap, k, (location.raw, v.sectors, v.atime.0)),
            None => law_removed_is_gone(q, k),
        }
    }
    if i == n {
        assert(t[0] == cached_change(m, changes[i]));
    } else {
        assert(p[i] == changes[i]);
        law_merged_is_cached(m, s, cap, p, i);
        let l = choose|l: int|
            0 <= l < p.len() - i && l < q.len() && #[trigger] q[l] == cached_change(m, p[i]);
        assert(q[l].0 != k) by {
            assert(changes[i].0.place() < changes[n].0.place());
        }
        if is_live(m, changes[n]) {
            if place_after(m.rebalance, v) is Some {
                assert(within(t, q[l], l + 1));
                reveal(within);
                let j = choose|j: int| 0 <= j <= l + 1 && j < t.len() && #[trigger] t[j] == q[l];
                assert(t[j] == cached_change(m, changes[i]));
            } else {
                assert(within(t, q[l], l));
                reveal(within);
                let j = choose|j: int| 0 <= j <= l && j < t.len() && #[trigger] t[j] == q[l];
                assert(t[j] == cached_change(m, changes[i]));
            }
        } else {
            assert(t[l] == cached_change(m, changes[i]));
        }
    }
}

/// A block that is reported as moved is cached with its new place, if it is cached at all, and
/// with the size and the access time that it had. One that has lost its place is not cached any
/// more. All others stay as they are.
pub proof fn law_moved_in_cache(
    s: Seq<(CacheKey, CacheValue)>,
    remaps: Seq<IndexEntry>,
    e: IndexEntry,
)
    requires
        one_per_key(s),
    ensures
        ({
            let k = (e.key.id.0, e.key.block.0);
            let t = cache_moved(s, remaps);
            let u = cache_moved(s, remaps.push(e));
            &&& one_per_key(t)
            &&& e.value.location matches Some(location) ==> u.len() == t.len() && forall|i: int|
                0 <= i < t.len() ==> #[trigger] u[i] == if t[i].0 == k {
                    (k, (location.raw, t[i].1.1, t[i].1.2))
                } else {
                    t[i]
                }
            &&& e.value.location is None ==> forall|i: int|
                0 <= i < u.len() ==> (#[trigger] u[i]).0 != k && t.contains(u[i])
            &&& e.value.location is None ==> forall|i: int|
                0 <= i < t.len() && (#[trigger] t[i]).0 != k ==> u.contains(t[i])
        }),
    decreases remaps.len(),
{
    let k = cache_key(e.key);
    let t = cache_moved(s, remaps);
    let u = cache_moved(s, remaps.push(e));
    if remaps.len() > 0 {
        let before = remaps.drop_last();
        let last = remaps.last();
        law_moved_in_cache(s, before, last);
        assert(before.push(last) =~= remaps);
        let q = cache_moved(s, before);
        if last.value.location is None {
            law_removed_is_gone(q, cache_key(last.key));
        } else {
            assert forall|i: int, j: int| 0 <= i < j < t.len() implies (#[trigger] t[i]).0 != (
            #[trigger] t[j]).0 by {
                assert(q[i].0 != q[j].0);
            }
        }
    }
    assert(one_per_key(t));
    assert(remaps.push(e).drop_last() =~= remaps);
    match e.value.location {
        Some(location) => {
            assert forall|i: int| 0 <= i < t.len() implies #[trigger] u[i] == if t[i].0 == k {
                (k, (location.raw, t[i].1.1, t[i].1.2))
            } else {
                t[i]
            } by {
                if t[i].0 == k {
                    lemma_find(t, i);
                }
            }
        },
        None => {
            law_removed_is_gone(t, k);
            assert forall|i: int| 0 <= i < t.len() && (#[trigger] t[i]).0 != k implies u.contains(
                t[i],
            ) by {
                assert(within(u, t[i], i));
                reveal(within);
            }
        },
    }
}

/// When a merge has ended, a block that was changed before it began, and not since, is found as
/// the change has it, with the place where the block is now, as long as the block is in the cache
/// and the index cache has room for it. Whatever the room, nothing else is found in the index
/// cache for it, and nothing at all if the block has lost its place.
pub proof fn law_merged_is_found(
    a: ZettaCacheState,
    m: MergeState,
    b: ZettaCacheState,
    i: int,
)
    requires
        a.index_cache.wf(),
        b.index_cache.wf(),
        m.old_pending_changes.wf(),
        0 <= i < m.old_pending_changes.entries@.len(),
        forall|k: int|
            0 <= k < m.old_pending_changes.entries@.len() && is_live(
                m,
                #[trigger] m.old_pending_changes.entries@[k],
            ) ==> value_of(m.old_pending_changes.entries@[k].1).location is Some,
        is_live(m, m.old_pending_changes.entries@[i]),
        place_now(m, value_of(m.old_pending_changes.entries@[i].1)) matches Some(l) ==> l.wf(),
        b.merge is None,
        !b.pending_changes@.contains_key(m.old_pending_changes.entries@[i].0),
        b.atime_histogram.phys.first_live == m.eviction_cutoff,
        b.index_cache@ == cache_filled(
            a.index_cache@,
            a.index_cache.cap(),
            m.eviction_cutoff,
            m.rebalance,
            m.old_pending_changes.entries@,
        ),
    ensures
        ({
            let (key, change) = m.old_pending_changes.entries@[i];
            let v = value_of(change);
            let now = IndexValue {
                location: place_now(m, v),
                sectors: v.sectors,
                atime: v.atime,
            };
            &&& place_now(m, v) is Some && m.old_pending_changes.entries@.len() - i
                <= a.index_cache.cap() ==> b.remembered(key) == Some(now) && b.valid(now) == Some(
                ValidIndexValue(now),
            )
            &&& place_now(m, v) is Some ==> (b.remembered(key) is Some ==> b.remembered(key)
                == Some(now))
            &&& place_now(m, v) is None ==> b.remembered(key) is None
        }),
{
    let s = a.index_cache@;
    let cap = a.index_cache.cap();
    let c = m.old_pending_changes.entries@;
    let (key, change) = c[i];
    let v = value_of(change);
    let t = b.index_cache@;
    law_cache_follows_merge(m, s, cap, c);
    law_cached_is_remembered(b, key);
    if place_now(m, v) is Some && c.len() - i <= cap {
        law_merged_is_cached(m, s, cap, c, i);
        let j = choose|j: int|
            0 <= j < c.len() - i && j < t.len() && #[trigger] t[j] == cached_change(m, c[i]);
        assert(t[j].0 == (key.id.0, key.block.0));
    }
    if exists|j: int| 0 <= j < t.len() && (#[trigger] t[j]).0 == (key.id.0, key.block.0) {
        let j = choose|j: int| 0 <= j < t.len() && (#[trigger] t[j]).0 == (key.id.0, key.block.0);
        assert(t[j] == cached_change(m, c[i]));
    }
}

} // verus!
