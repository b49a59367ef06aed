//! A merge that is interrupted goes on behind the last key that was reported.
use super::laws::{
    keys_ascend, law_merge_union, lemma_ingested_append, lemma_ingested_entry, result_for,
};
use super::{
    all_cuts, all_events, bound, cut_at, entries_of, entry_of_change, events_for, frees_of,
    ingested, ingests, is_cut, last_key_of, last_place, lemma_bound_exists, merge_events,
    merged_changes, old_ok, remaps_of, sent_entries, sent_frees, sent_remaps, IndexMessage,
    MergeEvent, MergeState,
};
use crate::index::{IndexEntry, IndexKey};
use crate::pending_changes::{ascending, has_key, key_at, PendingChange};
use vstd::prelude::*;

verus! {

/// The entries behind a key.
pub open spec fn behind(old: Seq<IndexEntry>, key: IndexKey) -> Seq<IndexEntry> {
    old.filter(|e: IndexEntry| e.key.place() > key.place())
}

proof fn lemma_behind(old: Seq<IndexEntry>, key: IndexKey, c: int)
    requires
        0 <= c <= old.len(),
        forall|i: int| 0 <= i < c ==> (#[trigger] old[i]).key.place() <= key.place(),
        forall|i: int| c <= i < old.len() ==> (#[trigger] old[i]).key.place() > key.place(),
    ensures
        behind(old, key) == old.skip(c),
    decreases old.len(),
{
    reveal(Seq::filter);
    if old.len() == 0 {
        assert(behind(old, key) =~= old.skip(c));
    } else {
        let t = old.drop_last();
        assert forall|i: int| 0 <= i < t.len() implies t[i] == old[i] by {}
        let last = old[old.len() - 1];
        if c == old.len() {
            lemma_behind(t, key, c - 1);
            assert(last.key.place() <= key.place());
        } else {
            lemma_behind(t, key, c);
            assert(last.key.place() > key.place());
        }
        assert(behind(old, key) =~= old.skip(c));
    }
}

/// The changes up to a key and the entries up to it are merged first, and then the others as in a
/// merge that starts behind the key.
proof fn lemma_split(
    pend: Seq<(IndexKey, PendingChange)>,
    start: Option<IndexKey>,
    o1: Seq<IndexEntry>,
    key: IndexKey,
    o2: Seq<IndexEntry>,
)
    requires
        ascending(pend),
        last_place(start, o1) <= key.place(),
        forall|i: int| 0 <= i < o2.len() ==> (#[trigger] o2[i]).key.place() > key.place(),
        forall|i: int, j: int|
            0 <= i < j < o2.len() ==> (#[trigger] o2[i]).key.place() < (
            #[trigger] o2[j]).key.place(),
    ensures
        o2.len() > 0 ==> merge_events(pend, start, o1 + o2) == merge_events(pend, start, o1)
            + ingests(
            pend.subrange(merged_changes(pend, start, o1), bound(pend, key.place() + 1)),
        ) + merge_events(pend, Some(key), o2),
        0 <= merged_changes(pend, start, o1) <= bound(pend, key.place() + 1) <= pend.len(),
    decreases o2.len(),
{
    let lo = merged_changes(pend, start, o1);
    let c = bound(pend, key.place() + 1);
    lemma_bound_exists(pend, last_place(start, o1) + 1);
    lemma_bound_exists(pend, key.place() + 1);
    assert(lo <= c) by {
        if c < lo {
            assert(pend[c].0.place() < last_place(start, o1) + 1);
        }
    }
    if o2.len() > 0 {
        let e = o2.last();
        let t = o2.drop_last();
        assert(o2[o2.len() - 1] == e);
        assert forall|i: int| 0 <= i < t.len() implies t[i] == o2[i] by {}
        assert((o1 + o2).last() == e);
        assert((o1 + o2).drop_last() =~= o1 + t);
        let hi = bound(pend, e.key.place());
        lemma_bound_exists(pend, e.key.place());
        lemma_split(pend, start, o1, key, t);
        let head = merge_events(pend, start, o1);
        let mid = ingests(pend.subrange(lo, c));
        if t.len() == 0 {
            assert(t =~= Seq::<IndexEntry>::empty());
            assert(o1 + t =~= o1);
            assert(c <= hi) by {
                if hi < c {
                    assert(pend[hi].0.place() < key.place() + 1);
                }
            }
            assert(merged_changes(pend, Some(key), t) == c);
            assert(ingests(pend.subrange(lo, hi)) =~= mid + ingests(pend.subrange(c, hi)));
            assert(merge_events(pend, Some(key), t) =~= Seq::<MergeEvent>::empty());
            assert(merge_events(pend, start, o1 + o2) =~= head + mid + merge_events(
                pend,
                Some(key),
                o2,
            ));
        } else {
            assert((o1 + t).last() == t.last());
            assert(last_place(start, o1 + t) == last_place(Some(key), t));
            assert(merge_events(pend, start, o1 + o2) =~= head + mid + merge_events(
                pend,
                Some(key),
                o2,
            ));
        }
    }
}

proof fn lemma_split_all(
    pend: Seq<(IndexKey, PendingChange)>,
    start: Option<IndexKey>,
    o1: Seq<IndexEntry>,
    key: IndexKey,
    o2: Seq<IndexEntry>,
)
    requires
        ascending(pend),
        last_place(start, o1) <= key.place(),
        forall|i: int| 0 <= i < o2.len() ==> (#[trigger] o2[i]).key.place() > key.place(),
        forall|i: int, j: int|
            0 <= i < j < o2.len() ==> (#[trigger] o2[i]).key.place() < (
            #[trigger] o2[j]).key.place(),
    ensures
        all_events(pend, start, o1 + o2) == merge_events(pend, start, o1) + ingests(
            pend.subrange(merged_changes(pend, start, o1), bound(pend, key.place() + 1)),
        ) + all_events(pend, Some(key), o2),
{
    let lo = merged_changes(pend, start, o1);
    let c = bound(pend, key.place() + 1);
    lemma_split(pend, start, o1, key, o2);
    if o2.len() == 0 {
        assert(o1 + o2 =~= o1);
        assert(o2 =~= Seq::<IndexEntry>::empty());
        assert(merged_changes(pend, Some(key), o2) == c);
        assert(ingests(pend.skip(lo)) =~= ingests(pend.subrange(lo, c)) + ingests(pend.skip(c)));
    } else {
        assert((o1 + o2).last() == o2.last());
        assert(merged_changes(pend, Some(key), o2) == merged_changes(pend, start, o1 + o2));
    }
    assert(all_events(pend, start, o1 + o2) =~= merge_events(pend, start, o1) + ingests(
        pend.subrange(lo, c),
    ) + all_events(pend, Some(key), o2));
}

/// An entry is replaced just before the one that replaces it is added.
pub open spec fn paired(events: Seq<MergeEvent>) -> bool {
    forall|i: int|
        0 <= i < events.len() && (#[trigger] events[i]) is Evict ==> i + 1 < events.len()
            && events[i + 1] is Ingest
}

proof fn lemma_paired_append(a: Seq<MergeEvent>, b: Seq<MergeEvent>)
    requires
        paired(a),
        paired(b),
    ensures
        paired(a + b),
{
    let s = a + b;
    assert forall|i: int| 0 <= i < s.len() && (#[trigger] s[i]) is Evict implies i + 1 < s.len()
        && s[i + 1] is Ingest by {
        if i < a.len() {
            assert(a[i] is Evict);
            assert(s[i + 1] == a[i + 1]);
        } else {
            assert(b[i - a.len()] is Evict);
            assert(s[i + 1] == b[i - a.len() + 1]);
        }
    }
}

proof fn lemma_paired(
    pend: Seq<(IndexKey, PendingChange)>,
    start: Option<IndexKey>,
    old: Seq<IndexEntry>,
)
    ensures
        paired(merge_events(pend, start, old)),
    decreases old.len(),
{
    if old.len() > 0 {
        let o = old.drop_last();
        let e = old.last();
        lemma_paired(pend, start, o);
        let mid = ingests(
            pend.subrange(merged_changes(pend, start, o), bound(pend, e.key.place())),
        );
        lemma_paired_append(merge_events(pend, start, o), mid);
        lemma_paired_append(merge_events(pend, start, o) + mid, events_for(pend, e));
    }
}

/// Where an added entry is among those that are added.
proof fn lemma_ingest_place(events: Seq<MergeEvent>, i: int, e: IndexEntry)
    requires
        0 <= i < events.len(),
        events[i] == MergeEvent::Ingest(e),
    ensures
        ingested(events.take(i)).len() < ingested(events).len(),
        ingested(events)[ingested(events.take(i)).len() as int] == e,
        ingested(events.take(i + 1)) == ingested(events.take(i)).push(e),
{
    let a = events.take(i + 1);
    let b = events.skip(i + 1);
    assert(events =~= a + b);
    lemma_ingested_append(a, b);
    assert(a.drop_last() =~= events.take(i));
    assert(a.last() == MergeEvent::Ingest(e));
}

/// Entries are added in the order of their keys.
proof fn lemma_ingest_order(
    events: Seq<MergeEvent>,
    i: int,
    x: IndexEntry,
    j: int,
    y: IndexEntry,
)
    requires
        keys_ascend(ingested(events)),
        0 <= i < j < events.len(),
        events[i] == MergeEvent::Ingest(x),
        events[j] == MergeEvent::Ingest(y),
    ensures
        x.key.place() < y.key.place(),
{
    lemma_ingest_place(events, i, x);
    lemma_ingest_place(events, j, y);
    let a = events.take(i + 1);
    let b = events.subrange(i + 1, j);
    assert(events.take(j) =~= a + b);
    lemma_ingested_append(a, b);
}

/// The last added entry, and what comes behind it.
proof fn lemma_last_ingest(events: Seq<MergeEvent>) -> (p: int)
    requires
        last_key_of(events) is Some,
    ensures
        0 <= p < events.len(),
        events[p] is Ingest,
        events[p]->Ingest_0.key == last_key_of(events)->0,
        forall|i: int| p < i < events.len() ==> (#[trigger] events[i]) is Evict,
    decreases events.len(),
{
    let t = events.drop_last();
    match events.last() {
        MergeEvent::Ingest(e) => { events.len() - 1 },
        MergeEvent::Evict(_) => {
            let p = lemma_last_ingest(t);
            assert forall|i: int| p < i < events.len() implies (#[trigger] events[i]) is Evict by {
                if i < t.len() {
                    assert(t[i] is Evict);
                }
            }
            p
        },
    }
}

/// A merge that is resumed behind the key of an entry that was added does what was left to do,
/// and nothing twice.
#[verifier::spinoff_prover]
#[verifier::rlimit(40)]
pub proof fn law_resume_behind(
    pend: Seq<(IndexKey, PendingChange)>,
    start: Option<IndexKey>,
    old: Seq<IndexEntry>,
    p: int,
    e: IndexEntry,
)
    requires
        ascending(pend),
        old_ok(start, old),
        0 <= p < all_events(pend, start, old).len(),
        all_events(pend, start, old)[p] == MergeEvent::Ingest(e),
    ensures
        all_events(pend, Some(e.key), behind(old, e.key)) == all_events(pend, start, old).skip(
            p + 1,
        ),
{
    let all = all_events(pend, start, old);
    let key = e.key;
    let first = last_place(start, Seq::<IndexEntry>::empty());
    assert(keys_ascend(ingested(all)) && first < key.place()) by {
        law_merge_union(pend, start, old);
        lemma_ingest_place(all, p, e);
        assert(ingested(all).contains(e));
    }
    let c = lemma_count(old, key);
    let o1 = old.take(c);
    let o2 = old.skip(c);
    lemma_behind(old, key, c);
    assert(o1 + o2 =~= old);
    assert forall|i: int| 0 <= i < o1.len() implies o1[i] == old[i] by {}
    assert forall|i: int| 0 <= i < o2.len() implies o2[i] == old[c + i] by {}
    assert(last_place(start, o1) <= key.place()) by {
        if o1.len() > 0 {
            assert(o1.last() == old[c - 1]);
        } else {
            assert(o1 =~= Seq::<IndexEntry>::empty());
        }
    }
    assert forall|i: int, j: int| 0 <= i < j < o2.len() implies (#[trigger] o2[i]).key.place() < (
    #[trigger] o2[j]).key.place() by {
        assert(old[c + i].key.place() < old[c + j].key.place());
    }
    lemma_split_all(pend, start, o1, key, o2);
    let lo = merged_changes(pend, start, o1);
    let hi = bound(pend, key.place() + 1);
    lemma_split(pend, start, o1, key, o2);
    let mid = ingests(pend.subrange(lo, hi));
    let head = merge_events(pend, start, o1) + mid;
    let rest = all_events(pend, Some(key), o2);
    assert(all == head + rest);
    // behind the head, only later keys are added
    assert(p < head.len()) by {
        law_merge_union(pend, Some(key), o2);
        if p >= head.len() {
            assert(rest[p - head.len()] == MergeEvent::Ingest(e));
            lemma_ingest_place(rest, p - head.len(), e);
            assert(ingested(rest).contains(e));
        }
    }
    // the head ends with an entry that is added, whose key is no later than this one
    let q = head.len() - 1;
    let x = lemma_head_end(pend, start, o1, key);
    assert(p == q) by {
        assert(all[q] == head[q]);
        if p < q {
            lemma_ingest_order(all, p, e, q, x);
        }
    }
    assert(all.skip(p + 1) =~= rest);
}

/// How many entries are not behind a key.
proof fn lemma_count(old: Seq<IndexEntry>, key: IndexKey) -> (c: int)
    requires
        forall|i: int, j: int|
            0 <= i < j < old.len() ==> (#[trigger] old[i]).key.place() < (
            #[trigger] old[j]).key.place(),
    ensures
        0 <= c <= old.len(),
        forall|i: int| 0 <= i < c ==> (#[trigger] old[i]).key.place() <= key.place(),
        forall|i: int| c <= i < old.len() ==> (#[trigger] old[i]).key.place() > key.place(),
    decreases old.len(),
{
    if old.len() == 0 {
        0
    } else {
        let t = old.drop_last();
        assert forall|i: int| 0 <= i < t.len() implies t[i] == old[i] by {}
        let c = lemma_count(t, key);
        let last = old.len() - 1;
        if old[last].key.place() <= key.place() {
            assert forall|i: int| 0 <= i < old.len() implies (#[trigger] old[i]).key.place()
                <= key.place() by {
                if i < last {
                    assert(old[i].key.place() < old[last].key.place());
                }
            }
            old.len() as int
        } else {
            assert forall|i: int| c <= i < old.len() implies (#[trigger] old[i]).key.place()
                > key.place() by {
                if i < last {
                    assert(t[i].key.place() > key.place());
                }
            }
            assert forall|i: int| 0 <= i < c implies (#[trigger] old[i]).key.place()
                <= key.place() by {
                assert(t[i].key.place() <= key.place());
            }
            c
        }
    }
}

/// What comes up to a key ends with an entry that is added, and that is not behind the key.
proof fn lemma_head_end(
    pend: Seq<(IndexKey, PendingChange)>,
    start: Option<IndexKey>,
    o1: Seq<IndexEntry>,
    key: IndexKey,
) -> (x: IndexEntry)
    requires
        ascending(pend),
        last_place(start, o1) <= key.place(),
        0 <= merged_changes(pend, start, o1) <= bound(pend, key.place() + 1) <= pend.len(),
        (merge_events(pend, start, o1) + ingests(
            pend.subrange(merged_changes(pend, start, o1), bound(pend, key.place() + 1)),
        )).len() > 0,
    ensures
        (merge_events(pend, start, o1) + ingests(
            pend.subrange(merged_changes(pend, start, o1), bound(pend, key.place() + 1)),
        )).last() == MergeEvent::Ingest(x),
        x.key.place() <= key.place(),
{
    let lo = merged_changes(pend, start, o1);
    let hi = bound(pend, key.place() + 1);
    lemma_bound_exists(pend, key.place() + 1);
    let mid = ingests(pend.subrange(lo, hi));
    let head = merge_events(pend, start, o1) + mid;
    if lo < hi {
        let x = entry_of_change(pend[hi - 1]);
        assert(mid.last() == MergeEvent::Ingest(x));
        assert(head.last() == mid.last());
        assert(pend[hi - 1].0.place() < key.place() + 1);
        x
    } else {
        assert(head =~= merge_events(pend, start, o1));
        assert(o1.len() > 0);
        let e = o1.last();
        let s = events_for(pend, e);
        lemma_ingested_entry(pend, e);
        let x = result_for(pend, e);
        assert(s.last() == MergeEvent::Ingest(x));
        assert(head.last() == s.last());
        assert(x.key == e.key) by {
            if has_key(pend, e.key) {
                assert(pend[key_at(pend, e.key)].0 == e.key);
            }
        }
        x
    }
}

/// Each message names the last key that was added. A merge that is resumed behind that key adds
/// what was not added yet, and nothing twice. It replaces again only an entry whose replacement
/// was reported before the entry that replaces it was added.
pub proof fn law_resume(
    pend: Seq<(IndexKey, PendingChange)>,
    start: Option<IndexKey>,
    old: Seq<IndexEntry>,
    n: int,
    key: IndexKey,
)
    requires
        ascending(pend),
        old_ok(start, old),
        0 <= n <= all_events(pend, start, old).len(),
        last_key_of(all_events(pend, start, old).take(n)) == Some(key),
    ensures
        ({
            let all = all_events(pend, start, old);
            let resumed = all_events(pend, Some(key), behind(old, key));
            &&& n > 0
            &&& resumed == if all[n - 1] is Ingest {
                all.skip(n)
            } else {
                all.skip(n - 1)
            }
            &&& ingested(all.take(n)) + ingested(resumed) == ingested(all)
        }),
{
    let all = all_events(pend, start, old);
    let t = all.take(n);
    let p = lemma_last_ingest(t);
    let e = t[p]->Ingest_0;
    assert(all[p] == MergeEvent::Ingest(e));
    law_resume_behind(pend, start, old, p, e);
    lemma_paired(pend, start, old);
    assert(paired(all)) by {
        lemma_paired_append(
            merge_events(pend, start, old),
            ingests(pend.skip(merged_changes(pend, start, old))),
        );
    }
    if p + 2 < n {
        assert(t[p + 1] is Evict && t[p + 2] is Evict);
        assert(all[p + 1] is Evict);
        assert(all[p + 2] is Ingest);
        assert(false);
    }
    let a = all.take(p + 1);
    let b = all.skip(p + 1);
    assert(all =~= a + b);
    lemma_ingested_append(a, b);
    if n == p + 1 {
        assert(all[n - 1] is Ingest);
    } else {
        assert(t[n - 1] is Evict);
        assert(t.drop_last() =~= a);
        assert(ingested(t) == ingested(a));
    }
}

proof fn lemma_of_append(m: MergeState, a: Seq<MergeEvent>, b: Seq<MergeEvent>)
    ensures
        entries_of(m, a + b) == entries_of(m, a) + entries_of(m, b),
        frees_of(m, a + b) == frees_of(m, a) + frees_of(m, b),
        remaps_of(m, a + b) == remaps_of(m, a) + remaps_of(m, b),
    decreases b.len(),
{
    if b.len() == 0 {
        assert(a + b =~= a);
        assert(entries_of(m, a) + entries_of(m, b) =~= entries_of(m, a));
        assert(frees_of(m, a) + frees_of(m, b) =~= frees_of(m, a));
        assert(remaps_of(m, a) + remaps_of(m, b) =~= remaps_of(m, a));
    } else {
        assert((a + b).drop_last() =~= a + b.drop_last());
        assert((a + b).last() == b.last());
        lemma_of_append(m, a, b.drop_last());
        assert(entries_of(m, a + b) =~= entries_of(m, a) + entries_of(m, b));
        assert(frees_of(m, a + b) =~= frees_of(m, a) + frees_of(m, b));
        assert(remaps_of(m, a + b) =~= remaps_of(m, a) + remaps_of(m, b));
    }
}

/// If a merge stops after message `k`, one that is resumed behind the key of that message
/// completes it: together they give the entries and the moved blocks of a merge that was not
/// stopped. That holds of the freed blocks too, unless the message was sent between the
/// replacement of an entry and the entry that replaces it.
pub proof fn law_resume_message(
    m: MergeState,
    messages: Seq<IndexMessage>,
    start: Option<IndexKey>,
    old: Seq<IndexEntry>,
    k: int,
)
    requires
        m.wf(),
        old_ok(start, old),
        all_cuts(m, messages, all_events(m.old_pending_changes.entries@, start, old)),
        0 <= k < messages.len(),
    ensures
        ({
            let pend = m.old_pending_changes.entries@;
            let all = all_events(pend, start, old);
            let key = messages[k].last_key;
            let resumed = all_events(pend, Some(key), behind(old, key));
            let sent = messages.take(k + 1);
            &&& sent_entries(sent) + entries_of(m, resumed) == entries_of(m, all)
            &&& sent_remaps(sent) + remaps_of(m, resumed) == remaps_of(m, all)
            &&& exists|n: int| #[trigger]
                cut_at(m, messages, all, k, n) && n > 0 && (all[n - 1] is Ingest ==> sent_frees(
                    sent,
                ) + frees_of(m, resumed) == frees_of(m, all))
        }),
{
    reveal(all_cuts);
    let pend = m.old_pending_changes.entries@;
    let all = all_events(pend, start, old);
    let key = messages[k].last_key;
    assert(is_cut(m, messages, all, k));
    let n = choose|n: int| #[trigger] cut_at(m, messages, all, k, n);
    law_resume(pend, start, old, n, key);
    let resumed = all_events(pend, Some(key), behind(old, key));
    if all[n - 1] is Ingest {
        assert(all =~= all.take(n) + resumed);
        lemma_of_append(m, all.take(n), resumed);
    } else {
        assert(all =~= all.take(n - 1) + resumed);
        lemma_of_append(m, all.take(n - 1), resumed);
        assert(all.take(n).drop_last() =~= all.take(n - 1));
        assert(all.take(n).last() is Evict);
        assert(entries_of(m, all.take(n)) =~= entries_of(m, all.take(n - 1)));
        assert(remaps_of(m, all.take(n)) =~= remaps_of(m, all.take(n - 1)));
    }
}

} // verus!
