//! Changes to the index since the last merge.
use crate::base_types::Atime;
use crate::index::{law_key_order, IndexKey, IndexValue};
use vstd::prelude::*;

verus! {

/// A block was accessed: its value with the new atime, and the atime that the index has.
#[derive(Debug, Clone, Copy, PartialEq, Eq, Structural)]
pub struct UpdateAtime(pub IndexValue, pub Atime);

/// A change to the index. Nothing is removed here: what leaves the cache does so in a merge.
#[derive(Debug, Clone, Copy, PartialEq, Eq, Structural)]
pub enum PendingChange {
    Insert(IndexValue),
    UpdateAtime(UpdateAtime),
}

impl PendingChange {
    pub open spec fn spec_value(self) -> IndexValue {
        match self {
            PendingChange::Insert(v) => v,
            PendingChange::UpdateAtime(u) => u.0,
        }
    }

    pub fn value(&self) -> (r: IndexValue)
        ensures
            r == self.spec_value(),
    {
        match self {
            PendingChange::Insert(v) => *v,
            PendingChange::UpdateAtime(u) => u.0,
        }
    }

    /// The change with another value.
    pub open spec fn with_value(self, value: IndexValue) -> PendingChange {
        match self {
            PendingChange::Insert(_) => PendingChange::Insert(value),
            PendingChange::UpdateAtime(u) => PendingChange::UpdateAtime(UpdateAtime(value, u.1)),
        }
    }
}

/// The changes in ascending order of their keys.
pub struct PendingChanges {
    pub entries: Vec<(IndexKey, PendingChange)>,
}

/// Keys in ascending order, none twice.
pub open spec fn ascending(s: Seq<(IndexKey, PendingChange)>) -> bool {
    forall|i: int, j: int|
        0 <= i < j < s.len() ==> (#[trigger] s[i]).0.place() < (#[trigger] s[j]).0.place()
}

/// Some entry has the key.
pub open spec fn has_key(s: Seq<(IndexKey, PendingChange)>, key: IndexKey) -> bool {
    exists|i: int| 0 <= i < s.len() && (#[trigger] s[i]).0 == key
}

/// Where the key is.
pub open spec fn key_at(s: Seq<(IndexKey, PendingChange)>, key: IndexKey) -> int {
    choose|i: int| 0 <= i < s.len() && (#[trigger] s[i]).0 == key
}

/// The bytes of the changes that have an atime.
pub open spec fn change_bytes(s: Seq<(IndexKey, PendingChange)>, t: int) -> int
    decreases s.len(),
{
    if s.len() == 0 {
        0
    } else {
        change_bytes(s.drop_last(), t) + value_bytes(s.last().1.spec_value(), t)
    }
}

/// The bytes of a value, if it has the atime.
pub open spec fn value_bytes(v: IndexValue, t: int) -> int {
    if v.atime.0 == t {
        v.spec_size()
    } else {
        0
    }
}

proof fn lemma_bytes_update(
    s: Seq<(IndexKey, PendingChange)>,
    i: int,
    p: (IndexKey, PendingChange),
    t: int,
)
    requires
        0 <= i < s.len(),
    ensures
        change_bytes(s.update(i, p), t) == change_bytes(s, t) + value_bytes(p.1.spec_value(), t)
            - value_bytes(s[i].1.spec_value(), t),
    decreases s.len(),
{
    let u = s.update(i, p);
    if i == s.len() - 1 {
        assert(u.drop_last() =~= s.drop_last());
    } else {
        lemma_bytes_update(s.drop_last(), i, p, t);
        assert(u.drop_last() =~= s.drop_last().update(i, p));
    }
}

proof fn lemma_bytes_insert(
    s: Seq<(IndexKey, PendingChange)>,
    i: int,
    p: (IndexKey, PendingChange),
    t: int,
)
    requires
        0 <= i <= s.len(),
    ensures
        change_bytes(s.insert(i, p), t) == change_bytes(s, t) + value_bytes(p.1.spec_value(), t),
    decreases s.len(),
{
    let u = s.insert(i, p);
    if i == s.len() {
        assert(u.drop_last() =~= s);
    } else {
        lemma_bytes_insert(s.drop_last(), i, p, t);
        assert(u.drop_last() =~= s.drop_last().insert(i, p));
        assert(u.last() == s.last());
    }
}

/// The bytes of one change are among those of all.
pub proof fn lemma_bytes_of_one(s: Seq<(IndexKey, PendingChange)>, i: int, t: int)
    requires
        0 <= i < s.len(),
    ensures
        0 <= value_bytes(s[i].1.spec_value(), t) <= change_bytes(s, t),
    decreases s.len(),
{
    lemma_bytes_nonneg(s.drop_last(), t);
    if i < s.len() - 1 {
        lemma_bytes_of_one(s.drop_last(), i, t);
    }
}

pub proof fn lemma_bytes_nonneg(s: Seq<(IndexKey, PendingChange)>, t: int)
    ensures
        0 <= change_bytes(s, t),
    decreases s.len(),
{
    if s.len() > 0 {
        lemma_bytes_nonneg(s.drop_last(), t);
    }
}

impl View for PendingChanges {
    type V = Map<IndexKey, PendingChange>;

    open spec fn view(&self) -> Map<IndexKey, PendingChange> {
        Map::new(
            |k: IndexKey| has_key(self.entries@, k),
            |k: IndexKey| self.entries@[key_at(self.entries@, k)].1,
        )
    }
}

/// In ascending entries a key has one place.
pub proof fn lemma_key_at(s: Seq<(IndexKey, PendingChange)>, i: int)
    requires
        ascending(s),
        0 <= i < s.len(),
    ensures
        has_key(s, s[i].0),
        key_at(s, s[i].0) == i,
{
    let j = key_at(s, s[i].0);
    assert(s[i].0 == s[i].0);
    assert(s[j].0 == s[i].0);
    if i < j {
        assert(s[i].0.place() < s[j].0.place());
    } else if j < i {
        assert(s[j].0.place() < s[i].0.place());
    }
}

/// What a change makes of the bytes that have an atime: an insertion adds some, and an access
/// takes them from another atime.
pub open spec fn net_of(p: PendingChange, t: int) -> int {
    match p {
        PendingChange::Insert(v) => value_bytes(v, t),
        PendingChange::UpdateAtime(u) => value_bytes(u.0, t) - value_bytes(
            IndexValue { atime: u.1, ..u.0 },
            t,
        ),
    }
}

/// What the changes make of the bytes that have an atime.
pub open spec fn net_bytes(s: Seq<(IndexKey, PendingChange)>, t: int) -> int
    decreases s.len(),
{
    if s.len() == 0 {
        0
    } else {
        net_bytes(s.drop_last(), t) + net_of(s.last().1, t)
    }
}

/// Insertions only add.
pub proof fn lemma_net_of_inserts(s: Seq<(IndexKey, PendingChange)>, t: int)
    requires
        forall|i: int| 0 <= i < s.len() ==> (#[trigger] s[i]).1 is Insert,
    ensures
        net_bytes(s, t) == change_bytes(s, t),
    decreases s.len(),
{
    if s.len() > 0 {
        assert(s.last().1 is Insert);
        lemma_net_of_inserts(s.drop_last(), t);
    }
}

/// The changes by key.
spec fn map_of(s: Seq<(IndexKey, PendingChange)>) -> Map<IndexKey, PendingChange> {
    Map::new(|k: IndexKey| has_key(s, k), |k: IndexKey| s[key_at(s, k)].1)
}

/// Without the last entry the others are as before.
proof fn lemma_map_drop_last(s: Seq<(IndexKey, PendingChange)>)
    requires
        ascending(s),
        s.len() > 0,
    ensures
        ascending(s.drop_last()),
        map_of(s).contains_key(s.last().0),
        map_of(s)[s.last().0] == s.last().1,
        map_of(s.drop_last()) == map_of(s).remove(s.last().0),
{
    let d = s.drop_last();
    lemma_key_at(s, s.len() - 1);
    assert forall|k: IndexKey| map_of(d).contains_key(k) <==> #[trigger] map_of(s).remove(
        s.last().0,
    ).contains_key(k) by {
        if has_key(d, k) {
            let i = key_at(d, k);
            assert(s[i].0 == k);
            assert(s[i].0.place() < s[s.len() - 1].0.place());
        }
        if has_key(s, k) && k != s.last().0 {
            let i = key_at(s, k);
            assert(d[i].0 == k);
        }
    }
    assert forall|k: IndexKey| #[trigger] map_of(d).contains_key(k) implies map_of(d)[k]
        == map_of(s)[k] by {
        let i = key_at(d, k);
        lemma_key_at(d, i);
        assert(s[i].0 == k);
        lemma_key_at(s, i);
    }
    assert(map_of(d) =~= map_of(s).remove(s.last().0));
}

/// The last key is the greatest.
proof fn lemma_last_key(s: Seq<(IndexKey, PendingChange)>, k: IndexKey)
    requires
        ascending(s),
        map_of(s).contains_key(k),
    ensures
        s.len() > 0,
        k.place() <= s.last().0.place(),
{
    let i = key_at(s, k);
    assert(s[i].0 == k);
    if i < s.len() - 1 {
        assert(s[i].0.place() < s[s.len() - 1].0.place());
    }
}

/// The same changes are in the same order.
proof fn lemma_same_entries(
    a: Seq<(IndexKey, PendingChange)>,
    b: Seq<(IndexKey, PendingChange)>,
)
    requires
        ascending(a),
        ascending(b),
        map_of(a) == map_of(b),
    ensures
        a == b,
    decreases a.len(),
{
    if a.len() == 0 {
        if b.len() > 0 {
            lemma_map_drop_last(b);
            lemma_last_key(a, b.last().0);
        }
        assert(a =~= b);
    } else {
        lemma_map_drop_last(a);
        lemma_last_key(b, a.last().0);
        lemma_map_drop_last(b);
        lemma_last_key(a, b.last().0);
        law_key_order(a.last().0, b.last().0);
        lemma_same_entries(a.drop_last(), b.drop_last());
        assert(a =~= a.drop_last().push(a.last()));
        assert(b =~= b.drop_last().push(b.last()));
    }
}

proof fn lemma_net_map(
    a: Seq<(IndexKey, PendingChange)>,
    b: Seq<(IndexKey, PendingChange)>,
    key: IndexKey,
    p: PendingChange,
    t: int,
)
    requires
        ascending(a),
        ascending(b),
        map_of(b) == map_of(a).insert(key, p),
    ensures
        net_bytes(b, t) == net_bytes(a, t) + net_of(p, t) - if map_of(a).contains_key(key) {
            net_of(map_of(a)[key], t)
        } else {
            0
        },
    decreases a.len(),
{
    assert(map_of(b).contains_key(key));
    lemma_last_key(b, key);
    lemma_map_drop_last(b);
    let top = b.last().0;
    if top == key {
        if map_of(a).contains_key(key) {
            lemma_last_key(a, key);
            lemma_map_drop_last(a);
            assert(map_of(b).contains_key(a.last().0));
            lemma_last_key(b, a.last().0);
            law_key_order(a.last().0, key);
            assert(map_of(b.drop_last()) =~= map_of(a.drop_last()));
            lemma_same_entries(a.drop_last(), b.drop_last());
        } else {
            assert(map_of(b.drop_last()) =~= map_of(a));
            lemma_same_entries(a, b.drop_last());
        }
    } else {
        assert(map_of(a).contains_key(top));
        lemma_last_key(a, top);
        lemma_map_drop_last(a);
        assert(map_of(b).contains_key(a.last().0));
        lemma_last_key(b, a.last().0);
        law_key_order(a.last().0, top);
        assert(map_of(b.drop_last()) =~= map_of(a.drop_last()).insert(key, p));
        lemma_net_map(a.drop_last(), b.drop_last(), key, p, t);
    }
}

/// One change is made, or replaces another.
pub proof fn lemma_net_changed(
    a: PendingChanges,
    b: PendingChanges,
    key: IndexKey,
    p: PendingChange,
    t: int,
)
    requires
        a.wf(),
        b.wf(),
        b@ == a@.insert(key, p),
    ensures
        net_bytes(b.entries@, t) == net_bytes(a.entries@, t) + net_of(p, t)
            - if a@.contains_key(key) {
            net_of(a@[key], t)
        } else {
            0
        },
{
    assert(map_of(a.entries@) =~= a@);
    assert(map_of(b.entries@) =~= b@);
    lemma_net_map(a.entries@, b.entries@, key, p, t);
}

impl PendingChanges {
    pub open spec fn wf(&self) -> bool {
        ascending(self.entries@)
    }

    pub fn new() -> (r: PendingChanges)
        ensures
            r.wf(),
            r.entries@.len() == 0,
            r@ == Map::<IndexKey, PendingChange>::empty(),
    {
        let r = PendingChanges { entries: Vec::new() };
        assert(r@ =~= Map::<IndexKey, PendingChange>::empty());
        r
    }

    pub fn len(&self) -> (r: usize)
        ensures
            r == self.entries@.len(),
    {
        self.entries.len()
    }

    /// The first place whose key is not before `key`.
    pub fn lower_bound(&self, key: &IndexKey) -> (r: usize)
        requires
            self.wf(),
        ensures
            r <= self.entries@.len(),
            forall|i: int| 0 <= i < r ==> (#[trigger] self.entries@[i]).0.place() < key.place(),
            forall|i: int|
                r <= i < self.entries@.len() ==> (#[trigger] self.entries@[i]).0.place()
                    >= key.place(),
    {
        let mut lo: usize = 0;
        let mut hi: usize = self.entries.len();
        while lo < hi
            invariant
                self.wf(),
                0 <= lo <= hi <= self.entries@.len(),
                forall|i: int|
                    0 <= i < lo ==> (#[trigger] self.entries@[i]).0.place() < key.place(),
                forall|i: int|
                    hi <= i < self.entries@.len() ==> (#[trigger] self.entries@[i]).0.place()
                        >= key.place(),
            decreases hi - lo,
        {
            let mid: usize = lo + (hi - lo) / 2;
            if self.entries[mid].0.before(key) {
                proof {
                    assert forall|i: int| 0 <= i < mid + 1 implies (
                    #[trigger] self.entries@[i]).0.place() < key.place() by {
                        if i < mid {
                            assert(self.entries@[i].0.place()
                                < self.entries@[mid as int].0.place());
                        }
                    }
                }
                lo = mid + 1;
            } else {
                proof {
                    assert forall|i: int| mid <= i < self.entries@.len() implies (
                    #[trigger] self.entries@[i]).0.place() >= key.place() by {
                        if i > mid {
                            assert(self.entries@[mid as int].0.place()
                                < self.entries@[i].0.place());
                        }
                    }
                }
                hi = mid;
            }
        }
        lo
    }

    /// The change of a key.
    pub fn get(&self, key: &IndexKey) -> (r: Option<PendingChange>)
        requires
            self.wf(),
        ensures
            r == if self@.contains_key(*key) {
                Some(self@[*key])
            } else {
                None
            },
    {
        let i = self.lower_bound(key);
        let ghost s = self.entries@;
        if i < self.entries.len() && !key.before(&self.entries[i].0) {
            proof {
                law_key_order(s[i as int].0, *key);
                lemma_key_at(s, i as int);
            }
            Some(self.entries[i].1)
        } else {
            proof {
                if has_key(s, *key) {
                    let j = key_at(s, *key);
                    assert(s[j].0 == *key);
                    if j >= i && i < s.len() {
                        if j > i {
                            assert(s[i as int].0.place() < s[j].0.place());
                        }
                    }
                }
            }
            None
        }
    }

    /// Sets the change of a key; returns the one before.
    pub fn insert(&mut self, key: IndexKey, change: PendingChange) -> (r: Option<PendingChange>)
        requires
            old(self).wf(),
        ensures
            final(self).wf(),
            final(self)@ == old(self)@.insert(key, change),
            r == if old(self)@.contains_key(key) {
                Some(old(self)@[key])
            } else {
                None
            },
            final(self).entries@.len() == old(self).entries@.len() + if old(self)@.contains_key(
                key,
            ) {
                0int
            } else {
                1int
            },
            forall|t: int| #[trigger]
                change_bytes(final(self).entries@, t) == change_bytes(old(self).entries@, t)
                    + value_bytes(change.spec_value(), t) - if old(self)@.contains_key(key) {
                    value_bytes(old(self)@[key].spec_value(), t)
                } else {
                    0
                },
    {
        let ghost a = *self;
        let ghost s = self.entries@;
        let i = self.lower_bound(&key);
        if i < self.entries.len() && !key.before(&self.entries[i].0) {
            proof {
                law_key_order(s[i as int].0, key);
                lemma_key_at(s, i as int);
            }
            let before = self.entries[i].1;
            self.entries.set(i, (key, change));
            proof {
                let t = self.entries@;
                assert forall|x: int, y: int| 0 <= x < y < t.len() implies (
                #[trigger] t[x]).0.place() < (#[trigger] t[y]).0.place() by {
                    assert(s[x].0.place() < s[y].0.place());
                }
                lemma_updated(a, *self, i as int, key, change);
                assert(t =~= s.update(i as int, (key, change)));
                assert forall|x: int| #[trigger]
                    change_bytes(t, x) == change_bytes(s, x) + value_bytes(change.spec_value(), x)
                        - value_bytes(before.spec_value(), x) by {
                    lemma_bytes_update(s, i as int, (key, change), x);
                }
            }
            Some(before)
        } else {
            proof {
                if has_key(s, key) {
                    let j = key_at(s, key);
                    assert(s[j].0 == key);
                    if j > i {
                        assert(s[i as int].0.place() < s[j].0.place());
                    }
                }
            }
            self.entries.insert(i, (key, change));
            proof {
                let t = self.entries@;
                assert(t =~= s.insert(i as int, (key, change)));
                assert forall|x: int, y: int| 0 <= x < y < t.len() implies (
                #[trigger] t[x]).0.place() < (#[trigger] t[y]).0.place() by {
                    let x0 = if x > i {
                        x - 1
                    } else {
                        x
                    };
                    let y0 = if y > i {
                        y - 1
                    } else {
                        y
                    };
                    if x == i {
                        assert(t[y] == s[y0]);
                        assert(s[y0].0.place() >= key.place());
                        law_key_order(s[y0].0, key);
                        if s[y0].0 == key {
                            assert(has_key(s, key));
                        }
                    } else if y == i {
                        assert(t[x] == s[x0]);
                    } else {
                        assert(t[x] == s[x0] && t[y] == s[y0]);
                        assert(s[x0].0.place() < s[y0].0.place());
                    }
                }
                lemma_inserted(a, *self, i as int, key, change);
                assert forall|x: int| #[trigger]
                    change_bytes(t, x) == change_bytes(s, x) + value_bytes(
                        change.spec_value(),
                        x,
                    ) by {
                    lemma_bytes_insert(s, i as int, (key, change), x);
                }
            }
            None
        }
    }

    /// Forgets the change of a key.
    pub fn remove(&mut self, key: &IndexKey)
        requires
            old(self).wf(),
        ensures
            final(self).wf(),
            final(self)@ == old(self)@.remove(*key),
            final(self).entries@.len() <= old(self).entries@.len(),
    {
        let ghost a = *self;
        let ghost s = self.entries@;
        let i = self.lower_bound(key);
        if i < self.entries.len() && !key.before(&self.entries[i].0) {
            proof {
                law_key_order(s[i as int].0, *key);
                lemma_key_at(s, i as int);
            }
            self.entries.remove(i);
            proof {
                let t = self.entries@;
                assert(t =~= s.remove(i as int));
                assert forall|x: int, y: int| 0 <= x < y < t.len() implies (
                #[trigger] t[x]).0.place() < (#[trigger] t[y]).0.place() by {
                    let x0 = if x < i {
                        x
                    } else {
                        x + 1
                    };
                    let y0 = if y < i {
                        y
                    } else {
                        y + 1
                    };
                    assert(s[x0].0.place() < s[y0].0.place());
                }
                lemma_without(a, *self, i as int, *key);
            }
        } else {
            proof {
                if has_key(s, *key) {
                    let j = key_at(s, *key);
                    assert(s[j].0 == *key);
                    if j > i {
                        assert(s[i as int].0.place() < s[j].0.place());
                    }
                }
                assert(a@.remove(*key) =~= a@);
            }
        }
    }

    /// Takes all changes out.
    pub fn take(&mut self) -> (r: PendingChanges)
        ensures
            r == *old(self),
            final(self).wf(),
            final(self).entries@.len() == 0,
            final(self)@ == Map::<IndexKey, PendingChange>::empty(),
    {
        let mut r = PendingChanges::new();
        std::mem::swap(self, &mut r);
        r
    }
}

proof fn lemma_updated(
    a: PendingChanges,
    b: PendingChanges,
    i: int,
    key: IndexKey,
    change: PendingChange,
)
    requires
        a.wf(),
        b.wf(),
        0 <= i < a.entries@.len(),
        a.entries@[i].0 == key,
        b.entries@ =~= a.entries@.update(i, (key, change)),
    ensures
        b@ == a@.insert(key, change),
{
    let s = a.entries@;
    let t = b.entries@;
    lemma_key_at(s, i);
    lemma_key_at(t, i);
    assert forall|k: IndexKey| has_key(t, k) == has_key(s, k) by {
        if has_key(t, k) {
            assert(s[key_at(t, k)].0 == k);
        }
        if has_key(s, k) {
            assert(t[key_at(s, k)].0 == k);
        }
    }
    assert forall|k: IndexKey| has_key(t, k) implies #[trigger] b@[k] == a@.insert(key, change)[k] by {
        let j = key_at(t, k);
        assert(t[j].0 == k);
        if k != key {
            lemma_key_at(s, j);
        } else {
            lemma_key_at(t, i);
        }
    }
    assert(b@ =~= a@.insert(key, change));
}

proof fn lemma_inserted(
    a: PendingChanges,
    b: PendingChanges,
    i: int,
    key: IndexKey,
    change: PendingChange,
)
    requires
        a.wf(),
        b.wf(),
        0 <= i <= a.entries@.len(),
        !has_key(a.entries@, key),
        b.entries@ =~= a.entries@.insert(i, (key, change)),
    ensures
        b@ == a@.insert(key, change),
{
    let s = a.entries@;
    let t = b.entries@;
    assert(t[i].0 == key);
    lemma_key_at(t, i);
    assert forall|k: IndexKey| has_key(t, k) == (has_key(s, k) || k == key) by {
        if has_key(t, k) && k != key {
            let j = key_at(t, k);
            assert(t[j].0 == k);
            assert(s[if j < i { j } else { j - 1 }].0 == k);
        }
        if has_key(s, k) {
            let j = key_at(s, k);
            assert(s[j].0 == k);
            assert(t[if j < i { j } else { j + 1 }].0 == k);
        }
    }
    assert forall|k: IndexKey| has_key(t, k) implies #[trigger] b@[k] == a@.insert(key, change)[k] by {
        if k != key {
            let j = key_at(t, k);
            assert(t[j].0 == k);
            let j0 = if j < i { j } else { j - 1 };
            assert(s[j0] == t[j]);
            lemma_key_at(s, j0);
            lemma_key_at(t, j);
        }
    }
    assert(b@ =~= a@.insert(key, change));
}

proof fn lemma_without(a: PendingChanges, b: PendingChanges, i: int, key: IndexKey)
    requires
        a.wf(),
        b.wf(),
        0 <= i < a.entries@.len(),
        a.entries@[i].0 == key,
        b.entries@ =~= a.entries@.remove(i),
    ensures
        b@ == a@.remove(key),
{
    let s = a.entries@;
    let t = b.entries@;
    lemma_key_at(s, i);
    assert forall|k: IndexKey| has_key(t, k) == (has_key(s, k) && k != key) by {
        if has_key(t, k) {
            let j = key_at(t, k);
            assert(t[j].0 == k);
            let j0 = if j < i { j } else { j + 1 };
            assert(s[j0].0 == k);
            lemma_key_at(s, j0);
        }
        if has_key(s, k) && k != key {
            let j = key_at(s, k);
            assert(s[j].0 == k);
            let j0 = if j < i { j } else { j - 1 };
            assert(t[j0].0 == k);
        }
    }
    assert forall|k: IndexKey| has_key(t, k) implies #[trigger] b@[k] == a@.remove(key)[k] by {
        let j = key_at(t, k);
        assert(t[j].0 == k);
        let j0 = if j < i { j } else { j + 1 };
        assert(s[j0] == t[j]);
        lemma_key_at(s, j0);
        lemma_key_at(t, j);
    }
    assert(b@ =~= a@.remove(key));
}

/// A change has the value that was inserted, or the one that was accessed.
pub proof fn law_value_of_change(change: PendingChange, value: IndexValue, atime: Atime)
    ensures
        PendingChange::Insert(value).spec_value() == value,
        PendingChange::UpdateAtime(UpdateAtime(value, atime)).spec_value() == value,
        change.with_value(value).spec_value() == value,
        change.with_value(value) is Insert <==> change is Insert,
        change matches PendingChange::UpdateAtime(u) ==> change.with_value(value)
            == PendingChange::UpdateAtime(UpdateAtime(value, u.1)),
{
}

/// An insertion adds the bytes of its block to its atime. An access takes them from the atime
/// that the index has, and adds them to the new one.
pub proof fn law_net_of_change(v: IndexValue, before: Atime, t: int)
    ensures
        net_of(PendingChange::Insert(v), t) == if t == v.atime.0 {
            v.sectors * 512
        } else {
            0
        },
        net_of(PendingChange::UpdateAtime(UpdateAtime(v, before)), t) == (if t == v.atime.0 {
            v.sectors * 512
        } else {
            0
        }) - if t == before.0 {
            v.sectors * 512
        } else {
            0
        },
{
}

/// The bytes of changes are those of each.
pub proof fn law_bytes_of_changes(
    s: Seq<(IndexKey, PendingChange)>,
    p: (IndexKey, PendingChange),
    t: int,
)
    ensures
        change_bytes(s.push(p), t) == change_bytes(s, t) + match p.1 {
            PendingChange::Insert(v) => if t == v.atime.0 {
                v.sectors * 512
            } else {
                0
            },
            PendingChange::UpdateAtime(u) => if t == u.0.atime.0 {
                u.0.sectors * 512
            } else {
                0
            },
        },
        net_bytes(s.push(p), t) == net_bytes(s, t) + net_of(p.1, t),
        change_bytes(Seq::empty(), t) == 0 && net_bytes(Seq::empty(), t) == 0,
{
    assert(s.push(p).drop_last() =~= s);
}

} // verus!
