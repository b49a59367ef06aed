//! Caches of bounded size that drop what was used the longest ago.
use crate::base_types::{Atime, DiskLocation};
use crate::index::{IndexKey, IndexValue};
use lru::LruCache;
use vstd::prelude::*;

pub mod chunk_cache;

verus! {

/// The hasher of the cache of the `lru` crate.
#[verifier::external_type_specification]
#[verifier::external_body]
pub struct ExDefaultHasher(lru::DefaultHasher);

/// The cache of the `lru` crate.
#[verifier::external_type_specification]
#[verifier::external_body]
#[verifier::reject_recursive_types(K)]
#[verifier::reject_recursive_types(V)]
#[verifier::reject_recursive_types(S)]
pub struct ExLruCache<K, V, S>(lru::LruCache<K, V, S>);

/// A key of a cache.
pub type CacheKey = (u8, u64);

/// A value in a cache.
pub type CacheValue = (u64, u16, u32);

/// What a cache holds, in order of the last use; what was used last comes first.
pub uninterp spec fn cached(c: LruCache<CacheKey, CacheValue>) -> Seq<(CacheKey, CacheValue)>;

/// How much a cache can hold.
pub uninterp spec fn cache_cap(c: LruCache<CacheKey, CacheValue>) -> nat;

/// Where the key is.
pub open spec fn find(s: Seq<(CacheKey, CacheValue)>, k: CacheKey) -> Option<int> {
    if exists|i: int| 0 <= i < s.len() && (#[trigger] s[i]).0 == k {
        Some(choose|i: int| 0 <= i < s.len() && (#[trigger] s[i]).0 == k)
    } else {
        None
    }
}

/// No key occurs twice.
pub open spec fn one_per_key(s: Seq<(CacheKey, CacheValue)>) -> bool {
    forall|i: int, j: int|
        0 <= i < j < s.len() ==> (#[trigger] s[i]).0 != (#[trigger] s[j]).0
}

/// What is held after a pair has been put in the front.
pub open spec fn put_front(
    s: Seq<(CacheKey, CacheValue)>,
    cap: nat,
    k: CacheKey,
    v: CacheValue,
) -> Seq<(CacheKey, CacheValue)> {
    match find(s, k) {
        Some(i) => seq![(k, v)] + s.remove(i),
        None => if cap == 0 {
            s
        } else if s.len() == cap {
            seq![(k, v)] + s.drop_last()
        } else {
            seq![(k, v)] + s
        },
    }
}

/// `LruCache::new`: the cache is empty.
#[verifier::external_body]
fn lru_new(cap: usize) -> (r: LruCache<CacheKey, CacheValue>)
    requires
        cap <= usize::MAX / 256,
    ensures
        cached(r) == Seq::<(CacheKey, CacheValue)>::empty(),
        cache_cap(r) == cap,
{
    LruCache::new(cap)
}

/// `LruCache::get`: the value of the key, which becomes the one that was used last.
#[verifier::external_body]
fn lru_get(c: &mut LruCache<CacheKey, CacheValue>, k: CacheKey) -> (r: Option<CacheValue>)
    requires
        one_per_key(cached(*old(c))),
    ensures
        cache_cap(*final(c)) == cache_cap(*old(c)),
        match find(cached(*old(c)), k) {
            Some(i) => {
                &&& r == Some(cached(*old(c))[i].1)
                &&& cached(*final(c)) == seq![cached(*old(c))[i]] + cached(*old(c)).remove(i)
            },
            None => r is None && cached(*final(c)) == cached(*old(c)),
        },
{
    c.get(&k).copied()
}

/// `LruCache::push`: the pair becomes the one that was used last. A pair with the same key is
/// replaced; else, if the cache is full, the one that was used the longest ago is dropped. The
/// pair that is gone is returned. A cache for nothing stays as it is.
#[verifier::external_body]
fn lru_push(c: &mut LruCache<CacheKey, CacheValue>, k: CacheKey, v: CacheValue) -> (r: Option<
    (CacheKey, CacheValue),
>)
    requires
        one_per_key(cached(*old(c))),
        cached(*old(c)).len() <= cache_cap(*old(c)),
    ensures
        cache_cap(*final(c)) == cache_cap(*old(c)),
        cached(*final(c)) == put_front(cached(*old(c)), cache_cap(*old(c)), k, v),
        r == match find(cached(*old(c)), k) {
            Some(i) => Some(cached(*old(c))[i]),
            None => if cache_cap(*old(c)) > 0 && cached(*old(c)).len() == cache_cap(*old(c)) {
                Some(cached(*old(c)).last())
            } else {
                None
            },
        },
{
    c.push(k, v)
}

/// `LruCache::pop`: the pair with the key is taken out.
#[verifier::external_body]
fn lru_pop(c: &mut LruCache<CacheKey, CacheValue>, k: CacheKey) -> (r: Option<CacheValue>)
    requires
        one_per_key(cached(*old(c))),
    ensures
        cache_cap(*final(c)) == cache_cap(*old(c)),
        match find(cached(*old(c)), k) {
            Some(i) => {
                &&& r == Some(cached(*old(c))[i].1)
                &&& cached(*final(c)) == cached(*old(c)).remove(i)
            },
            None => r is None && cached(*final(c)) == cached(*old(c)),
        },
{
    c.pop(&k)
}

/// `LruCache::peek`: the value of the key.
#[verifier::external_body]
fn lru_peek(c: &LruCache<CacheKey, CacheValue>, k: CacheKey) -> (r: Option<CacheValue>)
    requires
        one_per_key(cached(*c)),
    ensures
        match find(cached(*c), k) {
            Some(i) => r == Some(cached(*c)[i].1),
            None => r is None,
        },
{
    c.peek(&k).copied()
}

/// `LruCache::peek_mut`: the value of the key is replaced in its place.
#[verifier::external_body]
fn lru_set(c: &mut LruCache<CacheKey, CacheValue>, k: CacheKey, v: CacheValue)
    requires
        one_per_key(cached(*old(c))),
    ensures
        cache_cap(*final(c)) == cache_cap(*old(c)),
        cached(*final(c)) == match find(cached(*old(c)), k) {
            Some(i) => cached(*old(c)).update(i, (k, v)),
            None => cached(*old(c)),
        },
{
    if let Some(value) = c.peek_mut(&k) {
        *value = v;
    }
}

/// The place of a key that is there is the only one.
pub proof fn lemma_find(s: Seq<(CacheKey, CacheValue)>, i: int)
    requires
        one_per_key(s),
        0 <= i < s.len(),
    ensures
        find(s, s[i].0) == Some(i),
{
    let k = s[i].0;
    let j = choose|j: int| 0 <= j < s.len() && (#[trigger] s[j]).0 == k;
    assert(s[j].0 == k);
    if i < j {
        assert(s[i].0 != s[j].0);
    } else if j < i {
        assert(s[j].0 != s[i].0);
    }
}

proof fn lemma_removed(s: Seq<(CacheKey, CacheValue)>, i: int)
    requires
        one_per_key(s),
        0 <= i < s.len(),
    ensures
        one_per_key(s.remove(i)),
        forall|j: int| 0 <= j < s.remove(i).len() ==> (#[trigger] s.remove(i)[j]).0 != s[i].0,
{
    let t = s.remove(i);
    assert forall|x: int| 0 <= x < t.len() implies #[trigger] t[x] == s[if x < i {
        x
    } else {
        x + 1
    }] by {}
    assert forall|x: int, y: int| 0 <= x < y < t.len() implies (#[trigger] t[x]).0 != (
    #[trigger] t[y]).0 by {
        let x0 = if x < i {
            x
        } else {
            x + 1
        };
        let y0 = if y < i {
            y
        } else {
            y + 1
        };
        assert(s[x0].0 != s[y0].0);
    }
    assert forall|x: int| 0 <= x < t.len() implies (#[trigger] t[x]).0 != s[i].0 by {
        if x < i {
            assert(s[x].0 != s[i].0);
        } else {
            assert(s[i].0 != s[x + 1].0);
        }
    }
}

proof fn lemma_fronted(s: Seq<(CacheKey, CacheValue)>, p: (CacheKey, CacheValue))
    requires
        one_per_key(s),
        forall|j: int| 0 <= j < s.len() ==> (#[trigger] s[j]).0 != p.0,
    ensures
        one_per_key(seq![p] + s),
{
    let t = seq![p] + s;
    assert forall|x: int, y: int| 0 <= x < y < t.len() implies (#[trigger] t[x]).0 != (
    #[trigger] t[y]).0 by {
        assert(t[y] == s[y - 1]);
        if x > 0 {
            assert(t[x] == s[x - 1]);
        }
    }
}

/// After a pair has been put in the front no key occurs twice, and there is not too much.
proof fn lemma_put_front(s: Seq<(CacheKey, CacheValue)>, cap: nat, k: CacheKey, v: CacheValue)
    requires
        one_per_key(s),
        s.len() <= cap,
    ensures
        one_per_key(put_front(s, cap, k, v)),
        put_front(s, cap, k, v).len() <= cap,
{
    match find(s, k) {
        Some(i) => {
            assert(s[i].0 == k);
            lemma_removed(s, i);
            lemma_fronted(s.remove(i), (k, v));
        },
        None => {
            assert(forall|j: int| 0 <= j < s.len() ==> (#[trigger] s[j]).0 != k);
            if cap > 0 {
                if s.len() == cap {
                    let t = s.drop_last();
                    assert(one_per_key(t)) by {
                        assert forall|x: int, y: int| 0 <= x < y < t.len() implies (
                        #[trigger] t[x]).0 != (#[trigger] t[y]).0 by {
                            assert(s[x].0 != s[y].0);
                        }
                    }
                    assert(forall|j: int| 0 <= j < t.len() ==> (#[trigger] t[j]) == s[j]);
                    lemma_fronted(t, (k, v));
                } else {
                    lemma_fronted(s, (k, v));
                }
            }
        },
    }
}

pub open spec fn cache_key(k: IndexKey) -> CacheKey {
    (k.id.0, k.block.0)
}

pub open spec fn cache_value(v: IndexValue) -> CacheValue {
    (
        match v.location {
            Some(location) => location.raw,
            None => 0,
        },
        v.sectors,
        v.atime.0,
    )
}

pub open spec fn index_value(v: CacheValue) -> IndexValue {
    IndexValue {
        location: if v.0 == 0 {
            None
        } else {
            Some(DiskLocation { raw: v.0 })
        },
        sectors: v.1,
        atime: Atime(v.2),
    }
}

fn to_cache_value(v: IndexValue) -> (r: CacheValue)
    ensures
        r == cache_value(v),
{
    let raw: u64 = match v.location {
        Some(location) => location.raw,
        None => 0,
    };
    (raw, v.sectors, v.atime.0)
}

fn to_index_value(v: CacheValue) -> (r: IndexValue)
    ensures
        r == index_value(v),
{
    let location = if v.0 == 0 {
        None
    } else {
        Some(DiskLocation { raw: v.0 })
    };
    IndexValue { location, sectors: v.1, atime: Atime(v.2) }
}

/// A value comes out as it went in. A location is never zero.
pub proof fn law_cache_value(v: IndexValue)
    requires
        v.location matches Some(location) ==> location.raw != 0,
    ensures
        index_value(cache_value(v)) == v,
{
}

/// Entries of the index that were used lately.
pub struct IndexCache {
    pub inner: LruCache<CacheKey, CacheValue>,
}

impl View for IndexCache {
    type V = Seq<(CacheKey, CacheValue)>;

    open spec fn view(&self) -> Seq<(CacheKey, CacheValue)> {
        cached(self.inner)
    }
}

impl IndexCache {
    pub open spec fn wf(&self) -> bool {
        &&& one_per_key(self@)
        &&& self@.len() <= self.cap()
    }

    pub open spec fn cap(&self) -> nat {
        cache_cap(self.inner)
    }

    /// The value of a key.
    pub open spec fn value(&self, key: IndexKey) -> Option<IndexValue> {
        match find(self@, cache_key(key)) {
            Some(i) => Some(index_value(self@[i].1)),
            None => None,
        }
    }

    /// A cache for `cap` entries.
    pub fn new(cap: usize) -> (r: IndexCache)
        requires
            cap <= usize::MAX / 256,
        ensures
            r.wf(),
            r.cap() == cap,
            r@.len() == 0,
    {
        IndexCache { inner: lru_new(cap) }
    }

    /// The value of a key, which is now the one that was used last.
    pub fn get(&mut self, key: IndexKey) -> (r: Option<IndexValue>)
        requires
            old(self).wf(),
        ensures
            final(self).wf(),
            final(self).cap() == old(self).cap(),
            r == old(self).value(key),
            final(self)@ == match find(old(self)@, cache_key(key)) {
                Some(i) => seq![old(self)@[i]] + old(self)@.remove(i),
                None => old(self)@,
            },
    {
        proof {
            if let Some(i) = find(self@, cache_key(key)) {
                lemma_removed(self@, i);
                lemma_fronted(self@.remove(i), self@[i]);
            }
        }
        match lru_get(&mut self.inner, (key.id.0, key.block.0)) {
            Some(v) => Some(to_index_value(v)),
            None => None,
        }
    }

    /// Adds an entry, or replaces the value of a key.
    pub fn put(&mut self, key: IndexKey, value: IndexValue)
        requires
            old(self).wf(),
        ensures
            final(self).wf(),
            final(self).cap() == old(self).cap(),
            final(self)@ == put_front(
                old(self)@,
                old(self).cap(),
                cache_key(key),
                cache_value(value),
            ),
    {
        proof {
            lemma_put_front(self@, self.cap(), cache_key(key), cache_value(value));
        }
        let _ = lru_push(&mut self.inner, (key.id.0, key.block.0), to_cache_value(value));
    }

    /// Forgets an entry.
    pub fn pop(&mut self, key: IndexKey)
        requires
            old(self).wf(),
        ensures
            final(self).wf(),
            final(self).cap() == old(self).cap(),
            final(self)@ == match find(old(self)@, cache_key(key)) {
                Some(i) => old(self)@.remove(i),
                None => old(self)@,
            },
    {
        proof {
            if let Some(i) = find(self@, cache_key(key)) {
                lemma_removed(self@, i);
            }
        }
        let _ = lru_pop(&mut self.inner, (key.id.0, key.block.0));
    }

    /// Changes the location of an entry that is there, which counts as no use.
    pub fn set_location(&mut self, key: IndexKey, location: DiskLocation)
        requires
            old(self).wf(),
        ensures
            final(self).wf(),
            final(self).cap() == old(self).cap(),
            final(self)@ == match find(old(self)@, cache_key(key)) {
                Some(i) => old(self)@.update(
                    i,
                    (
                        cache_key(key),
                        (location.raw, old(self)@[i].1.1, old(self)@[i].1.2),
                    ),
                ),
                None => old(self)@,
            },
    {
        let k = (key.id.0, key.block.0);
        let ghost s = self@;
        if let Some(v) = lru_peek(&self.inner, k) {
            lru_set(&mut self.inner, k, (location.raw, v.1, v.2));
            proof {
                let i = find(s, k)->0;
                assert(s[i].0 == k);
                let t = self@;
                assert forall|x: int, y: int| 0 <= x < y < t.len() implies (#[trigger] t[x]).0 != (
                #[trigger] t[y]).0 by {
                    assert(s[x].0 != s[y].0);
                }
            }
        }
    }
}

/// What was put last is found, unless the cache is for nothing.
pub proof fn law_put_is_found(
    s: Seq<(CacheKey, CacheValue)>,
    cap: nat,
    k: CacheKey,
    v: CacheValue,
)
    requires
        one_per_key(s),
        s.len() <= cap,
        cap > 0,
    ensures
        find(put_front(s, cap, k, v), k) == Some(0int),
        put_front(s, cap, k, v)[0] == (k, v),
{
    lemma_put_front(s, cap, k, v);
    let t = put_front(s, cap, k, v);
    assert(t[0] == (k, v));
    lemma_find(t, 0);
}

} // verus!
