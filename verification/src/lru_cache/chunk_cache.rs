//! A cache of chunks of a log.
use super::{
    cache_cap, cached, find, lemma_find, lemma_fronted, lemma_put_front, lemma_removed, lru_get,
    lru_new, lru_push, lru_set, one_per_key, CacheKey, CacheValue,
};
use crate::block_based_log::{BlockBasedLogChunk, ChunkId};
use lru::LruCache;
use vstd::prelude::*;

verus! {

/// The chunks that were used last. The cache has the place of each in `slots`.
pub struct ChunkCache<T> {
    pub inner: LruCache<CacheKey, CacheValue>,
    pub cap: usize,
    pub slots: Vec<BlockBasedLogChunk<T>>,
}

/// Where the chunk with the id is.
pub open spec fn position<T>(s: Seq<BlockBasedLogChunk<T>>, id: ChunkId) -> Option<int> {
    if exists|i: int| 0 <= i < s.len() && (#[trigger] s[i]).id == id {
        Some(choose|i: int| 0 <= i < s.len() && (#[trigger] s[i]).id == id)
    } else {
        None
    }
}

/// What is held after a chunk has been put in the front.
pub open spec fn chunk_put<T>(
    s: Seq<BlockBasedLogChunk<T>>,
    cap: nat,
    chunk: BlockBasedLogChunk<T>,
) -> Seq<BlockBasedLogChunk<T>> {
    match position(s, chunk.id) {
        Some(i) => seq![chunk] + s.remove(i),
        None => if cap == 0 {
            s
        } else if s.len() == cap {
            seq![chunk] + s.drop_last()
        } else {
            seq![chunk] + s
        },
    }
}

spec fn chunk_key(id: ChunkId) -> CacheKey {
    (0, id.0)
}

impl<T> ChunkCache<T> {
    /// The chunks in order of their last use; what was used last comes first.
    pub open spec fn held(&self) -> Seq<BlockBasedLogChunk<T>> {
        Seq::new(
            cached(self.inner).len(),
            |i: int| self.slots@[cached(self.inner)[i].1.0 as int],
        )
    }

    pub open spec fn wf(&self) -> bool {
        let s = cached(self.inner);
        &&& one_per_key(s)
        &&& cache_cap(self.inner) == self.cap
        &&& s.len() <= self.cap <= usize::MAX / 256
        &&& self.slots@.len() == s.len()
        &&& forall|i: int|
            0 <= i < s.len() ==> (#[trigger] s[i]).1.0 < self.slots@.len() && s[i].0 == (
                0u8,
                self.slots@[s[i].1.0 as int].id.0,
            )
        &&& forall|i: int, j: int|
            0 <= i < j < s.len() ==> (#[trigger] s[i]).1.0 != (#[trigger] s[j]).1.0
    }

    pub fn new(cap: usize) -> (r: Self)
        requires
            cap <= usize::MAX / 256,
        ensures
            r.wf(),
            r.cap == cap,
            r.held().len() == 0,
    {
        ChunkCache { inner: lru_new(cap), cap, slots: Vec::new() }
    }

    proof fn lemma_position(&self, id: ChunkId)
        requires
            self.wf(),
        ensures
            position(self.held(), id) == find(cached(self.inner), chunk_key(id)),
    {
        let s = cached(self.inner);
        let h = self.held();
        let k = chunk_key(id);
        if let Some(i) = find(s, k) {
            assert(s[i].0 == k);
            assert(h[i].id == id);
            let j = position(h, id)->0;
            assert(h[j].id == id);
            assert(s[j].0 == k);
            lemma_find(s, j);
        } else if let Some(j) = position(h, id) {
            assert(h[j].id == id);
            assert(s[j].0 == k);
        }
    }

    /// The place of a chunk in `slots`. The chunk is now the one that was used last.
    pub fn get(&mut self, id: ChunkId) -> (r: Option<usize>)
        requires
            old(self).wf(),
        ensures
            final(self).wf(),
            final(self).cap == old(self).cap,
            final(self).slots == old(self).slots,
            match position(old(self).held(), id) {
                Some(i) => {
                    &&& r matches Some(slot)
                    &&& slot < old(self).slots@.len()
                    &&& old(self).slots@[slot as int] == old(self).held()[i]
                    &&& old(self).held()[i].id == id
                    &&& final(self).held() == seq![old(self).held()[i]] + old(self).held().remove(i)
                },
                None => r is None && final(self).held() == old(self).held(),
            },
    {
        let ghost s = cached(self.inner);
        let ghost h = self.held();
        proof {
            self.lemma_position(id);
            if let Some(i) = find(s, chunk_key(id)) {
                assert(s[i].0 == chunk_key(id));
                lemma_removed(s, i);
                lemma_fronted(s.remove(i), s[i]);
            }
        }
        match lru_get(&mut self.inner, (0, id.0)) {
            Some(v) => {
                proof {
                    let i = find(s, chunk_key(id))->0;
                    assert(s[i].0 == chunk_key(id));
                    self.lemma_fronted_wf(s, i, v.0 as int);
                    assert(self.held() =~= seq![h[i]] + h.remove(i));
                }
                Some(v.0 as usize)
            },
            None => {
                proof {
                    assert(self.held() =~= h);
                }
                None
            },
        }
    }

    proof fn lemma_fronted_wf(&self, s: Seq<(CacheKey, CacheValue)>, i: int, slot: int)
        requires
            0 <= i < s.len(),
            slot == s[i].1.0,
            cached(self.inner) == seq![s[i]] + s.remove(i),
            forall|x: int, y: int|
                0 <= x < y < s.len() ==> (#[trigger] s[x]).1.0 != (#[trigger] s[y]).1.0,
            forall|x: int|
                0 <= x < s.len() ==> (#[trigger] s[x]).1.0 < self.slots@.len() && s[x].0 == (
                    0u8,
                    self.slots@[s[x].1.0 as int].id.0,
                ),
        ensures
            ({
                let t = cached(self.inner);
                &&& forall|x: int, y: int|
                    0 <= x < y < t.len() ==> (#[trigger] t[x]).1.0 != (#[trigger] t[y]).1.0
                &&& forall|x: int|
                    0 <= x < t.len() ==> (#[trigger] t[x]).1.0 < self.slots@.len() && t[x].0 == (
                        0u8,
                        self.slots@[t[x].1.0 as int].id.0,
                    )
            }),
    {
        let t = cached(self.inner);
        assert forall|x: int| 0 < x < t.len() implies #[trigger] t[x] == s[if x - 1 < i {
            x - 1
        } else {
            x
        }] by {}
        assert(t[0] == s[i]);
        assert forall|x: int, y: int| 0 <= x < y < t.len() implies (#[trigger] t[x]).1.0 != (
        #[trigger] t[y]).1.0 by {
            let x0 = if x == 0 {
                i
            } else if x - 1 < i {
                x - 1
            } else {
                x
            };
            let y0 = if y - 1 < i {
                y - 1
            } else {
                y
            };
            assert(t[x] == s[x0]);
            assert(t[y] == s[y0]);
            if x0 < y0 {
                assert(s[x0].1.0 != s[y0].1.0);
            } else {
                assert(s[y0].1.0 != s[x0].1.0);
            }
        }
    }

    /// Adds a chunk, or replaces the one with its id.
    #[verifier::rlimit(40)]
    pub fn put(&mut self, chunk: BlockBasedLogChunk<T>)
        requires
            old(self).wf(),
        ensures
            final(self).wf(),
            final(self).cap == old(self).cap,
            final(self).held() == chunk_put(old(self).held(), old(self).cap as nat, chunk),
    {
        let ghost s = cached(self.inner);
        let ghost h = self.held();
        let ghost old_slots = self.slots@;
        let ghost k = chunk_key(chunk.id);
        let fresh: CacheValue = (self.slots.len() as u64, 0, 0);
        proof {
            self.lemma_position(chunk.id);
            lemma_put_front(s, self.cap as nat, k, fresh);
        }
        let key: CacheKey = (0, chunk.id.0);
        match lru_push(&mut self.inner, key, fresh) {
            Some((_, v)) => {
                let ghost t = cached(self.inner);
                let ghost i = match find(s, k) {
                    Some(i) => i,
                    None => s.len() - 1,
                };
                proof {
                    if find(s, k) is Some {
                        assert(s[i].0 == k);
                    }
                    assert(v == s[i].1);
                    assert(s.drop_last() =~= s.remove(s.len() - 1));
                    assert(t == seq![(k, fresh)] + s.remove(i));
                    assert(t[0] == (k, fresh));
                    lemma_find(t, 0);
                }
                lru_set(&mut self.inner, key, (v.0, 0, 0));
                let ghost u = cached(self.inner);
                let slot: usize = v.0 as usize;
                proof {
                    assert(u =~= seq![(k, (v.0, 0u16, 0u32))] + s.remove(i));
                    assert(s.remove(i).len() == s.len() - 1);
                }
                self.slots[slot] = chunk;
                proof {
                    assert forall|x: int| 0 < x < u.len() implies #[trigger] u[x] == s[if x - 1
                        < i {
                        x - 1
                    } else {
                        x
                    }] by {}
                    assert(u[0] == (k, (v.0, 0u16, 0u32)));
                    assert(one_per_key(u)) by {
                        assert forall|x: int, y: int| 0 <= x < y < u.len() implies (
                        #[trigger] u[x]).0 != (#[trigger] u[y]).0 by {
                            assert(t[x].0 == u[x].0);
                            assert(t[y].0 == u[y].0);
                        }
                    }
                    assert forall|x: int, y: int| 0 <= x < y < u.len() implies (
                    #[trigger] u[x]).1.0 != (#[trigger] u[y]).1.0 by {
                        let x0 = if x == 0 {
                            i
                        } else if x - 1 < i {
                            x - 1
                        } else {
                            x
                        };
                        let y0 = if y - 1 < i {
                            y - 1
                        } else {
                            y
                        };
                        assert(u[x].1.0 == s[x0].1.0);
                        assert(u[y] == s[y0]);
                        if x0 < y0 {
                            assert(s[x0].1.0 != s[y0].1.0);
                        } else {
                            assert(s[y0].1.0 != s[x0].1.0);
                        }
                    }
                    assert forall|x: int| 0 < x < u.len() implies self.slots@[(
                    #[trigger] u[x]).1.0 as int] == old_slots[u[x].1.0 as int] by {
                        assert(u[0].1.0 != u[x].1.0);
                    }
                    assert(self.held() =~= seq![chunk] + h.remove(i));
                    assert(h.drop_last() =~= h.remove(h.len() - 1));
                }
            },
            None => {
                let ghost t = cached(self.inner);
                if self.cap > 0 {
                    self.slots.push(chunk);
                    proof {
                        assert(t =~= seq![(k, fresh)] + s);
                        assert forall|x: int| 0 < x < t.len() implies #[trigger] t[x] == s[x
                            - 1] by {}
                        assert(self.held() =~= seq![chunk] + h);
                    }
                } else {
                    assert(self.held() =~= h);
                }
            },
        }
    }
}

/// Whether the cached chunks are those of the log.
pub open spec fn cache_true<T>(held: Seq<BlockBasedLogChunk<T>>, log: Seq<Seq<T>>) -> bool {
    forall|i: int|
        0 <= i < held.len() ==> (#[trigger] held[i]).id.0 < log.len() && held[i].entries@
            == log[held[i].id.0 as int]
}

/// The cache holds chunks of the log only: a chunk that was read keeps it true, as does one that
/// is used again and a log that grows.
pub proof fn law_cache_stays_true<T>(
    held: Seq<BlockBasedLogChunk<T>>,
    log: Seq<Seq<T>>,
    more: Seq<Seq<T>>,
    cap: nat,
    chunk: BlockBasedLogChunk<T>,
    i: int,
)
    requires
        cache_true(held, log),
        chunk.id.0 < log.len(),
        chunk.entries@ == log[chunk.id.0 as int],
    ensures
        cache_true(chunk_put(held, cap, chunk), log),
        0 <= i < held.len() ==> cache_true(seq![held[i]] + held.remove(i), log),
        cache_true(held, log + more),
{
    let put = chunk_put(held, cap, chunk);
    assert forall|x: int| 0 <= x < put.len() implies (#[trigger] put[x]).id.0 < log.len()
        && put[x].entries@ == log[put[x].id.0 as int] by {
        match position(held, chunk.id) {
            Some(p) => {
                if x > 0 {
                    let x0 = if x - 1 < p {
                        x - 1
                    } else {
                        x
                    };
                    assert(held[p].id == chunk.id);
                    assert(put[x] == held[x0]);
                }
            },
            None => {
                if cap == 0 {
                    assert(put[x] == held[x]);
                } else if x > 0 {
                    assert(put[x] == held[x - 1]);
                }
            },
        }
    }
    if 0 <= i < held.len() {
        let t = seq![held[i]] + held.remove(i);
        assert forall|x: int| 0 <= x < t.len() implies (#[trigger] t[x]).id.0 < log.len()
            && t[x].entries@ == log[t[x].id.0 as int] by {
            let x0 = if x == 0 {
                i
            } else if x - 1 < i {
                x - 1
            } else {
                x
            };
            assert(t[x] == held[x0]);
        }
    }
}

/// A chunk that is put is the one that was used last. What was held of another one stays, unless
/// it is the last one and there is no room.
pub proof fn law_put_chunk_is_held<T>(
    held: Seq<BlockBasedLogChunk<T>>,
    cap: nat,
    chunk: BlockBasedLogChunk<T>,
    i: int,
)
    requires
        held.len() <= cap,
        cap > 0,
        forall|i: int, j: int|
            0 <= i < j < held.len() ==> (#[trigger] held[i]).id != (#[trigger] held[j]).id,
    ensures
        chunk_put(held, cap, chunk).len() > 0,
        chunk_put(held, cap, chunk)[0] == chunk,
        chunk_put(held, cap, chunk).len() <= cap,
        0 <= i < held.len() && held[i].id != chunk.id && i + 1 < cap ==> chunk_put(
            held,
            cap,
            chunk,
        ).contains(held[i]),
        forall|j: int|
            0 < j < chunk_put(held, cap, chunk).len() ==> held.contains(
                #[trigger] chunk_put(held, cap, chunk)[j],
            ),
{
    let t = chunk_put(held, cap, chunk);
    match position(held, chunk.id) {
        Some(p) => {
            assert(0 <= p < held.len() && held[p].id == chunk.id);
            if 0 <= i < held.len() && held[i].id != chunk.id {
                if i < p {
                    assert(t[i + 1] == held[i]);
                } else {
                    assert(t[i] == held[i]);
                }
            }
            assert forall|j: int| 0 < j < t.len() implies held.contains(#[trigger] t[j]) by {
                if j - 1 < p {
                    assert(t[j] == held[j - 1]);
                } else {
                    assert(t[j] == held[j]);
                }
            }
        },
        None => {
            if 0 <= i < held.len() && i + 1 < cap {
                assert(t[i + 1] == held[i]);
            }
            assert forall|j: int| 0 < j < t.len() implies held.contains(#[trigger] t[j]) by {
                assert(t[j] == held[j - 1]);
            }
        },
    }
}

} // verus!
