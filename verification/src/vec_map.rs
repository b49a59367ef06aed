//! A map from small integers, kept as a vector.
use vstd::prelude::*;

verus! {

pub struct VecMap<V> {
    pub entries: Vec<Option<V>>,
}

impl<V> View for VecMap<V> {
    type V = Map<int, V>;

    open spec fn view(&self) -> Map<int, V> {
        Map::new(
            |k: int| 0 <= k < self.entries@.len() && self.entries@[k] is Some,
            |k: int| self.entries@[k]->0,
        )
    }
}

impl<V> VecMap<V> {
    pub fn new() -> (r: Self)
        ensures
            r@ == Map::<int, V>::empty(),
    {
        let r = VecMap { entries: Vec::new() };
        assert(r@ =~= Map::<int, V>::empty());
        r
    }

    pub fn contains_key(&self, key: usize) -> (r: bool)
        ensures
            r == self@.contains_key(key as int),
    {
        key < self.entries.len() && self.entries[key].is_some()
    }

    pub fn get(&self, key: usize) -> (r: Option<&V>)
        ensures
            match r {
                Some(v) => self@.contains_key(key as int) && *v == self@[key as int],
                None => !self@.contains_key(key as int),
            },
    {
        if key < self.entries.len() {
            self.entries[key].as_ref()
        } else {
            None
        }
    }

    /// Maps `key` to `value`; returns what it was mapped to before.
    pub fn insert(&mut self, key: usize, value: V) -> (r: Option<V>)
        requires
            key < usize::MAX,
        ensures
            final(self)@ == old(self)@.insert(key as int, value),
            match r {
                Some(v) => old(self)@.contains_key(key as int) && v == old(self)@[key as int],
                None => !old(self)@.contains_key(key as int),
            },
    {
        let ghost m0 = self@;
        while self.entries.len() <= key
            invariant
                self@ == m0,
                key < usize::MAX,
            decreases key + 1 - self.entries@.len(),
        {
            self.entries.push(None);
            assert(self@ =~= m0);
        }
        let ghost e0 = self.entries@;
        let mut value: Option<V> = Some(value);
        let ghost v0 = value->0;
        std::mem::swap(&mut self.entries[key], &mut value);
        proof {
            assert(self.entries@ =~= e0.update(key as int, Some(v0)));
            assert(self@ =~= m0.insert(key as int, v0));
        }
        value
    }

    /// Forgets `key`; returns what it was mapped to.
    pub fn remove(&mut self, key: usize) -> (r: Option<V>)
        ensures
            final(self)@ == old(self)@.remove(key as int),
            match r {
                Some(v) => old(self)@.contains_key(key as int) && v == old(self)@[key as int],
                None => !old(self)@.contains_key(key as int),
            },
    {
        let ghost m0 = self@;
        if key < self.entries.len() {
            let ghost e0 = self.entries@;
            let mut value: Option<V> = None;
            std::mem::swap(&mut self.entries[key], &mut value);
            proof {
                assert(self.entries@ =~= e0.update(key as int, None));
                assert(self@ =~= m0.remove(key as int));
            }
            value
        } else {
            assert(self@ =~= m0.remove(key as int));
            None
        }
    }

    /// The keys in ascending order.
    pub fn keys(&self) -> (r: Vec<usize>)
        ensures
            forall|i: int, j: int| 0 <= i < j < r@.len() ==> r@[i] < r@[j],
            forall|i: int| 0 <= i < r@.len() ==> self@.contains_key(#[trigger] r@[i] as int),
            forall|k: int|
                self@.contains_key(k) ==> exists|i: int| 0 <= i < r@.len() && r@[i] == k,
    {
        let mut r: Vec<usize> = Vec::new();
        let mut k: usize = 0;
        while k < self.entries.len()
            invariant
                k <= self.entries@.len(),
                forall|i: int, j: int| 0 <= i < j < r@.len() ==> r@[i] < r@[j],
                forall|i: int|
                    0 <= i < r@.len() ==> r@[i] < k && self@.contains_key(#[trigger] r@[i] as int),
                forall|x: int|
                    0 <= x < k && self@.contains_key(x) ==> exists|i: int|
                        0 <= i < r@.len() && r@[i] == x,
            decreases self.entries@.len() - k,
        {
            let ghost r0 = r@;
            if self.entries[k].is_some() {
                r.push(k);
            }
            k += 1;
            proof {
                assert forall|x: int| 0 <= x < k && self@.contains_key(x) implies exists|i: int|
                    0 <= i < r@.len() && r@[i] == x by {
                    if x < k - 1 {
                        let i = choose|i: int| 0 <= i < r0.len() && r0[i] == x;
                        assert(r@[i] == x);
                    } else {
                        assert(r@[r@.len() - 1] == x);
                    }
                }
            }
        }
        r
    }
}

} // verus!
