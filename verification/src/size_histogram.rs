//! Cache hits, by the size that the cache would need to have had for them.
use std::time::SystemTime;
use vstd::prelude::*;

verus! {

/// `std::time::SystemTime`, a reading of the system's clock.
#[verifier::external_type_specification]
#[verifier::external_body]
pub struct ExSystemTime(SystemTime);

/// `std::time::SystemTime::now`: the current time. Nothing is promised of it.
#[verifier::external_body]
fn system_time_now() -> SystemTime {
    SystemTime::now()
}

pub struct SizeHistogramPhys {
    pub start: SystemTime,
    pub lookups: u64,
    pub cache_capacity: u64,
    pub meta_overhead: u64,
    pub bucket_size: u64,
    pub live_histogram: Vec<u64>,
    pub ghost_histogram: Vec<u64>,
}

/// A histogram with one more hit in bucket `index`, or as it is if it has no such bucket.
pub open spec fn counted(histogram: Seq<u64>, index: int) -> Seq<u64> {
    if 0 <= index < histogram.len() {
        histogram.update(index, (histogram[index] + 1) as u64)
    } else {
        histogram
    }
}

impl SizeHistogramPhys {
    /// The bucket of a hit: the metadata takes up space beside the data.
    pub open spec fn bucket_of(&self, size_at_hit: u64) -> int {
        (size_at_hit as int + self.meta_overhead as int) / self.bucket_size as int
    }

    /// The histogram range is the sum of the physical cache capacity (cache_capacity)
    /// plus the additional capacity being tracked for cache ghost hits.
    pub fn new(
        histogram_range: u64,
        cache_capacity: u64,
        meta_overhead: u64,
        quantiles: usize,
    ) -> (r: Self)
        ensures
            r.lookups == 0,
            r.cache_capacity == cache_capacity,
            r.meta_overhead == meta_overhead,
            r.bucket_size == if quantiles == 0 {
                0
            } else {
                histogram_range as int / quantiles as int
            },
            r.live_histogram@ == Seq::new(quantiles as nat, |i: int| 0u64),
            r.ghost_histogram@ == Seq::new(quantiles as nat, |i: int| 0u64),
    {
        Self::new_at(system_time_now(), histogram_range, cache_capacity, meta_overhead, quantiles)
    }

    /// An empty histogram that was started at a given time.
    pub fn new_at(
        start: SystemTime,
        histogram_range: u64,
        cache_capacity: u64,
        meta_overhead: u64,
        quantiles: usize,
    ) -> (r: Self)
        ensures
            r.start == start,
            r.lookups == 0,
            r.cache_capacity == cache_capacity,
            r.meta_overhead == meta_overhead,
            r.bucket_size == if quantiles == 0 {
                0
            } else {
                histogram_range as int / quantiles as int
            },
            r.live_histogram@ == Seq::new(quantiles as nat, |i: int| 0u64),
            r.ghost_histogram@ == Seq::new(quantiles as nat, |i: int| 0u64),
    {
        let r = SizeHistogramPhys {
            start,
            lookups: 0,
            cache_capacity,
            meta_overhead,
            bucket_size: if quantiles == 0 {
                0
            } else {
                histogram_range / quantiles as u64
            },
            live_histogram: vec![0; quantiles],
            ghost_histogram: vec![0; quantiles],
        };
        assert(r.live_histogram@ =~= Seq::new(quantiles as nat, |i: int| 0u64));
        assert(r.ghost_histogram@ =~= Seq::new(quantiles as nat, |i: int| 0u64));
        r
    }

    /// Records a "hit" in the appropriate size bucket (taking into account the cache metadata
    /// overhead).
    pub fn live_hit(&mut self, size_at_hit: u64)
        requires
            old(self).bucket_size > 0,
            size_at_hit + old(self).meta_overhead <= u64::MAX,
            ({
                let b = old(self).bucket_of(size_at_hit);
                b < old(self).live_histogram@.len() ==> old(self).live_histogram@[b] < u64::MAX
            }),
        ensures
            final(self).live_histogram@ == counted(
                old(self).live_histogram@,
                old(self).bucket_of(size_at_hit),
            ),
            final(self).ghost_histogram == old(self).ghost_histogram,
            final(self).start == old(self).start,
            final(self).lookups == old(self).lookups,
            final(self).cache_capacity == old(self).cache_capacity,
            final(self).meta_overhead == old(self).meta_overhead,
            final(self).bucket_size == old(self).bucket_size,
    {
        let index: u64 = (size_at_hit + self.meta_overhead) / self.bucket_size;
        // The histogram may not be large enough if we've expanded the capacity
        // since the histogram was created (e.g. by adding disks).
        if index < self.live_histogram.len() as u64 {
            let i: usize = index as usize;
            let count: u64 = self.live_histogram[i];
            self.live_histogram.set(i, count + 1);
        }
    }

    /// Records a ghost "hit" in the appropriate size bucket.
    pub fn ghost_hit(&mut self, size_at_hit: u64)
        requires
            old(self).bucket_size > 0,
            size_at_hit + old(self).meta_overhead <= u64::MAX,
            ({
                let b = old(self).bucket_of(size_at_hit);
                b < old(self).ghost_histogram@.len() ==> old(self).ghost_histogram@[b] < u64::MAX
            }),
        ensures
            final(self).ghost_histogram@ == counted(
                old(self).ghost_histogram@,
                old(self).bucket_of(size_at_hit),
            ),
            final(self).live_histogram == old(self).live_histogram,
            final(self).start == old(self).start,
            final(self).lookups == old(self).lookups,
            final(self).cache_capacity == old(self).cache_capacity,
            final(self).meta_overhead == old(self).meta_overhead,
            final(self).bucket_size == old(self).bucket_size,
    {
        let index: u64 = (size_at_hit + self.meta_overhead) / self.bucket_size;
        if index < self.ghost_histogram.len() as u64 {
            let i: usize = index as usize;
            let count: u64 = self.ghost_histogram[i];
            self.ghost_histogram.set(i, count + 1);
        }
    }

    pub fn lookup(&mut self)
        requires
            old(self).lookups < u64::MAX,
        ensures
            *final(self) == (SizeHistogramPhys {
                lookups: (old(self).lookups + 1) as u64,
                ..*old(self)
            }),
    {
        self.lookups = self.lookups + 1;
    }

    pub fn started(&self) -> (r: SystemTime)
        ensures
            r == self.start,
    {
        self.start
    }
}

} // verus!
