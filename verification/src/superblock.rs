//! What is stored at the beginning of every disk.
use crate::base_types::{CacheGuid, DiskGuid, DiskId, Extent, MAX_DISK_ID};
use crate::checkpoint::CheckpointId;
use crate::features::{supported_features, supported_names, FeatureName};
use crate::vec_map::VecMap;
use vstd::prelude::*;

verus! {

/// The space at the beginning of a disk that is for its superblock.
pub const SUPERBLOCK_SIZE: u64 = 4096;

/// State stored about every disk
#[derive(Debug, Clone, Copy, PartialEq, Eq, Structural)]
pub struct DiskPhys {
    pub size: u64,
    pub guid: DiskGuid,
}

impl DiskPhys {
    /// A disk with a guid of its own, which is random.
    pub fn new(size: u64) -> (r: Self)
        ensures
            r.size == size,
    {
        DiskPhys { size, guid: DiskGuid::new() }
    }
}

/// State stored on the primary disk.
pub struct PrimaryPhys {
    pub checkpoint_id: CheckpointId,
    pub feature_flags: Vec<FeatureName>,
    pub disks: VecMap<DiskPhys>,
    pub sector_size: Option<u64>,
    /// Each extent is a single slab, but the last extent can be a fraction of a slab. The
    /// remainder of that slab is uninitialized padding.
    pub checkpoint: Vec<Extent>,
}

/// State stored at the beginning of every disk
pub struct SuperblockPhys {
    pub primary: Option<PrimaryPhys>,
    pub disk: DiskId,
    pub cache_guid: CacheGuid,
    pub disk_guid: Option<DiskGuid>,
}

/// Subset of the state of the primary disk that is needed to get the feature flags.
pub struct PrimaryFeaturesPhys {
    /// Needed to pick the latest primary.
    pub checkpoint_id: CheckpointId,
    pub feature_flags: Vec<FeatureName>,
}

/// Subset of a superblock that is needed to get the feature flags.
pub struct SuperblockFeaturesPhys {
    pub primary: Option<PrimaryFeaturesPhys>,
    pub disk: DiskId,
    pub cache_guid: CacheGuid,
}

/// Why the superblocks cannot be used.
#[derive(Debug, Clone, Copy, PartialEq, Eq, Structural)]
pub enum SuperblockError {
    /// No disk has a superblock.
    NoSuperblock,
    /// There are superblocks, but none of them is primary, or they are not those of one cache
    /// with its disks in order.
    Inconsistent,
}

/// What is chosen by: where a primary is, and of which checkpoint.
#[derive(Debug, Clone, Copy, PartialEq, Eq, Structural)]
pub struct Candidate {
    pub disk: DiskId,
    pub cache_guid: CacheGuid,
    pub checkpoint_id: Option<CheckpointId>,
}

/// The latest primary; of several with the same checkpoint the last.
pub open spec fn is_latest(c: Seq<Option<Candidate>>, i: int) -> bool {
    &&& 0 <= i < c.len()
    &&& c[i] matches Some(a)
    &&& a.checkpoint_id matches Some(id)
    &&& forall|j: int|
        0 <= j < c.len() ==> #[trigger] not_later(c, j, id.0, i)
}

pub open spec fn not_later(c: Seq<Option<Candidate>>, j: int, id: u64, i: int) -> bool {
    c[j] matches Some(b) ==> b.checkpoint_id matches Some(other) ==> other.0 < id || other.0 == id
        && j <= i
}

/// There is no superblock at all.
pub open spec fn none_found(c: Seq<Option<Candidate>>) -> bool {
    forall|i: int| 0 <= i < c.len() ==> (#[trigger] c[i]) is None
}

fn any_found(c: &Vec<Option<Candidate>>) -> (r: bool)
    ensures
        r <==> !none_found(c@),
{
    let mut i: usize = 0;
    while i < c.len()
        invariant
            i <= c@.len(),
            forall|k: int| 0 <= k < i ==> (#[trigger] c@[k]) is None,
        decreases c@.len() - i,
    {
        if c[i].is_some() {
            assert(c@[i as int] is Some);
            return true;
        }
        i += 1;
    }
    false
}

/// Some disk has a primary superblock.
pub open spec fn has_primary(c: Seq<Option<Candidate>>) -> bool {
    exists|i: int|
        0 <= i < c.len() && ((#[trigger] c[i]) matches Some(a) && a.checkpoint_id is Some)
}

/// The superblocks belong to one cache, each is on the disk that it says, and one that names the
/// primary disk is a primary.
pub open spec fn one_cache(c: Seq<Option<Candidate>>, i: int) -> bool {
    forall|j: int|
        0 <= j < c.len() ==> ((#[trigger] c[j]) matches Some(b) ==> {
            &&& b.disk.0 == j
            &&& b.cache_guid == c[i]->0.cache_guid
            &&& b.disk != c[i]->0.disk || b.checkpoint_id is Some
        })
}

fn find_latest(c: &Vec<Option<Candidate>>) -> (r: Option<usize>)
    ensures
        match r {
            Some(i) => is_latest(c@, i as int),
            None => !has_primary(c@),
        },
{
    let mut best: Option<usize> = None;
    let mut best_id: u64 = 0;
    let mut i: usize = 0;
    while i < c.len()
        invariant
            i <= c@.len(),
            match best {
                Some(b) => {
                    &&& b < i
                    &&& c@[b as int] matches Some(a)
                    &&& a.checkpoint_id == Some(CheckpointId(best_id))
                    &&& forall|j: int|
                        0 <= j < i ==> #[trigger] not_later(c@, j, best_id, b as int)
                },
                None => forall|j: int|
                    0 <= j < i ==> ((#[trigger] c@[j]) matches Some(a) ==> a.checkpoint_id is None),
            },
        decreases c@.len() - i,
    {
        let ghost best0 = best;
        let ghost id0 = best_id;
        let candidate = c[i];
        if let Some(a) = candidate {
            if let Some(id) = a.checkpoint_id {
                let better = match best {
                    Some(_) => id.0 >= best_id,
                    None => true,
                };
                if better {
                    best = Some(i);
                    best_id = id.0;
                    proof {
                        assert forall|j: int| 0 <= j < i + 1 implies #[trigger] not_later(
                            c@,
                            j,
                            best_id,
                            i as int,
                        ) by {
                            if j < i {
                                if best0 is Some {
                                    assert(not_later(c@, j, id0, best0->0 as int));
                                } else {
                                    assert(c@[j] matches Some(x) ==> x.checkpoint_id is None);
                                }
                            }
                        }
                    }
                }
            }
        }
        i += 1;
    }
    best
}

/// As `one_cache`.
fn check_one_cache(c: &Vec<Option<Candidate>>, at: usize) -> (r: bool)
    requires
        at < c@.len(),
        c@[at as int] is Some,
    ensures
        r <==> one_cache(c@, at as int),
{
    let primary = c[at].unwrap();
    let mut i: usize = 0;
    while i < c.len()
        invariant
            i <= c@.len(),
            at < c@.len(),
            c@[at as int] == Some(primary),
            forall|j: int|
                0 <= j < i ==> ((#[trigger] c@[j]) matches Some(b) ==> {
                    &&& b.disk.0 == j
                    &&& b.cache_guid == primary.cache_guid
                    &&& b.disk != primary.disk || b.checkpoint_id is Some
                }),
        decreases c@.len() - i,
    {
        let candidate = c[i];
        if let Some(b) = candidate {
            if b.disk.index() != i || b.cache_guid != primary.cache_guid || (b.disk
                == primary.disk && b.checkpoint_id.is_none()) {
                assert(c@[i as int] is Some);
                return false;
            }
        }
        i += 1;
    }
    true
}

/// What a superblock is chosen by.
pub open spec fn candidate_of(s: Option<SuperblockPhys>) -> Option<Candidate> {
    match s {
        Some(phys) => Some(
            Candidate {
                disk: phys.disk,
                cache_guid: phys.cache_guid,
                checkpoint_id: match phys.primary {
                    Some(p) => Some(p.checkpoint_id),
                    None => None,
                },
            },
        ),
        None => None,
    }
}

pub open spec fn features_candidate(s: Option<SuperblockFeaturesPhys>) -> Option<Candidate> {
    match s {
        Some(phys) => Some(
            Candidate {
                disk: phys.disk,
                cache_guid: phys.cache_guid,
                checkpoint_id: match phys.primary {
                    Some(p) => Some(p.checkpoint_id),
                    None => None,
                },
            },
        ),
        None => None,
    }
}

/// The guids of the disks are those that the primary knows.
pub open spec fn guids_match(s: Seq<Option<SuperblockPhys>>, disks: Map<int, DiskPhys>) -> bool {
    forall|j: int|
        0 <= j < s.len() ==> ((#[trigger] s[j]) matches Some(phys) ==> phys.disk_guid matches Some(
            guid,
        ) ==> disks.contains_key(phys.disk.0 as int) && disks[phys.disk.0 as int].guid == guid)
}

/// How many disks have a superblock.
pub open spec fn present(s: Seq<Option<SuperblockPhys>>) -> int
    decreases s.len(),
{
    if s.len() == 0 {
        0
    } else {
        present(s.drop_last()) + if s.last() is Some {
            1int
        } else {
            0
        }
    }
}

/// The disks without a superblock, in order.
pub open spec fn absent(s: Seq<Option<SuperblockPhys>>) -> Seq<int>
    decreases s.len(),
{
    if s.len() == 0 {
        Seq::empty()
    } else if s.last() is Some {
        absent(s.drop_last())
    } else {
        absent(s.drop_last()).push(s.len() - 1)
    }
}

/// The superblocks are those of one cache, all of whose disks are there.
pub open spec fn consistent(s: Seq<Option<SuperblockPhys>>, i: int, sector_size: u64) -> bool {
    let p = s[i]->0.primary->0;
    &&& one_cache(s.map_values(|x: Option<SuperblockPhys>| candidate_of(x)), i)
    &&& guids_match(s, p.disks@)
    &&& p.sector_size matches Some(recorded) ==> recorded == sector_size
    &&& present(s) == p.disks@.dom().len()
}

/// The state of the primary disk: the state of the cache as of the last checkpoint, its disk, the
/// guid of the cache, and disks that are no part of it yet.
pub struct OpenedPrimary {
    pub primary: PrimaryPhys,
    pub primary_disk: DiskId,
    pub cache_guid: CacheGuid,
    pub extra_disks: Vec<DiskId>,
}

proof fn lemma_keys_count(m: Map<int, DiskPhys>, keys: Seq<usize>)
    requires
        forall|i: int, j: int| 0 <= i < j < keys.len() ==> keys[i] < keys[j],
        forall|i: int| 0 <= i < keys.len() ==> m.contains_key(#[trigger] keys[i] as int),
        forall|k: int| m.contains_key(k) ==> exists|i: int| 0 <= i < keys.len() && keys[i] == k,
    ensures
        m.dom().len() == keys.len(),
{
    let ks = Seq::new(keys.len(), |i: int| keys[i] as int);
    assert(ks.no_duplicates());
    assert(m.dom() =~= ks.to_set()) by {
        assert forall|k: int| m.dom().contains(k) <==> ks.to_set().contains(k) by {
            if m.contains_key(k) {
                let i = choose|i: int| 0 <= i < keys.len() && keys[i] == k;
                assert(ks[i] == k);
            }
            if ks.contains(k) {
                let i = choose|i: int| 0 <= i < ks.len() && ks[i] == k;
                assert(m.contains_key(keys[i] as int));
            }
        }
    }
    ks.unique_seq_to_set();
}

impl PrimaryPhys {
    /// The state of a new cache.
    pub fn new(disks: VecMap<DiskPhys>, sector_size: u64, checkpoint_extents: Vec<Extent>) -> (r:
        Self)
        ensures
            r.checkpoint_id.0 == 0,
            r.feature_flags@.len() == 6,
            forall|i: int|
                0 <= i < 6 ==> (#[trigger] r.feature_flags@[i]).0@ == supported_names()[i],
            r.disks == disks,
            r.sector_size == Some(sector_size),
            r.checkpoint == checkpoint_extents,
    {
        PrimaryPhys {
            checkpoint_id: CheckpointId(0),
            feature_flags: supported_flags(),
            disks,
            sector_size: Some(sector_size),
            checkpoint: checkpoint_extents,
        }
    }

    /// The superblock of a disk that is not the primary.
    pub fn secondary_superblock(&self, disk: DiskId, cache_guid: CacheGuid) -> (r: SuperblockPhys)
        requires
            self.disks@.contains_key(disk.0 as int),
        ensures
            r.primary is None,
            r.disk == disk,
            r.cache_guid == cache_guid,
            r.disk_guid == Some(self.disks@[disk.0 as int].guid),
    {
        let guid = self.disks.get(disk.index()).unwrap().guid;
        SuperblockPhys { primary: None, disk, cache_guid, disk_guid: Some(guid) }
    }

    /// The superblock to write to the primary disk.
    pub fn write(self, primary_disk: DiskId, cache_guid: CacheGuid) -> (r:
        SuperblockPhys)
        requires
            self.disks@.contains_key(primary_disk.0 as int),
        ensures
            r.primary == Some(self),
            r.disk == primary_disk,
            r.cache_guid == cache_guid,
            r.disk_guid == Some(self.disks@[primary_disk.0 as int].guid),
    {
        let guid = self.disks.get(primary_disk.index()).unwrap().guid;
        SuperblockPhys {
            primary: Some(self),
            disk: primary_disk,
            cache_guid,
            disk_guid: Some(guid),
        }
    }

    /// The superblocks to write, in this order: the one of the primary disk is the last, so that
    /// a cache is there only when all its disks belong to it.
    pub fn write_all(
        self,
        n_disks: usize,
        primary_disk: DiskId,
        cache_guid: CacheGuid,
    ) -> (r: Vec<SuperblockPhys>)
        requires
            primary_disk.0 < n_disks <= MAX_DISK_ID + 1,
            forall|d: int| 0 <= d < n_disks ==> #[trigger] self.disks@.contains_key(d),
        ensures
            r@.len() == n_disks,
            r@.last().primary == Some(self),
            r@.last().disk == primary_disk,
            forall|i: int| 0 <= i < r@.len() - 1 ==> (#[trigger] r@[i]).primary is None,
            forall|i: int|
                0 <= i < r@.len() - 1 ==> (#[trigger] r@[i]).disk.0 == if i < primary_disk.0 {
                    i
                } else {
                    i + 1
                },
            forall|i: int|
                0 <= i < r@.len() ==> {
                    &&& (#[trigger] r@[i]).cache_guid == cache_guid
                    &&& r@[i].disk_guid == Some(self.disks@[r@[i].disk.0 as int].guid)
                },
    {
        let mut r: Vec<SuperblockPhys> = Vec::new();
        let mut d: usize = 0;
        while d < n_disks
            invariant
                d <= n_disks <= MAX_DISK_ID + 1,
                primary_disk.0 < n_disks,
                forall|x: int| 0 <= x < n_disks ==> #[trigger] self.disks@.contains_key(x),
                r@.len() == if d <= primary_disk.0 {
                    d as int
                } else {
                    d - 1
                },
                forall|i: int|
                    0 <= i < r@.len() ==> {
                        &&& (#[trigger] r@[i]).primary is None
                        &&& r@[i].disk.0 == if i < primary_disk.0 {
                            i
                        } else {
                            i + 1
                        }
                        &&& r@[i].cache_guid == cache_guid
                        &&& r@[i].disk_guid == Some(self.disks@[r@[i].disk.0 as int].guid)
                    },
            decreases n_disks - d,
        {
            if d != primary_disk.index() {
                assert(self.disks@.contains_key(d as int));
                r.push(self.secondary_superblock(DiskId::new(d), cache_guid));
            }
            d += 1;
        }
        assert(self.disks@.contains_key(primary_disk.0 as int));
        r.push(self.write(primary_disk, cache_guid));
        r
    }

    /// The state of the cache, from the superblocks of the disks in order, as far as there are
    /// any.
    pub fn read(results: Vec<Option<SuperblockPhys>>, sector_size: u64) -> (r: Result<
        OpenedPrimary,
        SuperblockError,
    >)
        requires
            results@.len() <= MAX_DISK_ID + 1,
        ensures
            ({
                let c = results@.map_values(|x: Option<SuperblockPhys>| candidate_of(x));
                match r {
                    Ok(o) => exists|i: int|
                        {
                            &&& #[trigger] is_latest(c, i)
                            &&& consistent(results@, i, sector_size)
                            &&& o.primary == (PrimaryPhys {
                                sector_size: Some(sector_size),
                                ..results@[i]->0.primary->0
                            })
                            &&& o.primary_disk == results@[i]->0.disk
                            &&& o.cache_guid == results@[i]->0.cache_guid
                            &&& o.extra_disks@.len() == absent(results@).len()
                            &&& forall|k: int|
                                0 <= k < o.extra_disks@.len() ==> (
                                #[trigger] o.extra_disks@[k]).0 == absent(results@)[k]
                        },
                    Err(SuperblockError::NoSuperblock) => none_found(c),
                    Err(SuperblockError::Inconsistent) => {
                        ||| !none_found(c) && !has_primary(c)
                        ||| exists|i: int| #[trigger]
                            is_latest(c, i) && !consistent(results@, i, sector_size)
                    },
                }
            }),
    {
        let ghost s = results@;
        let ghost want = s.map_values(|x: Option<SuperblockPhys>| candidate_of(x));
        let mut c: Vec<Option<Candidate>> = Vec::new();
        let mut extra: Vec<DiskId> = Vec::new();
        let mut count: usize = 0;
        let mut k: usize = 0;
        assert(s.take(0) =~= Seq::<Option<SuperblockPhys>>::empty());
        while k < results.len()
            invariant
                s == results@,
                want == s.map_values(|x: Option<SuperblockPhys>| candidate_of(x)),
                k <= s.len() <= MAX_DISK_ID + 1,
                c@ == want.take(k as int),
                count == present(s.take(k as int)),
                count <= k,
                extra@.len() == absent(s.take(k as int)).len(),
                forall|x: int|
                    0 <= x < extra@.len() ==> (#[trigger] extra@[x]).0 == absent(
                        s.take(k as int),
                    )[x],
            decreases s.len() - k,
        {
            proof {
                assert(s.take(k + 1).drop_last() =~= s.take(k as int));
            }
            match &results[k] {
                Some(phys) => {
                    let checkpoint_id = match &phys.primary {
                        Some(p) => Some(p.checkpoint_id),
                        None => None,
                    };
                    c.push(
                        Some(
                            Candidate {
                                disk: phys.disk,
                                cache_guid: phys.cache_guid,
                                checkpoint_id,
                            },
                        ),
                    );
                    count += 1;
                },
                None => {
                    c.push(None);
                    extra.push(DiskId::new(k));
                },
            }
            k += 1;
            assert(c@ =~= want.take(k as int));
        }
        assert(s.take(k as int) =~= s);
        assert(c@ =~= want);
        let at = match find_latest(&c) {
            Some(at) => at,
            None => {
                return Err(
                    if any_found(&c) {
                        SuperblockError::Inconsistent
                    } else {
                        SuperblockError::NoSuperblock
                    },
                );
            },
        };
        proof {
            assert(is_latest(want, at as int));
            assert(want[at as int] == candidate_of(s[at as int]));
        }
        if !check_one_cache(&c, at) {
            return Err(SuperblockError::Inconsistent);
        }
        let mut ok = true;
        let mut primary_disk = DiskId::new(0);
        let mut cache_guid = CacheGuid(0);
        match &results[at] {
            Some(phys) => {
                primary_disk = phys.disk;
                cache_guid = phys.cache_guid;
                match &phys.primary {
                    Some(p) => {
                        ok = Self::guids_ok(&results, &p.disks);
                        if let Some(recorded) = p.sector_size {
                            if recorded != sector_size {
                                ok = false;
                            }
                        }
                        let keys = p.disks.keys();
                        proof {
                            lemma_keys_count(p.disks@, keys@);
                        }
                        if keys.len() != count {
                            ok = false;
                        }
                    },
                    None => {},
                }
            },
            None => {},
        }
        if !ok {
            return Err(SuperblockError::Inconsistent);
        }
        let mut results = results;
        let chosen = results.swap_remove(at);
        let mut primary = chosen.unwrap().primary.unwrap();
        primary.sector_size = Some(sector_size);
        Ok(OpenedPrimary { primary, primary_disk, cache_guid, extra_disks: extra })
    }

    /// The feature flags of the cache, from the superblocks of the disks in order.
    pub fn read_features(results: Vec<Option<SuperblockFeaturesPhys>>) -> (r: Result<
        Vec<FeatureName>,
        SuperblockError,
    >)
        ensures
            ({
                let c = results@.map_values(
                    |x: Option<SuperblockFeaturesPhys>| features_candidate(x),
                );
                match r {
                    Ok(flags) => exists|i: int|
                        {
                            &&& #[trigger] is_latest(c, i)
                            &&& one_cache(c, i)
                            &&& results@[i]->0.primary->0.feature_flags == flags
                        },
                    Err(SuperblockError::NoSuperblock) => none_found(c),
                    Err(SuperblockError::Inconsistent) => {
                        ||| !none_found(c) && !has_primary(c)
                        ||| exists|i: int| #[trigger] is_latest(c, i) && !one_cache(c, i)
                    },
                }
            }),
    {
        match PrimaryFeaturesPhys::read(results) {
            Ok(primary) => Ok(primary.feature_flags),
            Err(e) => Err(e),
        }
    }

    fn guids_ok(results: &Vec<Option<SuperblockPhys>>, disks: &VecMap<DiskPhys>) -> (r: bool)
        ensures
            r <==> guids_match(results@, disks@),
    {
        let mut i: usize = 0;
        while i < results.len()
            invariant
                i <= results@.len(),
                forall|j: int|
                    0 <= j < i ==> ((#[trigger] results@[j]) matches Some(phys) ==> phys.disk_guid
                        matches Some(guid) ==> disks@.contains_key(phys.disk.0 as int)
                        && disks@[phys.disk.0 as int].guid == guid),
            decreases results@.len() - i,
        {
            if let Some(phys) = &results[i] {
                if let Some(guid) = phys.disk_guid {
                    let known = match disks.get(phys.disk.index()) {
                        Some(d) => d.guid == guid,
                        None => false,
                    };
                    if !known {
                        assert(results@[i as int] is Some);
                        return false;
                    }
                }
            }
            i += 1;
        }
        true
    }
}

/// The names of the supported features.
pub fn supported_flags() -> (r: Vec<FeatureName>)
    ensures
        r@.len() == 6,
        forall|i: int| 0 <= i < 6 ==> (#[trigger] r@[i]).0@ == supported_names()[i],
{
    let features = supported_features();
    let mut r: Vec<FeatureName> = Vec::new();
    let mut i: usize = 0;
    while i < features.len()
        invariant
            features@.len() == 6,
            i <= 6,
            r@.len() == i,
            forall|k: int|
                0 <= k < 6 ==> (#[trigger] features@[k]).name.0@ == supported_names()[k],
            forall|k: int| 0 <= k < i ==> (#[trigger] r@[k]).0@ == supported_names()[k],
        decreases 6 - i,
    {
        r.push(features[i].name.copy());
        i += 1;
    }
    r
}

impl PrimaryFeaturesPhys {
    /// The feature flags of the cache, from the superblocks of the disks in order.
    pub fn read(results: Vec<Option<SuperblockFeaturesPhys>>) -> (r: Result<
        PrimaryFeaturesPhys,
        SuperblockError,
    >)
        ensures
            ({
                let c = results@.map_values(
                    |x: Option<SuperblockFeaturesPhys>| features_candidate(x),
                );
                match r {
                    Ok(p) => exists|i: int| #[trigger]
                        is_latest(c, i) && one_cache(c, i) && results@[i]->0.primary == Some(p),
                    Err(SuperblockError::NoSuperblock) => none_found(c),
                    Err(SuperblockError::Inconsistent) => {
                        ||| !none_found(c) && !has_primary(c)
                        ||| exists|i: int| #[trigger] is_latest(c, i) && !one_cache(c, i)
                    },
                }
            }),
    {
        let ghost s = results@;
        let ghost want = s.map_values(|x: Option<SuperblockFeaturesPhys>| features_candidate(x));
        let mut c: Vec<Option<Candidate>> = Vec::new();
        let mut k: usize = 0;
        while k < results.len()
            invariant
                s == results@,
                want == s.map_values(
                    |x: Option<SuperblockFeaturesPhys>| features_candidate(x),
                ),
                k <= s.len(),
                c@ == want.take(k as int),
            decreases s.len() - k,
        {
            match &results[k] {
                Some(phys) => {
                    let checkpoint_id = match &phys.primary {
                        Some(p) => Some(p.checkpoint_id),
                        None => None,
                    };
                    c.push(
                        Some(
                            Candidate {
                                disk: phys.disk,
                                cache_guid: phys.cache_guid,
                                checkpoint_id,
                            },
                        ),
                    );
                },
                None => {
                    c.push(None);
                },
            }
            k += 1;
            assert(c@ =~= want.take(k as int));
        }
        assert(c@ =~= want);
        let at = match find_latest(&c) {
            Some(at) => at,
            None => {
                return Err(
                    if any_found(&c) {
                        SuperblockError::Inconsistent
                    } else {
                        SuperblockError::NoSuperblock
                    },
                );
            },
        };
        proof {
            assert(is_latest(want, at as int));
            assert(want[at as int] == features_candidate(s[at as int]));
        }
        if !check_one_cache(&c, at) {
            return Err(SuperblockError::Inconsistent);
        }
        let mut results = results;
        let chosen = results.swap_remove(at);
        Ok(chosen.unwrap().primary.unwrap())
    }
}

/// There is no more than one latest primary.
pub proof fn law_latest_is_unique(c: Seq<Option<Candidate>>, i: int, j: int)
    requires
        is_latest(c, i),
        is_latest(c, j),
    ensures
        i == j,
{
    let a = c[i]->0.checkpoint_id->0;
    let b = c[j]->0.checkpoint_id->0;
    assert(not_later(c, j, a.0, i));
    assert(not_later(c, i, b.0, j));
}

/// A disk is missing exactly if there is no superblock of it, and is else present.
pub proof fn law_absent(s: Seq<Option<SuperblockPhys>>, i: int)
    ensures
        present(s) + absent(s).len() == s.len(),
        absent(s).contains(i) <==> 0 <= i < s.len() && s[i] is None,
    decreases s.len(),
{
    if s.len() > 0 {
        let p = s.drop_last();
        law_absent(p, i);
        let a = absent(p);
        let b = absent(s);
        if a.contains(i) {
            let k = choose|k: int| 0 <= k < a.len() && a[k] == i;
            assert(b[k] == i);
        }
        if b.contains(i) {
            let k = choose|k: int| 0 <= k < b.len() && b[k] == i;
            if k < a.len() {
                assert(a[k] == i);
            }
        }
        if s.last() is None {
            assert(b[a.len() as int] == s.len() - 1);
        }
    }
}

/// Of the superblocks with a checkpoint none is later than the latest one, and of those that are
/// as late it is the last one.
pub proof fn law_latest(c: Seq<Option<Candidate>>, i: int, j: int)
    requires
        is_latest(c, i),
        0 <= j < c.len(),
        c[j] is Some,
        c[j]->0.checkpoint_id is Some,
    ensures
        c[i] is Some && c[i]->0.checkpoint_id is Some,
        (c[j]->0.checkpoint_id->0).0 <= (c[i]->0.checkpoint_id->0).0,
        c[j]->0.checkpoint_id == c[i]->0.checkpoint_id ==> j <= i,
{
    assert(not_later(c, j, (c[i]->0.checkpoint_id->0).0, i));
}

/// What is compared of a superblock is what it says.
pub proof fn law_candidate(s: SuperblockPhys)
    ensures
        candidate_of(None) is None,
        candidate_of(Some(s)) matches Some(c) && c.disk == s.disk && c.cache_guid == s.cache_guid
            && (c.checkpoint_id is Some <==> s.primary is Some) && (s.primary is Some
            ==> c.checkpoint_id->0 == s.primary->0.checkpoint_id),
{
}

/// Superblocks go together only if all are of one cache, each is at the number that it says, the
/// guids are those that the primary knows, and none is missing.
pub proof fn law_consistent(s: Seq<Option<SuperblockPhys>>, i: int, sector_size: u64, j: int)
    requires
        consistent(s, i, sector_size),
        0 <= i < s.len(),
        s[i] is Some,
        s[i]->0.primary is Some,
        0 <= j < s.len(),
        s[j] is Some,
    ensures
        s[j]->0.cache_guid == s[i]->0.cache_guid,
        s[j]->0.disk.0 == j,
        s[j]->0.disk_guid is Some ==> s[i]->0.primary->0.disks@.contains_key(j)
            && s[i]->0.primary->0.disks@[j].guid == s[j]->0.disk_guid->0,
        s[i]->0.primary->0.sector_size matches Some(z) ==> z == sector_size,
        present(s) == s[i]->0.primary->0.disks@.dom().len(),
{
    let c = s.map_values(|x: Option<SuperblockPhys>| candidate_of(x));
    assert(c[j] == candidate_of(s[j]));
    assert(c[i] == candidate_of(s[i]));
}

/// The same is compared of a superblock of which only the features are known.
pub proof fn law_features_candidate(s: SuperblockFeaturesPhys)
    ensures
        features_candidate(None) is None,
        features_candidate(Some(s)) matches Some(c) && c.disk == s.disk && c.cache_guid
            == s.cache_guid && (c.checkpoint_id is Some <==> s.primary is Some) && (
        s.primary is Some ==> c.checkpoint_id->0 == s.primary->0.checkpoint_id),
{
}

/// Superblocks are of one cache only if each is at the number that it says, and each has the guid
/// of the cache.
pub proof fn law_one_cache(c: Seq<Option<Candidate>>, i: int, j: int)
    requires
        one_cache(c, i),
        0 <= j < c.len(),
        c[j] is Some,
    ensures
        c[j]->0.disk.0 == j,
        c[j]->0.cache_guid == c[i]->0.cache_guid,
{
    assert(c[j] is Some);
}

} // verus!
