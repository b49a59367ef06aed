//! Finding the disks of a cache.
use crate::base_types::{CacheGuid, DiskGuid, DiskId};
use crate::superblock::{DiskPhys, SuperblockPhys};
use crate::vec_map::VecMap;
use vstd::prelude::*;

verus! {

/// How the disks of the cache are found.
#[derive(Debug)]
pub enum CacheOpenMode {
    DeviceList(Vec<String>),
    DiscoveryDirectory(String, Option<CacheGuid>),
    /// There is no cache.
    NoCache,
}

/// A disk that has a superblock.
pub struct DiscoveredDevice {
    pub device_path: String,
    pub superblock: SuperblockPhys,
}

/// Why no cache is found.
#[derive(Debug, Clone, Copy, PartialEq, Eq, Structural)]
pub enum DiscoverError {
    /// Two disks of a cache have the same number and the same guid.
    Duplicate { cache_guid: CacheGuid, disk: DiskId, disk_guid: Option<DiskGuid> },
    /// There are several caches, all of whose disks are there.
    Multiple,
    /// There is no cache, all of whose disks are there.
    NotFound,
}

/// The place of a disk: by its number, and then by its guid.
pub open spec fn place(s: SuperblockPhys) -> int {
    s.disk.0 * 0x2_0000_0000_0000_0000 + match s.disk_guid {
        Some(guid) => guid.0 + 1,
        None => 0,
    }
}

/// The cache that a disk belongs to.
pub open spec fn cache_of(d: DiscoveredDevice) -> CacheGuid {
    d.superblock.cache_guid
}

/// The same disk of the same cache.
pub open spec fn same_disk(a: DiscoveredDevice, b: DiscoveredDevice) -> bool {
    cache_of(a) == cache_of(b) && place(a.superblock) == place(b.superblock)
}

pub open spec fn has_duplicate(d: Seq<DiscoveredDevice>) -> bool {
    exists|i: int, j: int| 0 <= i < j < d.len() && #[trigger] same_disk(d[i], d[j])
}

/// The disk has been found before.
pub open spec fn is_duplicate(d: Seq<DiscoveredDevice>, j: int) -> bool {
    exists|i: int| 0 <= i < j < d.len() && #[trigger] same_disk(d[i], d[j])
}

/// The first disk that has been found before.
pub open spec fn is_first_duplicate(d: Seq<DiscoveredDevice>, j: int) -> bool {
    &&& is_duplicate(d, j)
    &&& forall|k: int| 0 <= k < j ==> !#[trigger] is_duplicate(d, k)
}

/// What comes of a search for the cache, or for that with the guid that is asked for.
pub open spec fn is_discovered(
    d: Seq<DiscoveredDevice>,
    target: Option<CacheGuid>,
    r: Result<Vec<String>, DiscoverError>,
) -> bool {
    match r {
        Ok(paths) => {
            &&& !has_duplicate(d)
            &&& is_only_cache(d, target, paths@)
        },
        Err(DiscoverError::Duplicate { cache_guid, disk, disk_guid }) => exists|j: int|
            {
                &&& #[trigger] is_first_duplicate(d, j)
                &&& cache_guid == cache_of(d[j])
                &&& disk == d[j].superblock.disk
                &&& disk_guid == d[j].superblock.disk_guid
            },
        Err(DiscoverError::Multiple) => {
            &&& !has_duplicate(d)
            &&& exists|a: CacheGuid, b: CacheGuid| #[trigger]
                is_wanted(d, target, a) && #[trigger] is_wanted(d, target, b) && a != b
        },
        Err(DiscoverError::NotFound) => {
            &&& !has_duplicate(d)
            &&& forall|guid: CacheGuid| !#[trigger] is_wanted(d, target, guid)
        },
    }
}

/// The first disk of a cache that has a primary superblock.
pub open spec fn is_first_primary(d: Seq<DiscoveredDevice>, guid: CacheGuid, i: int) -> bool {
    &&& 0 <= i < d.len()
    &&& cache_of(d[i]) == guid
    &&& d[i].superblock.primary is Some
    &&& forall|j: int|
        0 <= j < d.len() && cache_of(d[j]) == guid && (#[trigger] d[j]).superblock.primary is Some
            ==> place(d[i].superblock) <= place(d[j].superblock)
}

/// The disk is one that the primary knows. A disk that has no guid yet is taken by its number.
pub open spec fn is_known(disks: Map<int, DiskPhys>, s: SuperblockPhys) -> bool {
    &&& disks.contains_key(s.disk.0 as int)
    &&& s.disk_guid matches Some(guid) ==> disks[s.disk.0 as int].guid == guid
}

/// The disks of a cache that its primary knows.
pub open spec fn is_member(
    d: Seq<DiscoveredDevice>,
    guid: CacheGuid,
    disks: Map<int, DiskPhys>,
    i: int,
) -> bool {
    0 <= i < d.len() && cache_of(d[i]) == guid && is_known(disks, d[i].superblock)
}

/// All disks that the primary knows are there.
pub open spec fn all_there(
    d: Seq<DiscoveredDevice>,
    guid: CacheGuid,
    disks: Map<int, DiskPhys>,
) -> bool {
    forall|x: int| #[trigger]
        disks.contains_key(x) ==> exists|i: int|
            #[trigger] is_member(d, guid, disks, i) && d[i].superblock.disk.0 == x
}

/// The disks that the primary of a cache knows.
pub open spec fn known_disks(d: Seq<DiscoveredDevice>, i: int) -> Map<int, DiskPhys> {
    d[i].superblock.primary->0.disks@
}

/// A cache that has a primary, and all of whose disks are there.
pub open spec fn is_valid_cache(d: Seq<DiscoveredDevice>, guid: CacheGuid) -> bool {
    exists|i: int| #[trigger]
        is_first_primary(d, guid, i) && all_there(d, guid, known_disks(d, i))
}

/// A cache that is asked for.
pub open spec fn is_wanted(
    d: Seq<DiscoveredDevice>,
    target: Option<CacheGuid>,
    guid: CacheGuid,
) -> bool {
    &&& is_valid_cache(d, guid)
    &&& target matches Some(t) ==> t == guid
}

/// The paths of the disks of a cache, in the order of their places: `order` says which.
pub open spec fn are_paths(
    d: Seq<DiscoveredDevice>,
    guid: CacheGuid,
    order: Seq<int>,
    paths: Seq<String>,
) -> bool {
    &&& exists|p: int|
        {
            &&& #[trigger] is_first_primary(d, guid, p)
            &&& forall|i: int|
                order.contains(i) <==> #[trigger] is_member(d, guid, known_disks(d, p), i)
        }
    &&& forall|x: int, y: int|
        0 <= x < y < order.len() ==> place(d[#[trigger] order[x]].superblock) < place(
            d[#[trigger] order[y]].superblock,
        )
    &&& paths.len() == order.len()
    &&& forall|x: int|
        0 <= x < order.len() ==> (#[trigger] paths[x])@ == d[order[x]].device_path@
}

/// The paths are those of the only cache that is asked for.
pub open spec fn is_only_cache(
    d: Seq<DiscoveredDevice>,
    target: Option<CacheGuid>,
    paths: Seq<String>,
) -> bool {
    exists|guid: CacheGuid, order: Seq<int>|
        {
            &&& #[trigger] are_paths(d, guid, order, paths)
            &&& is_wanted(d, target, guid)
            &&& forall|other: CacheGuid| #[trigger] is_wanted(d, target, other) ==> other == guid
        }
}

fn is_before(a: &SuperblockPhys, b: &SuperblockPhys) -> (r: bool)
    ensures
        r <==> place(*a) < place(*b),
{
    if a.disk.0 != b.disk.0 {
        return a.disk.0 < b.disk.0;
    }
    match a.disk_guid {
        Some(x) => match b.disk_guid {
            Some(y) => x.0 < y.0,
            None => false,
        },
        None => b.disk_guid.is_some(),
    }
}

fn known(disks: &VecMap<DiskPhys>, s: &SuperblockPhys) -> (r: bool)
    ensures
        r <==> is_known(disks@, *s),
{
    match disks.get(s.disk.index()) {
        Some(d) => match s.disk_guid {
            Some(guid) => d.guid == guid,
            None => true,
        },
        None => false,
    }
}

fn find_duplicate(d: &Vec<DiscoveredDevice>) -> (r: Option<usize>)
    ensures
        match r {
            Some(j) => is_first_duplicate(d@, j as int),
            None => !has_duplicate(d@),
        },
{
    let mut j: usize = 0;
    while j < d.len()
        invariant
            j <= d@.len(),
            forall|x: int, y: int| 0 <= x < y < j ==> !#[trigger] same_disk(d@[x], d@[y]),
        decreases d@.len() - j,
    {
        let mut i: usize = 0;
        while i < j
            invariant
                i <= j < d@.len(),
                forall|x: int, y: int| 0 <= x < y < j ==> !#[trigger] same_disk(d@[x], d@[y]),
                forall|x: int| 0 <= x < i ==> !#[trigger] same_disk(d@[x], d@[j as int]),
            decreases j - i,
        {
            let a = &d[i].superblock;
            let b = &d[j].superblock;
            if a.cache_guid == b.cache_guid && !is_before(a, b) && !is_before(b, a) {
                proof {
                    let x = i as int;
                    let y = j as int;
                    assert(0 <= x < y < d@.len() && same_disk(d@[x], d@[y]));
                    assert(is_duplicate(d@, y));
                    assert forall|k: int| 0 <= k < y implies !#[trigger] is_duplicate(d@, k) by {}
                }
                return Some(j);
            }
            i += 1;
        }
        j += 1;
    }
    None
}

fn first_primary(d: &Vec<DiscoveredDevice>, guid: CacheGuid) -> (r: Option<usize>)
    ensures
        match r {
            Some(i) => is_first_primary(d@, guid, i as int),
            None => forall|i: int| !#[trigger] is_first_primary(d@, guid, i),
        },
{
    let mut best: Option<usize> = None;
    let mut i: usize = 0;
    while i < d.len()
        invariant
            i <= d@.len(),
            match best {
                Some(b) => {
                    &&& b < i
                    &&& cache_of(d@[b as int]) == guid
                    &&& d@[b as int].superblock.primary is Some
                    &&& forall|j: int|
                        0 <= j < i && cache_of(d@[j]) == guid && (
                        #[trigger] d@[j]).superblock.primary is Some ==> place(
                            d@[b as int].superblock,
                        ) <= place(d@[j].superblock)
                },
                None => forall|j: int|
                    0 <= j < i && cache_of(d@[j]) == guid ==> (
                    #[trigger] d@[j]).superblock.primary is None,
            },
        decreases d@.len() - i,
    {
        let s = &d[i].superblock;
        if s.cache_guid == guid && s.primary.is_some() {
            let better = match best {
                Some(b) => is_before(s, &d[b].superblock),
                None => true,
            };
            if better {
                best = Some(i);
            }
        }
        i += 1;
    }
    best
}

fn members_all_there(d: &Vec<DiscoveredDevice>, guid: CacheGuid, disks: &VecMap<DiskPhys>) -> (r:
    bool)
    ensures
        r <==> all_there(d@, guid, disks@),
{
    let keys = disks.keys();
    let mut k: usize = 0;
    while k < keys.len()
        invariant
            k <= keys@.len(),
            forall|i: int| 0 <= i < keys@.len() ==> disks@.contains_key(#[trigger] keys@[i] as int),
            forall|x: int|
                0 <= x < k ==> exists|i: int|
                    #[trigger] is_member(d@, guid, disks@, i) && d@[i].superblock.disk.0
                        == #[trigger] keys@[x],
        decreases keys@.len() - k,
    {
        let mut found = false;
        let mut i: usize = 0;
        while i < d.len() && !found
            invariant
                i <= d@.len(),
                k < keys@.len(),
                found ==> exists|x: int|
                    #[trigger] is_member(d@, guid, disks@, x) && d@[x].superblock.disk.0
                        == keys@[k as int],
                !found ==> forall|x: int|
                    0 <= x < i && d@[x].superblock.disk.0 == keys@[k as int]
                        ==> !#[trigger] is_member(d@, guid, disks@, x),
            decreases d@.len() - i,
        {
            let s = &d[i].superblock;
            if s.cache_guid == guid && s.disk.index() == keys[k] && known(disks, s) {
                assert(is_member(d@, guid, disks@, i as int));
                found = true;
            }
            i += 1;
        }
        if !found {
            proof {
                let x = keys@[k as int] as int;
                assert(disks@.contains_key(x));
                assert(!exists|i: int|
                    #[trigger] is_member(d@, guid, disks@, i) && d@[i].superblock.disk.0 == x);
            }
            return false;
        }
        k += 1;
    }
    proof {
        assert forall|x: int| #[trigger] disks@.contains_key(x) implies exists|i: int|
            #[trigger] is_member(d@, guid, disks@, i) && d@[i].superblock.disk.0 == x by {
            let q = choose|q: int| 0 <= q < keys@.len() && keys@[q] == x;
            let i = choose|i: int|
                #[trigger] is_member(d@, guid, disks@, i) && d@[i].superblock.disk.0 == keys@[q];
            assert(is_member(d@, guid, disks@, i));
        }
    }
    true
}

/// Whether a cache has a primary, and all of its disks are there.
pub fn valid_cache(d: &Vec<DiscoveredDevice>, guid: CacheGuid) -> (r: bool)
    requires
        !has_duplicate(d@),
    ensures
        r <==> is_valid_cache(d@, guid),
{
    match first_primary(d, guid) {
        Some(i) => {
            proof {
                assert forall|j: int| #[trigger] is_first_primary(d@, guid, j) implies j == i by {
                    lemma_first_unique(d@, guid, i as int, j);
                }
            }
            match &d[i].superblock.primary {
                Some(p) => members_all_there(d, guid, &p.disks),
                None => false,
            }
        },
        None => false,
    }
}

proof fn lemma_first_unique(d: Seq<DiscoveredDevice>, guid: CacheGuid, i: int, j: int)
    requires
        !has_duplicate(d),
        is_first_primary(d, guid, i),
        is_first_primary(d, guid, j),
    ensures
        i == j,
{
    assert(place(d[i].superblock) == place(d[j].superblock));
    if i < j {
        assert(same_disk(d[i], d[j]));
    } else if j < i {
        assert(same_disk(d[j], d[i]));
    }
}

/// The paths of the disks of a valid cache.
fn cache_paths(d: &Vec<DiscoveredDevice>, guid: CacheGuid) -> (r: (Vec<String>, Ghost<Seq<int>>))
    requires
        !has_duplicate(d@),
        is_valid_cache(d@, guid),
    ensures
        are_paths(d@, guid, r.1@, r.0@),
{
    let p = first_primary(d, guid).unwrap();
    let ghost ds = known_disks(d@, p as int);
    // the members, sorted by insertion
    let mut order: Vec<usize> = Vec::new();
    let mut i: usize = 0;
    while i < d.len()
        invariant
            i <= d@.len(),
            p < d@.len(),
            !has_duplicate(d@),
            is_first_primary(d@, guid, p as int),
            ds == known_disks(d@, p as int),
            forall|x: int|
                0 <= x < order@.len() ==> (#[trigger] order@[x]) < i && is_member(
                    d@,
                    guid,
                    ds,
                    order@[x] as int,
                ),
            forall|x: int|
                0 <= x < i && #[trigger] is_member(d@, guid, ds, x) ==> exists|k: int|
                    0 <= k < order@.len() && #[trigger] order@[k] == x,
            forall|x: int, y: int|
                0 <= x < y < order@.len() ==> place(d@[#[trigger] order@[x] as int].superblock)
                    < place(d@[#[trigger] order@[y] as int].superblock),
        decreases d@.len() - i,
    {
        let s = &d[i].superblock;
        let ghost o0 = order@;
        let member = match &d[p].superblock.primary {
            Some(prim) => s.cache_guid == guid && known(&prim.disks, s),
            None => false,
        };
        if member {
            let mut at: usize = 0;
            while at < order.len() && is_before(&d[order[at]].superblock, s)
                invariant
                    at <= order@.len(),
                    order@ == o0,
                    i < d@.len(),
                    *s == d@[i as int].superblock,
                    forall|x: int|
                        0 <= x < order@.len() ==> (#[trigger] order@[x]) < i && is_member(
                            d@,
                            guid,
                            ds,
                            order@[x] as int,
                        ),
                    forall|x: int|
                        0 <= x < at ==> place(d@[#[trigger] order@[x] as int].superblock) < place(
                            *s,
                        ),
                decreases order@.len() - at,
            {
                at += 1;
            }
            order.insert(at, i);
            proof {
                let o1 = order@;
                assert(o1 =~= o0.insert(at as int, i));
                assert forall|x: int| 0 <= x < o0.len() implies place(
                    d@[#[trigger] o0[x] as int].superblock,
                ) != place(*s) by {
                    assert(is_member(d@, guid, ds, o0[x] as int));
                    if place(d@[o0[x] as int].superblock) == place(*s) {
                        assert(same_disk(d@[o0[x] as int], d@[i as int]));
                    }
                }
                assert forall|x: int| at <= x < o0.len() implies place(*s) < place(
                    d@[#[trigger] o0[x] as int].superblock,
                ) by {
                    if x > at {
                        assert(place(d@[o0[at as int] as int].superblock) < place(
                            d@[o0[x] as int].superblock,
                        ));
                    }
                }
                assert forall|x: int| 0 <= x < o1.len() implies (#[trigger] o1[x]) < i + 1
                    && is_member(d@, guid, ds, o1[x] as int) by {
                    if x != at {
                        let x0 = if x < at { x } else { x - 1 };
                        assert(o1[x] == o0[x0]);
                    }
                }
                assert forall|x: int, y: int| 0 <= x < y < o1.len() implies place(
                    d@[#[trigger] o1[x] as int].superblock,
                ) < place(d@[#[trigger] o1[y] as int].superblock) by {
                    let x0 = if x < at { x } else { x - 1 };
                    let y0 = if y < at { y } else { y - 1 };
                    if x != at {
                        assert(o1[x] == o0[x0]);
                    }
                    if y != at {
                        assert(o1[y] == o0[y0]);
                    }
                    if x != at && y != at {
                        assert(place(d@[o0[x0] as int].superblock) < place(
                            d@[o0[y0] as int].superblock,
                        ));
                    }
                }
                assert forall|x: int|
                    0 <= x < i + 1 && #[trigger] is_member(d@, guid, ds, x) implies exists|k: int|
                    0 <= k < o1.len() && #[trigger] o1[k] == x by {
                    if x == i {
                        assert(o1[at as int] == x);
                    } else {
                        let k = choose|k: int| 0 <= k < o0.len() && #[trigger] o0[k] == x;
                        let k1 = if k < at { k } else { k + 1 };
                        assert(o1[k1] == o0[k]);
                    }
                }
            }
        } else {
            assert(!is_member(d@, guid, ds, i as int));
        }
        i += 1;
    }
    let ghost ord = Seq::new(order@.len(), |x: int| order@[x] as int);
    let mut paths: Vec<String> = Vec::new();
    let mut k: usize = 0;
    while k < order.len()
        invariant
            k <= order@.len(),
            paths@.len() == k,
            forall|x: int| 0 <= x < order@.len() ==> (#[trigger] order@[x]) < d@.len(),
            forall|x: int|
                0 <= x < k ==> (#[trigger] paths@[x])@ == d@[order@[x] as int].device_path@,
        decreases order@.len() - k,
    {
        paths.push(d[order[k]].device_path.clone());
        k += 1;
    }
    proof {
        assert forall|x: int| ord.contains(x) <==> #[trigger] is_member(d@, guid, ds, x) by {
            if ord.contains(x) {
                let q = choose|q: int| 0 <= q < ord.len() && ord[q] == x;
                assert(order@[q] == x);
            }
            if is_member(d@, guid, ds, x) {
                let q = choose|q: int| 0 <= q < order@.len() && #[trigger] order@[q] == x;
                assert(ord[q] == x);
            }
        }
        assert(is_first_primary(d@, guid, p as int));
    }
    (paths, Ghost(ord))
}

/// The disks of the cache that was found: of all, or of those with the guid that is asked for,
/// there must be exactly one that is complete.
pub fn discover_devices(d: &Vec<DiscoveredDevice>, target: Option<CacheGuid>) -> (r: Result<
    Vec<String>,
    DiscoverError,
>)
    ensures
        is_discovered(d@, target, r),
{
    if let Some(j) = find_duplicate(d) {
        let s = &d[j].superblock;
        return Err(
            DiscoverError::Duplicate {
                cache_guid: s.cache_guid,
                disk: s.disk,
                disk_guid: s.disk_guid,
            },
        );
    }
    let mut found: Option<CacheGuid> = None;
    let mut i: usize = 0;
    while i < d.len()
        invariant
            i <= d@.len(),
            !has_duplicate(d@),
            found matches Some(guid) ==> is_wanted(d@, target, guid),
            forall|x: int|
                0 <= x < i && is_wanted(d@, target, #[trigger] cache_of(d@[x])) ==> found == Some(
                    cache_of(d@[x]),
                ),
        decreases d@.len() - i,
    {
        let guid = d[i].superblock.cache_guid;
        let asked = match target {
            Some(t) => t == guid,
            None => true,
        };
        let new = match found {
            Some(g) => g != guid,
            None => true,
        };
        if asked && new && valid_cache(d, guid) {
            assert(is_wanted(d@, target, guid));
            if let Some(g) = found {
                assert(is_wanted(d@, target, g));
                return Err(DiscoverError::Multiple);
            }
            found = Some(guid);
            proof {
                assert forall|x: int|
                    0 <= x < i + 1 && is_wanted(
                        d@,
                        target,
                        #[trigger] cache_of(d@[x]),
                    ) implies cache_of(d@[x]) == guid by {}
            }
        }
        i += 1;
    }
    proof {
        assert forall|other: CacheGuid| #[trigger] is_wanted(d@, target, other) implies found
            == Some(other) by {
            let x = choose|x: int| #[trigger]
                is_first_primary(d@, other, x) && all_there(d@, other, known_disks(d@, x));
            assert(cache_of(d@[x]) == other);
        }
    }
    match found {
        Some(guid) => {
            let (paths, order) = cache_paths(d, guid);
            proof {
                assert(is_wanted(d@, target, guid));
                assert(forall|other: CacheGuid| #[trigger]
                    is_wanted(d@, target, other) ==> other == guid);
                assert(are_paths(d@, guid, order@, paths@));
                assert(is_only_cache(d@, target, paths@));
            }
            Ok(paths)
        },
        None => Err(DiscoverError::NotFound),
    }
}

impl CacheOpenMode {
    /// The paths of the disks. `discovered` are the disks in the directory, if there is one.
    pub fn device_paths(self, discovered: &Vec<DiscoveredDevice>) -> (r: Result<
        Vec<String>,
        DiscoverError,
    >)
        ensures
            match self {
                CacheOpenMode::DeviceList(paths) => r == Ok::<Vec<String>, DiscoverError>(paths),
                CacheOpenMode::DiscoveryDirectory(_, target) => is_discovered(
                    discovered@,
                    target,
                    r,
                ),
                CacheOpenMode::NoCache => r matches Ok(paths) && paths@.len() == 0,
            },
    {
        match self {
            CacheOpenMode::DeviceList(paths) => Ok(paths),
            CacheOpenMode::DiscoveryDirectory(_, target) => discover_devices(discovered, target),
            CacheOpenMode::NoCache => Ok(Vec::new()),
        }
    }
}

/// Disks are in order of their numbers, and of their guids if they have the same number. One
/// without a guid comes first.
pub proof fn law_disk_order(a: SuperblockPhys, b: SuperblockPhys)
    ensures
        place(a) < place(b) <==> {
            ||| a.disk.0 < b.disk.0
            ||| a.disk.0 == b.disk.0 && a.disk_guid is None && b.disk_guid is Some
            ||| a.disk.0 == b.disk.0 && a.disk_guid is Some && b.disk_guid is Some
                && (a.disk_guid->0).0 < (b.disk_guid->0).0
        },
        place(a) == place(b) <==> a.disk == b.disk && a.disk_guid == b.disk_guid,
{
}

/// A device belongs to a cache exactly if it says so, the cache has a disk of that number, and
/// its guid, if it has one, is the one that the cache knows.
pub proof fn law_member(
    d: Seq<DiscoveredDevice>,
    guid: CacheGuid,
    disks: Map<int, DiskPhys>,
    i: int,
)
    requires
        0 <= i < d.len(),
    ensures
        d[i].superblock.cache_guid != guid ==> !is_member(d, guid, disks, i),
        !disks.contains_key(d[i].superblock.disk.0 as int) ==> !is_member(d, guid, disks, i),
        d[i].superblock.disk_guid is Some && disks[d[i].superblock.disk.0 as int].guid
            != d[i].superblock.disk_guid->0 ==> !is_member(d, guid, disks, i),
        d[i].superblock.cache_guid == guid && disks.contains_key(d[i].superblock.disk.0 as int)
            && (d[i].superblock.disk_guid is None || disks[d[i].superblock.disk.0 as int].guid
            == d[i].superblock.disk_guid->0) ==> is_member(d, guid, disks, i),
{
}

/// Of a cache that is found, each disk that its first primary knows is there.
pub proof fn law_found_cache_is_complete(
    d: Seq<DiscoveredDevice>,
    target: Option<CacheGuid>,
    guid: CacheGuid,
)
    requires
        is_wanted(d, target, guid),
    ensures
        target matches Some(t) ==> t == guid,
        exists|p: int|
            0 <= p < d.len() && #[trigger] d[p].superblock.cache_guid == guid
                && d[p].superblock.primary is Some && forall|x: int| #[trigger]
                d[p].superblock.primary->0.disks@.contains_key(x) ==> exists|i: int|
                    0 <= i < d.len() && (#[trigger] d[i]).superblock.cache_guid == guid
                        && d[i].superblock.disk.0 == x,
{
    let p = choose|p: int| #[trigger]
        is_first_primary(d, guid, p) && all_there(d, guid, known_disks(d, p));
    let disks = d[p].superblock.primary->0.disks@;
    assert forall|x: int| #[trigger] disks.contains_key(x) implies exists|i: int|
        0 <= i < d.len() && (#[trigger] d[i]).superblock.cache_guid == guid
            && d[i].superblock.disk.0 == x by {
        let i = choose|i: int| #[trigger]
            is_member(d, guid, disks, i) && d[i].superblock.disk.0 == x;
        assert(d[i].superblock.cache_guid == guid);
    }
    assert(d[p].superblock.cache_guid == guid);
}

/// A cache of which a disk is missing is not found.
pub proof fn law_incomplete_cache_is_not_found(
    d: Seq<DiscoveredDevice>,
    target: Option<CacheGuid>,
    guid: CacheGuid,
    x: int,
)
    requires
        forall|p: int|
            0 <= p < d.len() && (#[trigger] d[p]).superblock.cache_guid == guid
                && d[p].superblock.primary is Some
                ==> d[p].superblock.primary->0.disks@.contains_key(x),
        forall|i: int|
            0 <= i < d.len() && (#[trigger] d[i]).superblock.cache_guid == guid
                ==> d[i].superblock.disk.0 != x,
    ensures
        !is_wanted(d, target, guid),
{
    if is_wanted(d, target, guid) {
        let p = choose|p: int| #[trigger]
            is_first_primary(d, guid, p) && all_there(d, guid, known_disks(d, p));
        assert(d[p].superblock.cache_guid == guid);
        let disks = known_disks(d, p);
        assert(disks.contains_key(x));
        let i = choose|i: int| #[trigger]
            is_member(d, guid, disks, i) && d[i].superblock.disk.0 == x;
        assert(d[i].superblock.cache_guid == guid);
    }
}

/// There is a duplicate exactly if two devices are of one cache and have the same number and the
/// same guid.
pub proof fn law_duplicates(d: Seq<DiscoveredDevice>)
    ensures
        has_duplicate(d) <==> exists|i: int, j: int|
            0 <= i < j < d.len() && (#[trigger] d[i]).superblock.cache_guid == (
            #[trigger] d[j]).superblock.cache_guid && d[i].superblock.disk == d[j].superblock.disk
                && d[i].superblock.disk_guid == d[j].superblock.disk_guid,
{
    assert forall|i: int, j: int| 0 <= i < j < d.len() implies (#[trigger] same_disk(d[i], d[j])
        <==> d[i].superblock.cache_guid == d[j].superblock.cache_guid && d[i].superblock.disk
        == d[j].superblock.disk && d[i].superblock.disk_guid == d[j].superblock.disk_guid) by {
        law_disk_order(d[i].superblock, d[j].superblock);
    }
    if exists|i: int, j: int|
        0 <= i < j < d.len() && (#[trigger] d[i]).superblock.cache_guid == (
        #[trigger] d[j]).superblock.cache_guid && d[i].superblock.disk == d[j].superblock.disk
            && d[i].superblock.disk_guid == d[j].superblock.disk_guid {
        let (i, j) = choose|i: int, j: int|
            0 <= i < j < d.len() && (#[trigger] d[i]).superblock.cache_guid == (
            #[trigger] d[j]).superblock.cache_guid && d[i].superblock.disk == d[j].superblock.disk
                && d[i].superblock.disk_guid == d[j].superblock.disk_guid;
        assert(same_disk(d[i], d[j]));
    }
    if has_duplicate(d) {
        let (i, j) = choose|i: int, j: int| 0 <= i < j < d.len() && #[trigger]
            same_disk(d[i], d[j]);
        assert(d[i].superblock.cache_guid == d[j].superblock.cache_guid);
    }
}

/// The first primary of a cache is one of its devices with a checkpoint, and no other one of
/// those has a lower number.
pub proof fn law_first_primary(d: Seq<DiscoveredDevice>, guid: CacheGuid, i: int, j: int)
    requires
        is_first_primary(d, guid, i),
        0 <= j < d.len(),
        d[j].superblock.cache_guid == guid,
        d[j].superblock.primary is Some,
    ensures
        d[i].superblock.cache_guid == guid,
        d[i].superblock.primary is Some,
        d[i].superblock.disk.0 <= d[j].superblock.disk.0,
{
    law_disk_order(d[j].superblock, d[i].superblock);
    assert(place(d[i].superblock) <= place(d[j].superblock));
}

/// What a search for a cache gives: a duplicate is reported whatever else there is. Else the one
/// cache that is wanted and complete is found, and it is an error if there is none, or more than
/// one.
pub proof fn law_discovery(
    d: Seq<DiscoveredDevice>,
    target: Option<CacheGuid>,
    r: Result<Vec<String>, DiscoverError>,
    a: CacheGuid,
    b: CacheGuid,
)
    requires
        is_discovered(d, target, r),
    ensures
        has_duplicate(d) <==> r matches Err(DiscoverError::Duplicate { .. }),
        !has_duplicate(d) && is_wanted(d, target, a) && is_wanted(d, target, b) && a != b
            ==> r matches Err(DiscoverError::Multiple),
        r matches Err(DiscoverError::NotFound) ==> !is_wanted(d, target, a),
        r matches Err(DiscoverError::Multiple) ==> !has_duplicate(d),
        r is Ok && is_wanted(d, target, a) && is_wanted(d, target, b) ==> a == b,
        r is Ok ==> exists|guid: CacheGuid| #[trigger] is_wanted(d, target, guid),
{
    match r {
        Ok(paths) => {
            let (guid, order) = choose|guid: CacheGuid, order: Seq<int>|
                {
                    &&& #[trigger] are_paths(d, guid, order, paths@)
                    &&& is_wanted(d, target, guid)
                    &&& forall|other: CacheGuid| #[trigger]
                        is_wanted(d, target, other) ==> other == guid
                };
            assert(is_wanted(d, target, guid));
        },
        Err(DiscoverError::Duplicate { cache_guid, disk, disk_guid }) => {
            let j = choose|j: int|
                {
                    &&& #[trigger] is_first_duplicate(d, j)
                    &&& cache_guid == cache_of(d[j])
                    &&& disk == d[j].superblock.disk
                    &&& disk_guid == d[j].superblock.disk_guid
                };
            assert(is_duplicate(d, j));
            let i = choose|i: int| 0 <= i < j < d.len() && #[trigger] same_disk(d[i], d[j]);
            assert(has_duplicate(d));
        },
        _ => {},
    }
}

/// The paths of a cache are those of its devices, in order of the numbers of the disks.
pub proof fn law_paths_in_order(
    d: Seq<DiscoveredDevice>,
    guid: CacheGuid,
    order: Seq<int>,
    paths: Seq<String>,
    x: int,
    y: int,
)
    requires
        are_paths(d, guid, order, paths),
        0 <= x < y < order.len(),
    ensures
        paths.len() == order.len(),
        paths[x]@ == d[order[x]].device_path@,
        d[order[x]].superblock.cache_guid == guid,
        d[order[x]].superblock.disk.0 <= d[order[y]].superblock.disk.0,
{
    let p = choose|p: int|
        {
            &&& #[trigger] is_first_primary(d, guid, p)
            &&& forall|i: int|
                order.contains(i) <==> #[trigger] is_member(d, guid, known_disks(d, p), i)
        };
    assert(order.contains(order[x]));
    assert(is_member(d, guid, known_disks(d, p), order[x]));
    law_disk_order(d[order[x]].superblock, d[order[y]].superblock);
    assert(place(d[order[x]].superblock) < place(d[order[y]].superblock));
}

} // verus!
