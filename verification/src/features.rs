//! On-disk format features, and which of them this code can work with.
use vstd::prelude::*;

verus! {

/// Whether a cache without the feature can be brought to have it.
#[derive(Debug, Clone, Copy, PartialEq, Eq, Structural)]
pub enum FeatureType {
    Upgradeable,
    NonUpgradeable,
}

#[derive(Debug)]
pub struct FeatureName(pub String);

impl FeatureName {
    pub fn copy(&self) -> (r: FeatureName)
        ensures
            r.0@ == self.0@,
    {
        FeatureName(self.0.clone())
    }
}

#[derive(Debug)]
pub struct Feature {
    pub name: FeatureName,
    pub info: FeatureType,
}

#[derive(Debug)]
pub enum FeatureError {
    Unknown(FeatureName),
    NonUpgradeable(FeatureName),
}

#[derive(Debug)]
pub struct FeatureErrors {
    pub errors: Vec<FeatureError>,
}

/// The supported features, by name.
pub open spec fn supported_names() -> Seq<Seq<char>> {
    seq![
        "com.delphix:slab_info_spacemap_entries"@,
        "com.delphix:slab_allocator"@,
        "com.delphix:slab_size_32mb"@,
        "com.delphix:trimmed_index"@,
        "com.delphix:disk_guids"@,
        "com.delphix:cache_device_removal"@,
    ]
}

/// The first two of the supported features have to be there from the start.
pub open spec fn supported_type(i: int) -> FeatureType {
    if i < 2 {
        FeatureType::NonUpgradeable
    } else {
        FeatureType::Upgradeable
    }
}

pub open spec fn is_supported(name: Seq<char>) -> bool {
    exists|k: int| 0 <= k < 6 && #[trigger] supported_names()[k] == name
}

/// No two supported features have the same name.
pub proof fn law_supported_names_distinct(i: int, j: int)
    requires
        0 <= i < j < 6,
    ensures
        supported_names()[i] != supported_names()[j],
{
    reveal_strlit("com.delphix:slab_info_spacemap_entries");
    reveal_strlit("com.delphix:slab_allocator");
    reveal_strlit("com.delphix:slab_size_32mb");
    reveal_strlit("com.delphix:trimmed_index");
    reveal_strlit("com.delphix:disk_guids");
    reveal_strlit("com.delphix:cache_device_removal");
    assert("com.delphix:slab_allocator"@[17] == 'a');
    assert("com.delphix:slab_size_32mb"@[17] == 's');
    let n = supported_names();
    assert(n[0].len() == 38 && n[1].len() == 26 && n[2].len() == 26 && n[3].len() == 25
        && n[4].len() == 22 && n[5].len() == 32);
}

/// The features that this code supports.
pub fn supported_features() -> (r: Vec<Feature>)
    ensures
        r@.len() == 6,
        forall|i: int|
            0 <= i < 6 ==> (#[trigger] r@[i]).name.0@ == supported_names()[i] && r@[i].info
                == supported_type(i),
{
    let mut r: Vec<Feature> = Vec::new();
    r.push(
        Feature {
            name: FeatureName("com.delphix:slab_info_spacemap_entries".to_owned()),
            info: FeatureType::NonUpgradeable,
        },
    );
    r.push(
        Feature {
            name: FeatureName("com.delphix:slab_allocator".to_owned()),
            info: FeatureType::NonUpgradeable,
        },
    );
    r.push(
        Feature {
            name: FeatureName("com.delphix:slab_size_32mb".to_owned()),
            info: FeatureType::Upgradeable,
        },
    );
    r.push(
        Feature {
            name: FeatureName("com.delphix:trimmed_index".to_owned()),
            info: FeatureType::Upgradeable,
        },
    );
    r.push(
        Feature {
            name: FeatureName("com.delphix:disk_guids".to_owned()),
            info: FeatureType::Upgradeable,
        },
    );
    r.push(
        Feature {
            name: FeatureName("com.delphix:cache_device_removal".to_owned()),
            info: FeatureType::Upgradeable,
        },
    );
    r
}

/// What an error says, by the text of the name.
pub enum FeatureErrorView {
    Unknown(Seq<char>),
    NonUpgradeable(Seq<char>),
}

impl View for FeatureError {
    type V = FeatureErrorView;

    open spec fn view(&self) -> FeatureErrorView {
        match self {
            FeatureError::Unknown(n) => FeatureErrorView::Unknown(n.0@),
            FeatureError::NonUpgradeable(n) => FeatureErrorView::NonUpgradeable(n.0@),
        }
    }
}

pub open spec fn error_views(errors: Seq<FeatureError>) -> Seq<FeatureErrorView> {
    errors.map_values(|e: FeatureError| e@)
}

pub open spec fn name_texts(names: Seq<FeatureName>) -> Seq<Seq<char>> {
    names.map_values(|n: FeatureName| n.0@)
}

/// Whether entry `i` of a list is the first mention of a supported feature.
pub open spec fn accepted(list: Seq<Seq<char>>, i: int) -> bool {
    is_supported(list[i]) && !list.take(i).contains(list[i])
}

/// One error for every one of the first `n` entries that is not supported, or that repeats one
/// that was mentioned before.
pub open spec fn unknown_errors(list: Seq<Seq<char>>, n: int) -> Seq<FeatureErrorView>
    decreases n,
{
    if n <= 0 {
        Seq::empty()
    } else if accepted(list, n - 1) {
        unknown_errors(list, n - 1)
    } else {
        unknown_errors(list, n - 1).push(FeatureErrorView::Unknown(list[n - 1]))
    }
}

/// One error for every one of the first `n` supported features that the list lacks and that it
/// cannot be upgraded to have.
pub open spec fn missing_errors(list: Seq<Seq<char>>, n: int) -> Seq<FeatureErrorView>
    decreases n,
{
    if n <= 0 {
        Seq::empty()
    } else if supported_type(n - 1) == FeatureType::NonUpgradeable && !list.contains(
        supported_names()[n - 1],
    ) {
        missing_errors(list, n - 1).push(FeatureErrorView::NonUpgradeable(supported_names()[n - 1]))
    } else {
        missing_errors(list, n - 1)
    }
}

/// Checks the features of a cache against those that this code supports: every one has to be
/// supported, and those that cannot be added later have to be there.
pub fn check_features(feature_list: &[FeatureName]) -> (r: Result<(), FeatureErrors>)
    ensures
        ({
            let list = name_texts(feature_list@);
            let expected = unknown_errors(list, list.len() as int) + missing_errors(list, 6);
            match r {
                Ok(_) => expected.len() == 0,
                Err(e) => expected.len() > 0 && error_views(e.errors@) == expected,
            }
        }),
{
    let ghost list = name_texts(feature_list@);
    let supported = supported_features();
    // which of the supported features have not been met in the list
    let mut absent: Vec<bool> = vec![true, true, true, true, true, true];
    let mut errors: Vec<FeatureError> = Vec::new();
    let mut i: usize = 0;
    proof {
        assert(error_views(errors@) =~= unknown_errors(list, 0));
    }
    while i < feature_list.len()
        invariant
            i <= feature_list@.len(),
            list == name_texts(feature_list@),
            supported@.len() == 6,
            absent@.len() == 6,
            forall|k: int|
                0 <= k < 6 ==> (#[trigger] supported@[k]).name.0@ == supported_names()[k]
                    && supported@[k].info == supported_type(k),
            forall|k: int|
                0 <= k < 6 ==> (#[trigger] absent@[k] <==> !list.take(i as int).contains(
                    supported_names()[k],
                )),
            error_views(errors@) == unknown_errors(list, i as int),
        decreases feature_list@.len() - i,
    {
        let name = &feature_list[i];
        let mut found: bool = false;
        let mut k: usize = 0;
        let ghost absent0 = absent@;
        while k < 6 && !found
            invariant
                k <= 6,
                supported@.len() == 6,
                absent@.len() == 6,
                forall|j: int|
                    0 <= j < 6 ==> (#[trigger] supported@[j]).name.0@ == supported_names()[j],
                !found ==> absent@ == absent0,
                !found ==> forall|j: int|
                    0 <= j < k ==> !(#[trigger] absent0[j] && supported_names()[j] == name.0@),
                found ==> k < 6 && absent0[k as int] && supported_names()[k as int] == name.0@
                    && absent@ == absent0.update(k as int, false),
            decreases 6 - k + if found { 0int } else { 1int },
        {
            if absent[k] && supported[k].name.0 == name.0 {
                absent.set(k, false);
                found = true;
            } else {
                k += 1;
            }
        }
        proof {
            let before = list.take(i as int);
            let after = list.take(i + 1);
            assert(after =~= before.push(list[i as int]));
            assert(list[i as int] == name.0@);
            assert forall|t: Seq<char>| after.contains(t) <==> before.contains(t) || t
                == name.0@ by {
                if before.contains(t) {
                    let m = choose|m: int| 0 <= m < before.len() && before[m] == t;
                    assert(after[m] == t);
                }
                if t == name.0@ {
                    assert(after[i as int] == t);
                }
                if after.contains(t) {
                    let m = choose|m: int| 0 <= m < after.len() && after[m] == t;
                    if m < i {
                        assert(before[m] == t);
                    }
                }
            }
            if found {
                assert(supported_names()[k as int] == name.0@);
                assert(accepted(list, i as int));
                assert forall|j: int| 0 <= j < 6 implies (#[trigger] absent@[j] <==> !after.contains(
                    supported_names()[j],
                )) by {
                    assert(absent0[j] <==> !before.contains(supported_names()[j]));
                    if j < k {
                        law_supported_names_distinct(j, k as int);
                    } else if j > k {
                        law_supported_names_distinct(k as int, j);
                    }
                }
            } else {
                assert forall|j: int| 0 <= j < 6 implies (#[trigger] absent@[j] <==> !after.contains(
                    supported_names()[j],
                )) by {
                    assert(absent0[j] <==> !before.contains(supported_names()[j]));
                }
                assert(!accepted(list, i as int)) by {
                    if is_supported(list[i as int]) {
                        let j = choose|j: int|
                            0 <= j < 6 && #[trigger] supported_names()[j] == list[i as int];
                        assert(!absent0[j]);
                    }
                }
            }
        }
        if !found {
            let ghost e0 = errors@;
            let e = FeatureError::Unknown(name.copy());
            errors.push(e);
            proof {
                assert(error_views(errors@) =~= error_views(e0).push(e@));
            }
        }
        i += 1;
    }
    let ghost unknown = unknown_errors(list, list.len() as int);
    proof {
        assert(list.take(i as int) =~= list);
        assert(error_views(errors@) =~= unknown + missing_errors(list, 0));
    }
    let mut k: usize = 0;
    while k < 6
        invariant
            k <= 6,
            supported@.len() == 6,
            absent@.len() == 6,
            forall|j: int|
                0 <= j < 6 ==> (#[trigger] supported@[j]).name.0@ == supported_names()[j]
                    && supported@[j].info == supported_type(j),
            forall|j: int|
                0 <= j < 6 ==> (#[trigger] absent@[j] <==> !list.contains(supported_names()[j])),
            error_views(errors@) == unknown + missing_errors(list, k as int),
        decreases 6 - k,
    {
        let ghost e0 = errors@;
        if absent[k] && supported[k].info == FeatureType::NonUpgradeable {
            let e = FeatureError::NonUpgradeable(supported[k].name.copy());
            errors.push(e);
            proof {
                assert(error_views(errors@) =~= error_views(e0).push(e@));
                assert(unknown + missing_errors(list, k + 1) =~= (unknown + missing_errors(
                    list,
                    k as int,
                )).push(e@));
            }
        }
        k += 1;
    }
    if errors.len() > 0 {
        Err(FeatureErrors { errors })
    } else {
        Ok(())
    }
}

/// The features that this code supports are ones that it accepts.
pub proof fn law_supported_features_accepted()
    ensures
        unknown_errors(supported_names(), 6) + missing_errors(supported_names(), 6) == Seq::<
            FeatureErrorView,
        >::empty(),
{
    let list = supported_names();
    reveal_with_fuel(unknown_errors, 7);
    reveal_with_fuel(missing_errors, 7);
    assert forall|i: int| 0 <= i < 6 implies #[trigger] accepted(list, i) by {
        assert(supported_names()[i] == list[i]);
        if list.take(i).contains(list[i]) {
            let j = choose|j: int| 0 <= j < i && list.take(i)[j] == list[i];
            law_supported_names_distinct(j, i);
        }
    }
    assert(accepted(list, 0) && accepted(list, 1) && accepted(list, 2) && accepted(list, 3)
        && accepted(list, 4) && accepted(list, 5));
    assert(list.contains(list[0]));
    assert(list.contains(list[1]));
    assert(unknown_errors(list, 6) + missing_errors(list, 6) =~= Seq::<FeatureErrorView>::empty());
}

/// A feature is reported as unknown exactly if it is not supported, or if it is listed more than
/// once.
pub proof fn law_unknown_is_reported(list: Seq<Seq<char>>, n: int, name: Seq<char>)
    requires
        0 <= n <= list.len(),
    ensures
        unknown_errors(list, n).contains(FeatureErrorView::Unknown(name)) <==> exists|i: int|
            0 <= i < n && (#[trigger] list[i]) == name && !(is_supported(name) && forall|j: int|
                0 <= j < i ==> #[trigger] list[j] != name),
    decreases n,
{
    if n > 0 {
        law_unknown_is_reported(list, n - 1, name);
        let s = unknown_errors(list, n - 1);
        let t = unknown_errors(list, n);
        let e = FeatureErrorView::Unknown(name);
        let first = list.take(n - 1);
        assert(first.contains(list[n - 1]) <==> exists|j: int|
            0 <= j < n - 1 && #[trigger] list[j] == list[n - 1]) by {
            if first.contains(list[n - 1]) {
                let j = choose|j: int| 0 <= j < first.len() && first[j] == list[n - 1];
                assert(list[j] == list[n - 1]);
            }
            if exists|j: int| 0 <= j < n - 1 && #[trigger] list[j] == list[n - 1] {
                let j = choose|j: int| 0 <= j < n - 1 && #[trigger] list[j] == list[n - 1];
                assert(first[j] == list[n - 1]);
            }
        }
        if s.contains(e) {
            let k = choose|k: int| 0 <= k < s.len() && s[k] == e;
            assert(t[k] == e);
        }
        if t.contains(e) {
            let k = choose|k: int| 0 <= k < t.len() && t[k] == e;
            if k < s.len() {
                assert(s[k] == e);
            } else {
                assert(list[n - 1] == name);
            }
        }
        if list[n - 1] == name && !accepted(list, n - 1) {
            assert(t[s.len() as int] == e);
        }
    }
}

/// A feature is reported as missing exactly if it is one that a cache cannot be upgraded to, and
/// it is not listed.
pub proof fn law_missing_is_reported(list: Seq<Seq<char>>, n: int, name: Seq<char>)
    requires
        0 <= n <= 6,
    ensures
        missing_errors(list, n).contains(FeatureErrorView::NonUpgradeable(name)) <==> exists|
            i: int,
        |
            0 <= i < n && i < 2 && (#[trigger] supported_names()[i]) == name && !list.contains(
                name,
            ),
    decreases n,
{
    if n > 0 {
        law_missing_is_reported(list, n - 1, name);
        let s = missing_errors(list, n - 1);
        let t = missing_errors(list, n);
        let e = FeatureErrorView::NonUpgradeable(name);
        if s.contains(e) {
            let k = choose|k: int| 0 <= k < s.len() && s[k] == e;
            assert(t[k] == e);
        }
        if t.contains(e) {
            let k = choose|k: int| 0 <= k < t.len() && t[k] == e;
            if k < s.len() {
                assert(s[k] == e);
            } else {
                assert(supported_names()[n - 1] == name);
            }
        }
        if n - 1 < 2 && supported_names()[n - 1] == name && !list.contains(name) {
            assert(t[s.len() as int] == e);
        }
    }
}

} // verus!
