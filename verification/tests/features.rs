use zettacache::features::{
    check_features, supported_features, FeatureError, FeatureName, FeatureType,
};
use zettacache::superblock::supported_flags;

fn names(list: &[&str]) -> Vec<FeatureName> {
    list.iter().map(|n| FeatureName(n.to_string())).collect()
}

#[test]
fn supported_features_are_accepted() {
    assert!(check_features(&supported_flags()).is_ok());
}

#[test]
fn features_that_can_be_added_later_may_be_missing() {
    let flags = names(&[
        "com.delphix:slab_info_spacemap_entries",
        "com.delphix:slab_allocator",
    ]);
    assert!(check_features(&flags).is_ok());
}

#[test]
fn unknown_feature_is_refused() {
    let mut flags = supported_flags();
    flags.push(FeatureName("com.example:other".to_string()));
    let errors = check_features(&flags).unwrap_err().errors;
    assert_eq!(errors.len(), 1);
    match &errors[0] {
        FeatureError::Unknown(name) => assert_eq!(name.0, "com.example:other"),
        FeatureError::NonUpgradeable(_) => panic!("wrong error"),
    }
}

#[test]
fn missing_feature_is_refused() {
    let flags = names(&["com.delphix:slab_allocator"]);
    let errors = check_features(&flags).unwrap_err().errors;
    assert_eq!(errors.len(), 1);
    match &errors[0] {
        FeatureError::NonUpgradeable(name) => {
            assert_eq!(name.0, "com.delphix:slab_info_spacemap_entries")
        }
        FeatureError::Unknown(_) => panic!("wrong error"),
    }
}

#[test]
fn all_errors_are_listed() {
    let flags = names(&["a", "b"]);
    let errors = check_features(&flags).unwrap_err().errors;
    assert_eq!(errors.len(), 4);
}

#[test]
fn supported_features_have_types() {
    let features = supported_features();
    assert_eq!(features.len(), 6);
    assert_eq!(features[0].name.0, "com.delphix:slab_info_spacemap_entries");
    assert_eq!(features[0].info, FeatureType::NonUpgradeable);
    assert_eq!(features[1].info, FeatureType::NonUpgradeable);
    assert_eq!(features[2].info, FeatureType::Upgradeable);
}
