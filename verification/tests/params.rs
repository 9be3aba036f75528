//! Parsing and default tests for the node parameter types.

use chainsnap::params::{Algorithm, Pruning, ResealPolicy, SpecType};

#[test]
fn test_spec_type_parsing() {
    assert_eq!(SpecType::Mainnet, SpecType::from_str("frontier").unwrap());
    assert_eq!(SpecType::Mainnet, SpecType::from_str("homestead").unwrap());
    assert_eq!(SpecType::Mainnet, SpecType::from_str("mainnet").unwrap());
    assert_eq!(SpecType::Testnet, SpecType::from_str("testnet").unwrap());
    assert_eq!(SpecType::Testnet, SpecType::from_str("morden").unwrap());
    assert_eq!(SpecType::Olympic, SpecType::from_str("olympic").unwrap());
}

#[test]
fn test_spec_type_default() {
    assert_eq!(SpecType::Mainnet, SpecType::default());
}

#[test]
fn test_spec_type_custom() {
    let parsed = SpecType::from_str("some-chain.json").unwrap();
    assert_eq!(SpecType::Custom("some-chain.json".to_owned()), parsed);
}

#[test]
fn test_pruning_parsing() {
    assert_eq!(Pruning::Auto, Pruning::from_str("auto").unwrap());
    assert_eq!(
        Pruning::Specific(Algorithm::Archive),
        Pruning::from_str("archive").unwrap()
    );
    assert_eq!(
        Pruning::Specific(Algorithm::EarlyMerge),
        Pruning::from_str("earlymerge").unwrap()
    );
    assert_eq!(
        Pruning::Specific(Algorithm::OverlayRecent),
        Pruning::from_str("overlayrecent").unwrap()
    );
    assert_eq!(
        Pruning::Specific(Algorithm::RefCounted),
        Pruning::from_str("refcounted").unwrap()
    );
}

#[test]
fn test_pruning_default() {
    assert_eq!(Pruning::Auto, Pruning::default());
}

#[test]
fn test_pruning_rejects_unknown() {
    assert!(Pruning::from_str("fastest").is_err());
}

#[test]
fn test_pruning_to_algorithm() {
    assert_eq!(Algorithm::OverlayRecent, Algorithm::default_algorithm());
    let candidates = vec![
        (Algorithm::Archive, Some(10u64)),
        (Algorithm::EarlyMerge, None),
        (Algorithm::OverlayRecent, Some(10u64)),
        (Algorithm::RefCounted, Some(3u64)),
    ];
    assert_eq!(
        Algorithm::OverlayRecent,
        Pruning::Auto.to_algorithm(&candidates)
    );
    assert_eq!(
        Algorithm::Archive,
        Pruning::Specific(Algorithm::Archive).to_algorithm(&candidates)
    );
    let all_empty = vec![
        (Algorithm::Archive, None),
        (Algorithm::EarlyMerge, None),
        (Algorithm::OverlayRecent, None),
    ];
    assert_eq!(
        Algorithm::OverlayRecent,
        Pruning::Auto.to_algorithm(&all_empty)
    );
}

#[test]
fn test_reseal_policy_parsing() {
    let none = ResealPolicy { own: false, external: false };
    let own = ResealPolicy { own: true, external: false };
    let ext = ResealPolicy { own: false, external: true };
    let all = ResealPolicy { own: true, external: true };
    assert_eq!(none, ResealPolicy::from_str("none").unwrap());
    assert_eq!(own, ResealPolicy::from_str("own").unwrap());
    assert_eq!(ext, ResealPolicy::from_str("ext").unwrap());
    assert_eq!(all, ResealPolicy::from_str("all").unwrap());
    assert_eq!(
        ResealPolicy::from_str("sometimes").unwrap_err(),
        "Invalid reseal value: sometimes".to_owned()
    );
}

#[test]
fn test_reseal_policy_default() {
    let all = ResealPolicy { own: true, external: true };
    assert_eq!(all, ResealPolicy::default());
}
