use consciousness_sim::personality::{available_profiles, profile_index};

#[test]
fn available_profiles_has_six() {
    assert_eq!(available_profiles().len(), 6);
}

#[test]
fn profile_names_in_order() {
    assert_eq!(
        available_profiles(),
        vec!["contemplative", "action-oriented", "empathic", "analytical", "resilient", "seeker"]
    );
}

#[test]
fn profile_index_recognises_profiles() {
    assert_eq!(profile_index("contemplative"), Some(0));
    assert_eq!(profile_index("seeker"), Some(5));
    assert_eq!(profile_index("analytical"), Some(3));
    assert_eq!(profile_index("unknown"), None);
    assert_eq!(profile_index(""), None);
    assert_eq!(profile_index("Seeker"), None);
}
