use consciousness_sim::labels::{entropy_label, phase_label};

#[test]
fn phase_labels() {
    assert_eq!(phase_label(0), "growth");
    assert_eq!(phase_label(1), "stability");
    assert_eq!(phase_label(2), "crisis");
    assert_eq!(phase_label(3), "recovery");
    assert_eq!(phase_label(4), "stability");
    assert_eq!(phase_label(255), "stability");
}

#[test]
fn entropy_labels() {
    assert_eq!(entropy_label(0), "settled");
    assert_eq!(entropy_label(1), "active");
    assert_eq!(entropy_label(2), "turbulent");
    assert_eq!(entropy_label(3), "settled");
    assert_eq!(entropy_label(200), "settled");
}
