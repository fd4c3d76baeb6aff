use consciousness_sim::analyzer::{advance_phase, cascade_path};

#[test]
fn phase_transitions() {
    // volatile → crisis, whatever came before
    assert_eq!(advance_phase(1, 7, true, true), (2, 1));
    assert_eq!(advance_phase(2, 7, true, false), (2, 8));
    // trending right after a crisis → recovery, otherwise growth
    assert_eq!(advance_phase(2, 3, false, true), (3, 1));
    assert_eq!(advance_phase(3, 1, false, true), (0, 1));
    assert_eq!(advance_phase(0, 4, false, true), (0, 5));
    // neither → stability
    assert_eq!(advance_phase(1, 9, false, false), (1, 10));
    assert_eq!(advance_phase(0, 9, false, false), (1, 1));
}

#[test]
fn recovery_only_after_crisis() {
    for prev in 0u8..4 {
        for &volatile in &[false, true] {
            for &trending in &[false, true] {
                let (phase, _) = advance_phase(prev, 0, volatile, trending);
                assert!(phase <= 3);
                if phase == 3 {
                    assert_eq!(prev, 2);
                }
            }
        }
    }
}

#[test]
fn cascade_path_two_levels() {
    // 0 → 1, 0 → 2, 1 → 3, 1 → 0, 2 → 3, 2 → 2 (self), 3 → 0
    let mut linked = vec![vec![false; 4]; 4];
    linked[0][1] = true;
    linked[0][2] = true;
    linked[0][0] = true;
    linked[1][3] = true;
    linked[1][0] = true;
    linked[2][3] = true;
    linked[2][2] = true;
    linked[3][0] = true;
    let strong = vec![true, false, true, true];
    let moderate = vec![true, true, true, true];
    let path = cascade_path(&linked, 0, &strong, &moderate);
    assert_eq!(path, vec![(2, 0), (3, 1), (3, 1)]);
}

#[test]
fn cascade_path_nothing_linked() {
    let linked = vec![vec![false; 3]; 3];
    let flags = vec![true; 3];
    assert!(cascade_path(&linked, 1, &flags, &flags).is_empty());
}

#[test]
fn phases_advance_together() {
    use_advance_phases();
}

fn use_advance_phases() {
    let mut phases = vec![1u8, 2, 2, 3, 0];
    let mut durations = vec![4u32, 2, 6, 1, 9];
    let volatile = vec![false, false, true, false, false];
    let trending = vec![false, true, false, true, true];
    consciousness_sim::analyzer::advance_phases(&mut phases, &mut durations, &volatile, &trending);
    assert_eq!(phases, vec![1, 3, 2, 0, 0]);
    assert_eq!(durations, vec![5, 1, 7, 1, 10]);
}
