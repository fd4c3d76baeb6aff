use consciousness_sim::energy::advance_flow;

#[test]
fn flow_timer_counts_engaged_ticks() {
    assert_eq!(advance_flow(0, true, 15), (1, false));
    assert_eq!(advance_flow(14, true, 15), (15, true));
    assert_eq!(advance_flow(20, true, 15), (21, true));
}

#[test]
fn flow_timer_decays_by_two_without_engagement() {
    assert_eq!(advance_flow(16, false, 15), (14, false));
    assert_eq!(advance_flow(17, false, 15), (15, true));
    assert_eq!(advance_flow(1, false, 15), (0, false));
    assert_eq!(advance_flow(0, false, 15), (0, false));
}

#[test]
fn flow_enters_only_after_threshold_engaged_ticks() {
    let mut timer = 0u32;
    let mut active = false;
    for tick in 1..=15u32 {
        let (t, a) = advance_flow(timer, true, 15);
        timer = t;
        active = a;
        assert_eq!(active, tick >= 15);
    }
    assert!(active);
}
