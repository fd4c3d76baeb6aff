//! The discrete part of the flow-state tracker of the energy system.
use vstd::prelude::*;

verus! {

/// The flow timer of a cluster after one tick: one more while the cluster is
/// engaged, two fewer (not below zero) otherwise.
pub open spec fn flow_timer_after(timer: u32, engaged: bool) -> u32 {
    if engaged {
        (timer + 1) as u32
    } else if timer >= 2 {
        (timer - 2) as u32
    } else {
        0
    }
}

/// Advances a cluster's flow timer by one tick and reports whether the
/// cluster is in flow: its timer has reached `threshold`.
pub fn advance_flow(timer: u32, engaged: bool, threshold: u32) -> (next: (u32, bool))
    requires
        engaged ==> timer < u32::MAX,
    ensures
        next.0 == flow_timer_after(timer, engaged),
        next.1 == (next.0 >= threshold),
{
    let t: u32 = if engaged {
        timer + 1
    } else {
        timer.saturating_sub(2)
    };
    (t, t >= threshold)
}

/// The timer counts engaged ticks up by one and drops by exactly two on
/// any other tick, never below zero; the cluster is in flow exactly when the
/// timer has reached the threshold.
pub proof fn lemma_flow_timer_steps(timer: u32, engaged: bool)
    ensures
        engaged && timer < u32::MAX ==> flow_timer_after(timer, engaged) as int == timer as int + 1,
        !engaged && timer >= 2 ==> flow_timer_after(timer, engaged) as int == timer as int - 2,
        !engaged && timer < 2 ==> flow_timer_after(timer, engaged) == 0,
{
}

/// Flow needs engagement: from a timer below the threshold, a tick without
/// engagement never enters flow, and each engaged tick brings the timer one
/// step closer.
pub proof fn lemma_flow_needs_engagement(timer: u32, engaged: bool, threshold: u32)
    requires
        timer < threshold,
        engaged ==> timer < u32::MAX,
    ensures
        !engaged ==> flow_timer_after(timer, engaged) < threshold,
        engaged ==> flow_timer_after(timer, engaged) == timer + 1,
{
}

} // verus!
