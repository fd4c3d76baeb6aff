//! Names under which the analyzer's numeric phase and entropy codes are
//! reported.
use vstd::prelude::*;

verus! {

/// The name of a phase code: 0 growth, 1 stability, 2 crisis, 3 recovery;
/// any other code reads as stability.
pub open spec fn phase_name(phase: u8) -> Seq<char> {
    if phase == 0 {
        "growth"@
    } else if phase == 2 {
        "crisis"@
    } else if phase == 3 {
        "recovery"@
    } else {
        "stability"@
    }
}

/// The name of an entropy label code: 0 settled, 1 active, 2 turbulent;
/// any other code reads as settled.
pub open spec fn entropy_name(label: u8) -> Seq<char> {
    if label == 1 {
        "active"@
    } else if label == 2 {
        "turbulent"@
    } else {
        "settled"@
    }
}

/// The name of a phase code.
pub fn phase_label(phase: u8) -> (name: &'static str)
    ensures
        name@ == phase_name(phase),
{
    match phase {
        0 => "growth",
        1 => "stability",
        2 => "crisis",
        3 => "recovery",
        _ => "stability",
    }
}

/// The name of an entropy label code.
pub fn entropy_label(label: u8) -> (name: &'static str)
    ensures
        name@ == entropy_name(label),
{
    match label {
        0 => "settled",
        1 => "active",
        2 => "turbulent",
        _ => "settled",
    }
}

} // verus!
