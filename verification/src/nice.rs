//! The clamped niceness arithmetic.
//!
//! Niceness is a scheduling hint in the closed range [-20, 19].  An
//! adjustment is added to the current value; the sign of the adjustment
//! selects which bound is enforced: an upward adjustment saturates at 19,
//! a downward one at -20.

use vstd::prelude::*;

verus! {

/// The niceness that results from applying `adj` to `old`: the sum,
/// saturated at 19 when the adjustment is upward and at -20 when it is
/// downward.
pub open spec fn spec_new_niceness(old: int, adj: int) -> int {
    if adj >= 0 {
        if old + adj <= 19 {
            old + adj
        } else {
            19
        }
    } else {
        if old + adj >= -20 {
            old + adj
        } else {
            -20
        }
    }
}

/// Apply a signed adjustment to a niceness value, clamping the result to
/// the niceness range.
pub fn new_niceness(old: i32, adj: i32) -> (r: i32)
    ensures
        r == spec_new_niceness(old as int, adj as int),
{
    let sum: i64 = old as i64 + adj as i64;
    if adj >= 0 {
        if sum <= 19 {
            sum as i32
        } else {
            19
        }
    } else {
        if sum >= -20 {
            sum as i32
        } else {
            -20
        }
    }
}

/// An upward adjustment of an in-range niceness yields the sum saturated
/// at 19, and never lowers the niceness; the result stays in range.
pub proof fn lemma_upward_adjustment(old: int, adj: int)
    requires
        -20 <= old <= 19,
        adj >= 0,
    ensures
        spec_new_niceness(old, adj) == vstd::math::min(old + adj, 19),
        spec_new_niceness(old, adj) >= old,
        -20 <= spec_new_niceness(old, adj) <= 19,
{
}

/// A downward adjustment of an in-range niceness yields the sum saturated
/// at -20, and never raises the niceness; the result stays in range.
pub proof fn lemma_downward_adjustment(old: int, adj: int)
    requires
        -20 <= old <= 19,
        adj < 0,
    ensures
        spec_new_niceness(old, adj) == vstd::math::max(old + adj, -20),
        spec_new_niceness(old, adj) <= old,
        -20 <= spec_new_niceness(old, adj) <= 19,
{
}

/// A large enough adjustment saturates exactly at the bound, from any
/// in-range starting value: +39 or more always yields 19, -39 or less
/// always yields -20.
pub proof fn lemma_saturation(old: int, adj: int)
    requires
        -20 <= old <= 19,
    ensures
        adj >= 39 ==> spec_new_niceness(old, adj) == 19,
        adj <= -39 ==> spec_new_niceness(old, adj) == -20,
{
}

} // verus!
