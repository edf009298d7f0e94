use vstd::prelude::*;

verus! {

/// Adds `lhs` and `rhs`, returning at most the value specified by `max`.
pub fn clamped_add(lhs: u32, rhs: u32, max: u32) -> (result: u32)
    ensures
        result == if lhs + rhs > max {
            max as int
        } else {
            lhs + rhs
        },
{
    match lhs.checked_add(rhs) {
        Some(sum) => if sum > max {
            max
        } else {
            sum
        },
        None => max,
    }
}

/// Subtracts `rhs` from `lhs`, returning at least the value specified by `min`.
pub fn clamped_sub(lhs: u32, rhs: u32, min: u32) -> (result: u32)
    ensures
        result == if lhs - rhs < min {
            min as int
        } else {
            lhs - rhs
        },
{
    match lhs.checked_sub(rhs) {
        Some(diff) => if diff < min {
            min
        } else {
            diff
        },
        None => min,
    }
}

} // verus!
