//! Small numeric helpers.
use vstd::prelude::*;

verus! {

/// Clamp a into [min, max]: the lower bound wins below it, the upper above
/// it. The lower bound is checked first, so with min > max an input between
/// them comes out as max.
pub fn clamp(a: i64, min: i64, max: i64) -> (r: i64)
    ensures
        a < min ==> r == min,
        a >= min && a > max ==> r == max,
        min <= a <= max ==> r == a,
{
    if a < min {
        return min;
    } else if a > max {
        return max;
    }
    a
}

} // verus!
