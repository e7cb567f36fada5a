//! The game's source of chance: the global pseudo-random generator of macroquad.

use vstd::prelude::*;

verus! {

/// Draws an integer from `low..high` with `macroquad::rand::gen_range::<i32>`.
///
/// The outside function scales a 32-bit random draw `k / 2^32` into
/// `[low, high)` in `f64` and truncates toward zero. When `high` is
/// positive and `low` is at most zero, the rounding error of the two
/// floating-point steps is smaller than the distance from the exact value
/// to `high`, and truncation toward zero keeps a negative value at or above
/// `low`; for a positive `low` every intermediate value is exact while
/// `high <= 2^20`. On those ranges the contract claims that the result lies
/// in `low..high`; elsewhere (a `high` of zero or less, whose truncation
/// toward zero can reach `high`, or a larger positive range) it claims
/// nothing. Which value comes out depends on the generator's hidden state
/// and is not stated.
#[verifier::external_body]
pub(crate) fn gen_range(low: i32, high: i32) -> (r: i32)
    ensures
        low < high && 0 < high && (low <= 0 || high <= 1048576) ==> low <= r < high,
{
    macroquad::rand::gen_range(low, high)
}

} // verus!
