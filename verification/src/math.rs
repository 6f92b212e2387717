//! Rounding division used throughout the pipeline.
//!
//! Heights and column averages follow a round-half-away-from-zero policy on
//! non-negative rationals, i.e. `round(n / d) = floor((2n + d) / 2d)`.

use vstd::prelude::*;

verus! {

/// Mathematical rounding of the non-negative rational `n / d` to the nearest
/// integer, halves rounding up.
pub open spec fn rounded_div(n: int, d: int) -> int {
    (2 * n + d) / (2 * d)
}

/// `rounded_div` never moves the quotient by more than one past the floor.
pub proof fn lemma_rounded_div_bounds(n: int, d: int)
    requires
        n >= 0,
        d >= 1,
    ensures
        n / d <= rounded_div(n, d) <= n / d + 1,
        rounded_div(n, d) <= n,
        rounded_div(n, d) >= 0,
{
    assert(n / d <= (2 * n + d) / (2 * d) <= n / d + 1) by (nonlinear_arith)
        requires
            n >= 0,
            d >= 1,
    ;
    assert((2 * n + d) / (2 * d) <= n) by (nonlinear_arith)
        requires
            n >= 0,
            d >= 1,
    ;
    assert((2 * n + d) / (2 * d) >= 0) by (nonlinear_arith)
        requires
            n >= 0,
            d >= 1,
    ;
}

/// `rounded_div` is monotone in the numerator.
pub proof fn lemma_rounded_div_monotone(n1: int, n2: int, d: int)
    requires
        0 <= n1 <= n2,
        d >= 1,
    ensures
        rounded_div(n1, d) <= rounded_div(n2, d),
{
    assert((2 * n1 + d) / (2 * d) <= (2 * n2 + d) / (2 * d)) by (nonlinear_arith)
        requires
            0 <= n1 <= n2,
            d >= 1,
    ;
}

/// Executable rounding division on wide intermediates.
pub fn rounded_div_u128(n: u128, d: u128) -> (r: u128)
    requires
        d >= 1,
        2 * n + d <= u128::MAX,
        2 * d <= u128::MAX,
    ensures
        r == rounded_div(n as int, d as int),
{
    proof {
        lemma_rounded_div_bounds(n as int, d as int);
    }
    (2 * n + d) / (2 * d)
}

} // verus!
