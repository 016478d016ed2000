//! Exact comparison of tip-to-gas ratios.

use vstd::prelude::*;

verus! {

/// Whether `n1 / d1` is greater than `n2 / d2`, as exact fractions.
pub open spec fn ratio_greater(n1: int, d1: int, n2: int, d2: int) -> bool {
    n1 * d2 > n2 * d1
}

/// Compares two fractions with `num_rational::Ratio::new` and the ordering
/// of `Ratio`. The contract claims that the ordering is that of the exact
/// fractions, whatever the size of the numbers, and leaves out a zero
/// denominator, on which `Ratio::new` panics.
#[verifier::external_body]
pub(crate) fn ratio_gt(n1: u128, d1: u128, n2: u128, d2: u128) -> (greater: bool)
    requires
        d1 > 0,
        d2 > 0,
    ensures
        greater == ratio_greater(n1 as int, d1 as int, n2 as int, d2 as int),
{
    num_rational::Ratio::new(n1, d1) > num_rational::Ratio::new(n2, d2)
}

} // verus!
