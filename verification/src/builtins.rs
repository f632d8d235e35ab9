//! Functions that a host may register with the engine.

use vstd::prelude::*;

verus! {

/// The sum of two integers.
pub fn add_int(lhs: i64, rhs: i64) -> (sum: i64)
    requires
        i64::MIN <= lhs + rhs <= i64::MAX,
    ensures
        sum == lhs + rhs,
{
    lhs + rhs
}

} // verus!
