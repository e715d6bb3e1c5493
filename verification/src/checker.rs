//! The constant-product invariant, computed and compared around swaps.

use vstd::prelude::*;
use crate::errors::CustomError;

verus! {

/// The constant-product invariant of a pair of reserves, widened so the
/// product of two 64-bit quantities cannot overflow.
pub fn compute_invariant(reserve_a: u64, reserve_b: u64) -> (r: u128)
    ensures
        r as int == reserve_a as int * reserve_b as int,
{
    proof {
        assert(reserve_a as int * reserve_b as int <= u128::MAX as int) by (nonlinear_arith)
            requires
                reserve_a as int <= u64::MAX as int,
                reserve_b as int <= u64::MAX as int,
        ;
    }
    reserve_a as u128 * reserve_b as u128
}

/// Accepts exactly when the invariant did not decrease across a trade.
pub fn check_non_decreasing(pre: u128, post: u128) -> (r: Result<(), CustomError>)
    ensures
        r is Ok <==> post >= pre,
        r matches Err(e) ==> e == CustomError::InvariantViolation,
{
    if post < pre {
        Err(CustomError::InvariantViolation)
    } else {
        Ok(())
    }
}

} // verus!
