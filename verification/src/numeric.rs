//! The two constants that the library takes from the `num` crate.

use vstd::prelude::*;

verus! {

/// The additive identity of `i64`, obtained from `num::Zero::zero`, whose
/// implementation for the primitive integers returns the literal `0`.
#[verifier::external_body]
pub(crate) fn zero() -> (z: i64)
    ensures
        z == 0,
{
    num::Zero::zero()
}

/// The largest `i64`, obtained from `num::Bounded::max_value`, whose
/// implementation for the primitive integers returns the type's `MAX`.
#[verifier::external_body]
pub(crate) fn max_value() -> (m: i64)
    ensures
        m == i64::MAX,
{
    num::Bounded::max_value()
}

} // verus!
