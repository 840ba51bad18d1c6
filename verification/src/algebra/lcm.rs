//! Least common multiple.

use crate::algebra::gcd::{div_trunc, euclid, euclid_safe, gcd, quotient};
use vstd::prelude::*;

verus! {

/// The least common multiple of `a` and `b`: their product divided by their
/// greatest common divisor.
pub fn lcm(a: i64, b: i64) -> (m: i64)
    requires
        euclid_safe(a as int, b as int),
        euclid(a as int, b as int) != 0,
        i64::MIN <= a * b <= i64::MAX,
        !(a * b == i64::MIN && euclid(a as int, b as int) == -1),
    ensures
        m == div_trunc(a * b, euclid(a as int, b as int)),
{
    quotient(a * b, gcd(a, b))
}

} // verus!
