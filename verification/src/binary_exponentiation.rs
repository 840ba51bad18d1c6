//! Exponentiation by repeated squaring.

use vstd::arithmetic::power::{
    lemma0_pow,
    lemma_pow0,
    lemma_pow1,
    lemma_pow_adds,
    lemma_pow_increases,
    pow,
};
use vstd::arithmetic::power2::{lemma2_to64, lemma2_to64_rest, lemma_pow2_adds, lemma_pow2_strictly_increases, pow2};
use vstd::prelude::*;

verus! {

/// What `bipow_rec` computes for the exponent `b`: two to the power `b`, or
/// one if `b` is negative. The base plays no part in it.
pub open spec fn power_of_two_or_one(b: int) -> int {
    if b >= 0 {
        pow2(b as nat) as int
    } else {
        1
    }
}

/// Squares its way up recursively by halving the exponent `b`, doubling the
/// result at every odd exponent. The base `a` is never used, so the result
/// is two to the power `b`; a negative exponent gives one.
pub fn bipow_rec(a: i64, b: i64) -> (r: i64)
    requires
        b <= 62,
    ensures
        r == power_of_two_or_one(b as int),
    decreases
            (if b < 0 {
                -b
            } else {
                b as int
            }),
{
    if b == 0 {
        proof {
            lemma2_to64();
        }
        return 1;
    }
    let res: i64 = bipow_rec(a, b / 2);
    proof {
        lemma2_to64();
        lemma2_to64_rest();
        if b > 0 {
            let half = (b / 2) as nat;
            lemma_pow2_adds(half, half);
            lemma_pow2_adds(2 * half, 1);
            assert(pow2(2 * half) == pow2(half) * pow2(half));
            assert(pow2(2 * half + 1) == pow2(2 * half) * 2);
            if 2 * half < 62 {
                lemma_pow2_strictly_increases(2 * half, 62);
            }
            let square = pow2(2 * half);
            assert(res * res == square) by (nonlinear_arith)
                requires
                    res == pow2(half),
                    square == pow2(half) * pow2(half),
            ;
            if b % 2 == 1 {
                assert(b == 2 * half + 1);
                lemma_pow2_strictly_increases(2 * half + 1, 62);
            } else {
                assert(b == 2 * half);
            }
        } else {
            assert(b / 2 <= 0);
            assert(res * res == 1) by (nonlinear_arith)
                requires
                    res == 1,
            ;
        }
    }
    if b % 2 == 1 {
        return res * res * 2;
    } else {
        return res * res;
    }
}

/// The least power of two above `b`.
pub open spec fn power_of_two_above(b: nat) -> nat
    decreases b,
{
    if b == 0 {
        1
    } else {
        2 * power_of_two_above(b / 2)
    }
}

/// The least power of two above a number is at least one.
pub proof fn lemma_power_of_two_above_positive(b: nat)
    ensures
        power_of_two_above(b) >= 1,
    decreases b,
{
    if b > 0 {
        lemma_power_of_two_above_positive(b / 2);
    }
}

/// The absolute value of `x`.
pub open spec fn magnitude(x: int) -> int {
    if x < 0 {
        -x
    } else {
        x
    }
}

/// The magnitude of a power is the power of the magnitude.
pub proof fn lemma_magnitude_of_power(a: int, e: nat)
    ensures
        magnitude(pow(a, e)) == pow(magnitude(a), e),
    decreases e,
{
    if e == 0 {
        lemma_pow0(a);
        lemma_pow0(magnitude(a));
    } else {
        lemma_magnitude_of_power(a, (e - 1) as nat);
        lemma_pow_adds(a, 1, (e - 1) as nat);
        lemma_pow_adds(magnitude(a), 1, (e - 1) as nat);
        lemma_pow1(a);
        lemma_pow1(magnitude(a));
        let rest = pow(a, (e - 1) as nat);
        assert(magnitude(a * rest) == magnitude(a) * magnitude(rest)) by (nonlinear_arith);
    }
}

/// If a power of the magnitude of `a` fits in an `i64`, so does every lower
/// power of `a`.
pub proof fn lemma_lower_power_fits(a: int, e: nat, top: nat)
    requires
        e <= top,
        pow(magnitude(a), top) <= i64::MAX,
    ensures
        -i64::MAX <= pow(a, e) <= i64::MAX,
{
    lemma_magnitude_of_power(a, e);
    if a == 0 {
        if e == 0 {
            lemma_pow0(a);
        } else {
            lemma0_pow(e);
        }
    } else {
        lemma_pow_increases(magnitude(a) as nat, e, top);
    }
}

/// `a` to the power `b` by repeated squaring; one for an exponent that is
/// not positive. The loop squares once more than the result needs, so what
/// has to fit is `a` raised to the least power of two above `b`.
pub fn bipow(a: i64, b: i64) -> (r: i64)
    requires
        b > 0 ==> pow(magnitude(a as int), power_of_two_above(b as nat)) <= i64::MAX,
    ensures
        b > 0 ==> r == pow(a as int, b as nat),
        b <= 0 ==> r == 1,
{
    let ghost a0 = a as int;
    let ghost b0 = b as int;
    let ghost top = if b > 0 {
        power_of_two_above(b as nat)
    } else {
        1
    };
    let ghost mut m: nat = 1;
    let ghost mut e: nat = 0;
    let mut a: i64 = a;
    let mut b: i64 = b;
    let mut res: i64 = 1;
    proof {
        lemma_pow0(a0);
        lemma_pow1(a0);
    }
    while b > 0
        invariant
            b0 > 0 ==> pow(magnitude(a0), top) <= i64::MAX,
            b0 > 0 ==> top == power_of_two_above(b0 as nat),
            b0 <= 0 ==> b == b0 && res == 1,
            b0 > 0 ==> b >= 0,
            b0 > 0 ==> a == pow(a0, m),
            b0 > 0 ==> res == pow(a0, e),
            b0 > 0 ==> e < m,
            b0 > 0 ==> e + b * m == b0,
            b0 > 0 ==> m * power_of_two_above(b as nat) == top,
        decreases b,
    {
        let ghost half = (b / 2) as nat;
        proof {
            assert(b & 1 == b % 2 && (b >> 1u32) == b / 2) by (bit_vector)
                requires
                    b > 0,
            ;
            assert(power_of_two_above(b as nat) == 2 * power_of_two_above(half));
            lemma_power_of_two_above_positive(half);
            assert(2 * m <= top && 2 * m * power_of_two_above(half) == top) by (nonlinear_arith)
                requires
                    m * (2 * power_of_two_above(half)) == top,
                    power_of_two_above(half) >= 1,
                    m >= 1,
            ;
            lemma_pow_adds(a0, e, m);
            lemma_pow_adds(a0, m, m);
            lemma_lower_power_fits(a0, e + m, top);
            lemma_lower_power_fits(a0, 2 * m, top);
            if b % 2 == 1 {
                assert(e + b * m == (e + m) + half * (2 * m)) by (nonlinear_arith)
                    requires
                        b == 2 * half + 1,
                ;
            } else {
                assert(e + b * m == e + half * (2 * m)) by (nonlinear_arith)
                    requires
                        b == 2 * half,
                ;
            }
        }
        if b & 1 == 1 {
            res *= a;
            proof {
                e = e + m;
            }
        }
        a = a * a;
        b >>= 1;
        proof {
            m = 2 * m;
        }
    }
    proof {
        if b0 > 0 {
            assert(e == b0) by (nonlinear_arith)
                requires
                    e + b * m == b0,
                    b == 0,
            ;
        }
    }
    res
}

} // verus!
