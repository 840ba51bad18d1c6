//! Euclid's algorithm on signed integers, with the remainder that truncates
//! towards zero.

use vstd::prelude::*;

verus! {

/// The remainder of the division that truncates towards zero: it has the
/// sign of `a`, or is zero.
pub open spec fn rem_trunc(a: int, b: int) -> int {
    if a >= 0 {
        a % b
    } else {
        -((-a) % b)
    }
}

/// The quotient of the division that truncates towards zero.
pub open spec fn div_trunc(a: int, b: int) -> int {
    if a >= 0 {
        a / b
    } else {
        -((-a) / b)
    }
}

/// The absolute value of `x`.
pub open spec fn abs(x: int) -> int {
    if x < 0 {
        -x
    } else {
        x
    }
}

/// What Euclid's algorithm arrives at when it starts from `a` and `b` and
/// replaces the pair by `b` and the truncating remainder of `a` by `b` until
/// the second number is zero.
pub open spec fn euclid(a: int, b: int) -> int
    decreases abs(b),
{
    if b == 0 {
        a
    } else {
        euclid(b, rem_trunc(a, b))
    }
}

/// `d` divides `n`.
pub open spec fn divides(d: int, n: int) -> bool {
    exists|k: int| n == #[trigger] (k * d)
}

/// The pair can be divided with remainder in `i64` at every step of
/// Euclid's algorithm: it is neither `(i64::MIN, -1)` nor `(-1, i64::MIN)`.
pub open spec fn euclid_safe(a: int, b: int) -> bool {
    &&& !(a == i64::MIN && b == -1)
    &&& !(a == -1 && b == i64::MIN)
}

/// The truncating remainder is smaller in absolute value than the divisor
/// and no larger than the dividend.
pub proof fn lemma_rem_trunc_bound(a: int, b: int)
    requires
        b != 0,
    ensures
        abs(rem_trunc(a, b)) < abs(b),
        abs(rem_trunc(a, b)) <= abs(a),
        a == div_trunc(a, b) * b + rem_trunc(a, b),
{
    let m = abs(a);
    assert(0 <= m % b < abs(b));
    assert(m == (m / b) * b + m % b) by (nonlinear_arith)
        requires
            b != 0,
    ;
    if b > 0 {
        assert(m % b <= m) by (nonlinear_arith)
            requires
                b > 0,
                m >= 0,
        ;
    } else {
        assert(m % b <= m) by (nonlinear_arith)
            requires
                b < 0,
                m >= 0,
                m == (m / b) * b + m % b,
                0 <= m % b < -b,
        ;
    }
    if a < 0 {
        assert(-((m / b) * b) == (-(m / b)) * b) by (nonlinear_arith);
    }
}

/// Euclid's algorithm arrives at a number that divides both inputs and that
/// every common divisor of them divides: up to its sign it is their greatest
/// common divisor.
pub proof fn lemma_euclid_is_greatest_common_divisor(a: int, b: int)
    ensures
        divides(euclid(a, b), a),
        divides(euclid(a, b), b),
        forall|d: int| divides(d, a) && divides(d, b) ==> #[trigger] divides(d, euclid(a, b)),
    decreases abs(b),
{
    let g = euclid(a, b);
    if b == 0 {
        assert(a == 1 * g);
        assert(b == 0 * g);
    } else {
        let r = rem_trunc(a, b);
        let q = div_trunc(a, b);
        lemma_rem_trunc_bound(a, b);
        lemma_euclid_is_greatest_common_divisor(b, r);
        let kb = choose|k: int| b == #[trigger] (k * g);
        let kr = choose|k: int| r == #[trigger] (k * g);
        assert(a == (q * kb + kr) * g) by (nonlinear_arith)
            requires
                a == q * b + r,
                b == kb * g,
                r == kr * g,
        ;
        assert forall|d: int| divides(d, a) && divides(d, b) implies #[trigger] divides(d, g) by {
            let ka = choose|k: int| a == #[trigger] (k * d);
            let kd = choose|k: int| b == #[trigger] (k * d);
            assert(r == (ka - q * kd) * d) by (nonlinear_arith)
                requires
                    a == q * b + r,
                    a == ka * d,
                    b == kd * d,
            ;
            assert(divides(d, r));
        }
    }
}

/// The quotient of `a` by `b`, truncated towards zero.
pub fn quotient(a: i64, b: i64) -> (q: i64)
    requires
        b != 0,
        !(a == i64::MIN && b == -1),
    ensures
        q == div_trunc(a as int, b as int),
{
    let q: i64 = a / b;
    proof {
        let m = abs(a as int);
        let n = abs(b as int);
        let x = m / n;
        assert(0 <= x <= m) by (nonlinear_arith)
            requires
                x == m / n,
                m >= 0,
                n > 0,
        ;
        assert(m / (-n) == -x) by (nonlinear_arith)
            requires
                x == m / n,
                m >= 0,
                n > 0,
        ;
        assert(n >= 2 ==> 2 * x <= m) by (nonlinear_arith)
            requires
                x == m / n,
                m >= 0,
                n > 0,
        ;
        assert(n == 1 ==> x == m) by (nonlinear_arith)
            requires
                x == m / n,
        ;
    }
    q
}

/// The greatest common divisor of `a` and `b` by Euclid's algorithm. The
/// sign of the result follows from the truncating remainder: it is
/// non-negative when both inputs are.
pub fn gcd(a: i64, b: i64) -> (g: i64)
    requires
        euclid_safe(a as int, b as int),
    ensures
        g == euclid(a as int, b as int),
    decreases abs(b as int),
{
    if b == 0 {
        a
    } else {
        proof {
            lemma_rem_trunc_bound(a as int, b as int);
        }
        gcd(b, a % b)
    }
}

/// The state that the extended algorithm of Euclid arrives at when it starts
/// from the pair `a`, `b` with the coefficient pairs `x`, `y` for `a` and
/// `xx`, `yy` for `b`: the last non-zero remainder and its coefficients.
pub open spec fn bezout_walk(a: int, b: int, x: int, xx: int, y: int, yy: int) -> (int, int, int)
    decreases abs(b),
{
    if b == 0 {
        (a, x, y)
    } else {
        let q = div_trunc(a, b);
        bezout_walk(b, rem_trunc(a, b), xx, x - q * xx, yy, y - q * yy)
    }
}

/// The first component of the walk is what Euclid's algorithm arrives at.
pub proof fn lemma_bezout_walk_is_euclid(a: int, b: int, x: int, xx: int, y: int, yy: int)
    ensures
        bezout_walk(a, b, x, xx, y, yy).0 == euclid(a, b),
    decreases abs(b),
{
    if b != 0 {
        lemma_rem_trunc_bound(a, b);
        let q = div_trunc(a, b);
        lemma_bezout_walk_is_euclid(b, rem_trunc(a, b), xx, x - q * xx, yy, y - q * yy);
    }
}

/// If both numbers of the pair are combinations of `a0` and `b0` with the
/// coefficients carried along, then so is the result of the walk.
pub proof fn lemma_bezout_walk_combines(
    a0: int,
    b0: int,
    a: int,
    b: int,
    x: int,
    xx: int,
    y: int,
    yy: int,
)
    requires
        a == a0 * x + b0 * y,
        b == a0 * xx + b0 * yy,
    ensures
        ({
            let (g, s, t) = bezout_walk(a, b, x, xx, y, yy);
            g == a0 * s + b0 * t
        }),
    decreases abs(b),
{
    if b != 0 {
        lemma_rem_trunc_bound(a, b);
        let q = div_trunc(a, b);
        let r = rem_trunc(a, b);
        assert(r == a0 * (x - q * xx) + b0 * (y - q * yy)) by (nonlinear_arith)
            requires
                a == a0 * x + b0 * y,
                b == a0 * xx + b0 * yy,
                a == q * b + r,
        ;
        lemma_bezout_walk_combines(a0, b0, b, r, xx, x - q * xx, yy, y - q * yy);
    }
}

/// The truncating division splits the absolute value of the dividend.
pub proof fn lemma_trunc_abs(a: int, b: int)
    requires
        b != 0,
    ensures
        abs(a) == abs(div_trunc(a, b)) * abs(b) + abs(rem_trunc(a, b)),
        a == 0 ==> div_trunc(a, b) == 0,
{
    let m = abs(a);
    let q = m / b;
    let r = m % b;
    assert(0 <= r < abs(b));
    assert(m == q * b + r) by (nonlinear_arith)
        requires
            b != 0,
            q == m / b,
            r == m % b,
    ;
    assert(m == abs(q) * abs(b) + r && (m == 0 ==> q == 0)) by (nonlinear_arith)
        requires
            m == q * b + r,
            0 <= r < abs(b),
            m >= 0,
            b != 0,
    ;
}

/// One step of the walk keeps the coefficients small: if `m` bounds the
/// weighted sum of the old coefficients, it bounds that of the new ones, the
/// product that the step forms, and each coefficient involved.
proof fn lemma_coefficient_step(a: int, b: int, x: int, xx: int, m: int)
    requires
        b != 0,
        abs(xx) * abs(a) + abs(x) * abs(b) <= m,
    ensures
        abs(x - div_trunc(a, b) * xx) * abs(b) + abs(xx) * abs(rem_trunc(a, b)) <= m,
        abs(div_trunc(a, b) * xx) <= m,
        abs(x) <= m,
        abs(x - div_trunc(a, b) * xx) <= m,
{
    let q = div_trunc(a, b);
    let r = rem_trunc(a, b);
    lemma_trunc_abs(a, b);
    let aq = abs(q);
    let ab = abs(b);
    let ar = abs(r);
    let ax = abs(x);
    let axx = abs(xx);
    let aa = abs(a);
    assert(abs(q * xx) == aq * axx) by (nonlinear_arith)
        requires
            aq == abs(q),
            axx == abs(xx),
    ;
    assert(abs(x - q * xx) <= ax + aq * axx);
    assert((ax + aq * axx) * ab + axx * ar <= m) by (nonlinear_arith)
        requires
            aa == aq * ab + ar,
            axx * aa + ax * ab <= m,
    ;
    assert(abs(x - q * xx) * ab <= (ax + aq * axx) * ab) by (nonlinear_arith)
        requires
            abs(x - q * xx) <= ax + aq * axx,
            ab >= 0,
    ;
    assert(ax <= m && aq * axx <= m && abs(x - q * xx) <= m) by (nonlinear_arith)
        requires
            (ax + aq * axx) * ab + axx * ar <= m,
            abs(x - q * xx) * ab <= (ax + aq * axx) * ab,
            ab >= 1,
            ax >= 0,
            aq >= 0,
            axx >= 0,
            ar >= 0,
            abs(x - q * xx) >= 0,
    ;
}

/// The extended algorithm of Euclid: the greatest common divisor `g` of `a`
/// and `b` as Euclid's algorithm finds it, together with coefficients `x`
/// and `y` such that `a * x + b * y == g`.
pub fn ext_euclid(a: i64, b: i64) -> (r: (i64, i64, i64))
    requires
        a > i64::MIN,
        b > i64::MIN,
    ensures
        r.0 == euclid(a as int, b as int),
        a * r.1 + b * r.2 == r.0,
        (r.0 as int, r.1 as int, r.2 as int) == bezout_walk(a as int, b as int, 1, 0, 0, 1),
{
    proof {
        lemma_bezout_walk_is_euclid(a as int, b as int, 1, 0, 0, 1);
        lemma_bezout_walk_combines(a as int, b as int, a as int, b as int, 1, 0, 0, 1);
    }
    if b == 0 {
        return (a, 1, 0);
    }
    let ghost a0 = a as int;
    let ghost b0 = b as int;
    let mut a: i64 = a;
    let mut b: i64 = b;
    let mut xx: i64 = 0;
    let mut yy: i64 = 1;
    let mut x: i64 = 1;
    let mut y: i64 = 0;
    proof {
        assert(abs(0) * abs(a0) + abs(1) * abs(b0) == abs(b0)) by (nonlinear_arith);
        assert(abs(1) * abs(a0) + abs(0) * abs(b0) == abs(a0)) by (nonlinear_arith);
    }
    while b != 0
        invariant
            a > i64::MIN,
            b > i64::MIN,
            abs(a0) <= i64::MAX,
            abs(b0) <= i64::MAX,
            abs(xx as int) * abs(a as int) + abs(x as int) * abs(b as int) <= abs(b0),
            abs(yy as int) * abs(a as int) + abs(y as int) * abs(b as int) <= abs(a0),
            bezout_walk(a as int, b as int, x as int, xx as int, y as int, yy as int)
                == bezout_walk(a0, b0, 1, 0, 0, 1),
        decreases abs(b as int),
    {
        proof {
            lemma_rem_trunc_bound(a as int, b as int);
            lemma_coefficient_step(a as int, b as int, x as int, xx as int, abs(b0));
            lemma_coefficient_step(a as int, b as int, y as int, yy as int, abs(a0));
            let q = div_trunc(a as int, b as int);
            let r = rem_trunc(a as int, b as int);
            assert(abs(x - q * xx) * abs(b as int) + abs(xx as int) * abs(r) == abs(xx as int)
                * abs(r) + abs(x - q * xx) * abs(b as int));
        }
        let q: i64 = quotient(a, b);
        let mut t: i64 = b;
        b = a % b;
        a = t;
        t = xx;
        xx = x - q * xx;
        x = t;
        t = yy;
        yy = y - q * yy;
        y = t;
    }
    (a, x, y)
}

} // verus!
