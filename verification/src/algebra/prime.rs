//! Prime numbers: trial division, the sieve of Eratosthenes and
//! factorisation.

use vstd::arithmetic::div_mod::{
    lemma_fundamental_div_mod,
    lemma_mod_multiples_basic,
    lemma_mod_multiples_vanish,
};
use vstd::prelude::*;

verus! {

/// `n` is a prime number: at least two, and divisible by nothing between
/// one and itself.
pub open spec fn prime(n: int) -> bool {
    &&& n >= 2
    &&& forall|d: int| 2 <= d < n ==> #[trigger] (n % d) != 0
}

/// The least divisor of `n` that is at least `k`, or `n` if there is none
/// below `n`.
pub open spec fn least_divisor_from(n: int, k: int) -> int
    decreases n - k,
{
    if k >= n {
        n
    } else if n % k == 0 {
        k
    } else {
        least_divisor_from(n, k + 1)
    }
}

/// The least divisor from `k` on divides `n`, lies between `k` and `n`, and
/// nothing between `k` and it divides `n`.
pub proof fn lemma_least_divisor_from(n: int, k: int)
    requires
        2 <= k <= n,
    ensures
        k <= least_divisor_from(n, k) <= n,
        n % least_divisor_from(n, k) == 0,
        forall|d: int| k <= d < least_divisor_from(n, k) ==> #[trigger] (n % d) != 0,
    decreases n - k,
{
    if k >= n {
        assert(n % n == 0) by {
            lemma_mod_multiples_basic(1, n);
        }
    } else if n % k != 0 {
        lemma_least_divisor_from(n, k + 1);
    }
}

/// Divisibility is transitive.
pub proof fn lemma_divides_transitive(a: int, b: int, c: int)
    requires
        a > 0,
        b > 0,
        b % a == 0,
        c % b == 0,
    ensures
        c % a == 0,
{
    lemma_fundamental_div_mod(b, a);
    lemma_fundamental_div_mod(c, b);
    let x = b / a;
    let y = c / b;
    assert(c == (y * x) * a) by (nonlinear_arith)
        requires
            b == a * x,
            c == b * y,
    ;
    lemma_mod_multiples_basic(y * x, a);
}

/// Every number from two on has a prime divisor, and a composite number
/// has one whose square does not exceed it.
pub proof fn lemma_prime_divisor(n: int) -> (p: int)
    requires
        n >= 2,
    ensures
        prime(p),
        2 <= p <= n,
        n % p == 0,
        !prime(n) ==> p * p <= n,
{
    let p = least_divisor_from(n, 2);
    lemma_least_divisor_from(n, 2);
    assert forall|d: int| 2 <= d < p implies #[trigger] (p % d) != 0 by {
        if p % d == 0 {
            lemma_divides_transitive(d, p, n);
        }
    }
    if !prime(n) {
        let d = choose|d: int| 2 <= d < n && #[trigger] (n % d) == 0;
        assert(p <= d);
        lemma_fundamental_div_mod(n, p);
        let q = n / p;
        assert(n == p * q);
        assert(q >= 2 && q <= n) by (nonlinear_arith)
            requires
                n == p * q,
                2 <= p < n,
        ;
        assert(n % q == 0) by {
            assert(n == p * q);
            lemma_mod_multiples_basic(p, q);
        }
        if q < p {
            assert(n % q != 0);
        }
        assert(p * p <= n) by (nonlinear_arith)
            requires
                n == p * q,
                q >= p,
                p >= 2,
        ;
    }
    p
}

/// Checks by trial division whether `n` is prime.
pub fn is_prime(n: u64) -> (r: bool)
    requires
        n < 0xFFFF_FFFE_0000_0001,
    ensures
        r == prime(n as int),
{
    if n < 3 {
        proof {
            if n == 2 {
                assert(prime(2));
            }
        }
        return n == 2;
    }
    if n % 2 == 0 {
        return false;
    }
    let mut i: u64 = 3;
    while i * i <= n
        invariant
            3 <= i <= 0xFFFF_FFFF,
            i % 2 == 1,
            n % 2 == 1,
            3 <= n < 0xFFFF_FFFE_0000_0001,
            (i - 2) * (i - 2) <= n,
            i * i <= 0xFFFF_FFFE_0000_0001,
            forall|d: int| 3 <= d < i && d % 2 == 1 ==> #[trigger] ((n as int) % d) != 0,
        decreases n - i,
    {
        if n % i == 0 {
            proof {
                assert(i < n) by (nonlinear_arith)
                    requires
                        i * i <= n,
                        i >= 3,
                ;
            }
            return false;
        }
        proof {
            assert(i < n && i + 2 <= 0xFFFF_FFFF) by (nonlinear_arith)
                requires
                    i * i <= n,
                    i >= 3,
                    n < 0xFFFF_FFFE_0000_0001,
                    i % 2 == 1,
            ;
            assert((i + 2) * (i + 2) <= 0xFFFF_FFFE_0000_0001) by (nonlinear_arith)
                requires
                    0 <= i + 2 <= 0xFFFF_FFFF,
            ;
        }
        i += 2;
    }
    proof {
        if !prime(n as int) {
            let p = lemma_prime_divisor(n as int);
            assert(p < i) by (nonlinear_arith)
                requires
                    p * p <= n,
                    n < i * i,
                    p >= 2,
                    i >= 3,
            ;
            if p % 2 == 0 {
                lemma_divides_transitive(2, p, n as int);
            }
        }
    }
    true
}

/// What the sieve lists for the limit `n`: the primes up to `n` and, because
/// the marking of composites stops short of `n`, also `n` itself if it is odd.
pub open spec fn listed(n: int, x: int) -> bool {
    &&& 2 <= x <= n
    &&& prime(x) || (x == n && x % 2 == 1)
}

/// The only multiple of `i` from `j` up to but not including `j + i`, where
/// `j` is a multiple of `i`, is `j`.
proof fn lemma_next_multiple(i: int, j: int, m: int)
    requires
        i > 0,
        j % i == 0,
        m % i == 0,
        j <= m < j + i,
    ensures
        m == j,
{
    lemma_fundamental_div_mod(j, i);
    lemma_fundamental_div_mod(m, i);
    let a = j / i;
    let b = m / i;
    assert(a == b) by (nonlinear_arith)
        requires
            j == i * a,
            m == i * b,
            j <= m < j + i,
            i > 0,
    ;
}

/// The sieve of Eratosthenes: the prime numbers up to `n` in increasing
/// order. Composites are marked from the square of each prime up to, but not
/// including, `n`, so an odd `n` closes the list whether it is prime or not.
pub fn sieve(n: usize) -> (res: Vec<u64>)
    requires
        n * n <= usize::MAX,
        n <= u64::MAX,
    ensures
        forall|a: int, b: int| 0 <= a < b < res.len() ==> res[a] < res[b],
        forall|k: int| 0 <= k < res.len() ==> listed(n as int, #[trigger] res[k] as int),
        forall|x: int|
            listed(n as int, x) ==> exists|k: int| 0 <= k < res.len() && #[trigger] res[k] == x,
{
    let mut res: Vec<u64> = Vec::new();
    if n < 2 {
        return res;
    }
    proof {
        assert(n + 2 < usize::MAX) by (nonlinear_arith)
            requires
                n * n <= usize::MAX,
                n >= 2,
                usize::MAX >= 0xFFFF_FFFF,
        ;
        assert(prime(2));
    }
    let mut is_prime: Vec<bool> = vec![true; n + 1];
    res.push(2);
    let mut i: usize = 3;
    proof {
        assert(res[0] == 2);
    }
    while i <= n
        invariant
            2 <= n,
            n * n <= usize::MAX,
            n + 2 < usize::MAX,
            n <= u64::MAX,
            3 <= i <= n + 2,
            i % 2 == 1,
            is_prime.len() == n + 1,
            forall|m: int| 0 <= m <= n && !(#[trigger] is_prime[m]) ==> m < n && !prime(m),
            forall|p: int, m: int|
                3 <= p < i && prime(p) && p * p <= m < n && #[trigger] (m % p) == 0
                    ==> !is_prime[m],
            res.len() >= 1,
            res[0] == 2,
            forall|a: int, b: int| 0 <= a < b < res.len() ==> res[a] < res[b],
            forall|k: int| 0 <= k < res.len() ==> (#[trigger] res[k]) < i,
            forall|k: int| 0 <= k < res.len() ==> listed(n as int, #[trigger] res[k] as int),
            forall|x: int|
                2 <= x < i && listed(n as int, x) ==> exists|k: int|
                    0 <= k < res.len() && #[trigger] res[k] == x,
        decreases n + 2 - i,
    {
        let ghost listed_before = res@;
        proof {
            if !is_prime[i as int] {
                assert(!prime(i as int));
            }
        }
        if is_prime[i] {
            proof {
                if i < n && !prime(i as int) {
                    let p = lemma_prime_divisor(i as int);
                    if p == 2 {
                        assert(i % 2 == 0);
                    }
                    assert(p < i) by (nonlinear_arith)
                        requires
                            p * p <= i,
                            p >= 2,
                    ;
                    assert((i as int) % p == 0);
                    assert(!is_prime[i as int]);
                }
                assert(i * i <= usize::MAX) by (nonlinear_arith)
                    requires
                        i <= n,
                        n * n <= usize::MAX,
                ;
                lemma_mod_multiples_basic(i as int, i as int);
                assert(2 * n <= n * n) by (nonlinear_arith)
                    requires
                        n >= 2,
                ;
            }
            res.push(i as u64);
            let mut j: usize = i * i;
            while j < n
                invariant
                    3 <= i <= n,
                    n + 2 < usize::MAX,
                    2 * n <= usize::MAX,
                    i * i <= j,
                    j % i == 0,
                    is_prime.len() == n + 1,
                    forall|m: int| 0 <= m <= n && !(#[trigger] is_prime[m]) ==> m < n && !prime(m),
                    forall|p: int, m: int|
                        3 <= p < i && prime(p) && p * p <= m < n && #[trigger] (m % p) == 0
                            ==> !is_prime[m],
                    forall|m: int|
                        i * i <= m < j && m < n && #[trigger] (m % (i as int)) == 0
                            ==> !is_prime[m],
                decreases n + i - j,
            {
                proof {
                    assert(i < j) by (nonlinear_arith)
                        requires
                            i * i <= j,
                            i >= 3,
                    ;
                    assert((j as int) % (i as int) == 0);
                    assert forall|m: int|
                        i * i <= m < j + i && m < n && #[trigger] (m % (i as int))
                            == 0 implies m < j || m == j by {
                        if m >= j {
                            lemma_next_multiple(i as int, j as int, m);
                        }
                    }
                    assert((j + i) % (i as int) == 0) by {
                        lemma_mod_multiples_vanish(1, j as int, i as int);
                    }
                }
                is_prime[j] = false;
                j += i;
            }
            proof {
                assert(res@[listed_before.len() as int] == i);
                assert forall|k: int| 0 <= k < res.len() implies listed(
                    n as int,
                    #[trigger] res[k] as int,
                ) by {
                    if k < listed_before.len() {
                        assert(res[k] == listed_before[k]);
                    }
                }
                assert forall|a: int, b: int| 0 <= a < b < res.len() implies res[a] < res[b] by {
                    if b < listed_before.len() {
                        assert(res[a] == listed_before[a]);
                        assert(res[b] == listed_before[b]);
                    } else {
                        assert(res[a] == listed_before[a]);
                    }
                }
            }
        }
        proof {
            assert forall|p: int, m: int|
                3 <= p < i + 2 && prime(p) && p * p <= m < n && #[trigger] (m % p)
                    == 0 implies !is_prime[m] by {
                if p == i + 1 {
                    assert(p % 2 == 0);
                }
            }
            assert forall|x: int| 2 <= x < i + 2 && listed(n as int, x) implies exists|k: int|
                0 <= k < res.len() && #[trigger] res[k] == x by {
                if x < i {
                    let k = choose|k: int|
                        0 <= k < listed_before.len() && #[trigger] listed_before[k] == x;
                    assert(res[k] == listed_before[k]);
                } else if x == i {
                    assert(res.len() > listed_before.len());
                    assert(res@[listed_before.len() as int] == i);
                } else {
                    assert(x == i + 1);
                    assert(x % 2 == 0);
                    assert(!prime(x));
                }
            }
        }
        i += 2;
    }
    res
}

/// The product of the numbers in `s`.
pub open spec fn product(s: Seq<u64>) -> int
    decreases s.len(),
{
    if s.len() == 0 {
        1
    } else {
        product(s.drop_last()) * (s.last() as int)
    }
}

/// Appending a factor multiplies the product by it.
pub proof fn lemma_product_push(s: Seq<u64>, x: u64)
    ensures
        product(s.push(x)) == product(s) * (x as int),
{
    assert(s.push(x).drop_last() =~= s);
}

/// The prime factors of `n` in non-decreasing order, each as often as it
/// divides `n`. Zero is answered by the single factor zero, one by no factor
/// at all.
pub fn prime_factors(n: u64) -> (res: Vec<u64>)
    requires
        n * n <= usize::MAX,
    ensures
        n == 0 ==> res@ == seq![0u64],
        n >= 1 ==> product(res@) == n,
        n >= 1 ==> forall|k: int| 0 <= k < res.len() ==> prime(#[trigger] res[k] as int),
        forall|a: int, b: int| 0 <= a < b < res.len() ==> res[a] <= res[b],
{
    proof {
        assert(n <= usize::MAX) by (nonlinear_arith)
            requires
                n * n <= usize::MAX,
                n >= 0,
        ;
    }
    let p: Vec<u64> = sieve(n as usize);
    let ghost n0 = n as int;
    let mut res: Vec<u64> = Vec::new();
    let mut n: u64 = n;
    let mut i: usize = 0;
    proof {
        if n0 == 0 {
            if p.len() > 0 {
                assert(listed(0, p[0] as int));
            }
        }
        assert forall|k: int| 0 <= k < p.len() implies 2 <= #[trigger] p[k] && p[k] * p[k]
            <= u64::MAX by {
            assert(listed(n0, p[k] as int));
            assert(p[k] * p[k] <= n0 * n0) by (nonlinear_arith)
                requires
                    0 <= p[k] <= n0,
            ;
        }
    }
    while i < p.len() && p[i] * p[i] <= n
        invariant
            n0 * n0 <= usize::MAX,
            forall|k: int| 0 <= k < p.len() ==> 2 <= #[trigger] p[k] && p[k] * p[k] <= u64::MAX,
            n0 == 0 ==> p.len() == 0 && n == 0 && res.len() == 0,
            n0 >= 1 ==> 1 <= n <= n0 && n * product(res@) == n0,
            i <= p.len(),
            forall|a: int, b: int| 0 <= a < b < p.len() ==> p[a] < p[b],
            forall|k: int| 0 <= k < p.len() ==> listed(n0, #[trigger] p[k] as int),
            forall|x: int|
                listed(n0, x) ==> exists|k: int| 0 <= k < p.len() && #[trigger] p[k] == x,
            forall|k: int| 0 <= k < res.len() ==> prime(#[trigger] res[k] as int),
            forall|a: int, b: int| 0 <= a < b < res.len() ==> res[a] <= res[b],
            forall|k: int, t: int|
                0 <= k < res.len() && i <= t < p.len() ==> (#[trigger] res[k]) < (#[trigger] p[t]),
            forall|t: int| 0 <= t < i ==> #[trigger] ((n as int) % (p[t] as int)) != 0,
        decreases p.len() - i,
    {
        let q: u64 = p[i];
        proof {
            assert(listed(n0, q as int));
            assert(q < n0) by (nonlinear_arith)
                requires
                    q * q <= n,
                    n <= n0,
                    q >= 2,
            ;
            assert(prime(q as int));
        }
        while n % q == 0
            invariant
                n0 >= 1,
                q == p[i as int],
                i < p.len(),
                prime(q as int),
                1 <= n <= n0,
                n * product(res@) == n0,
                forall|a: int, b: int| 0 <= a < b < p.len() ==> p[a] < p[b],
                forall|k: int| 0 <= k < p.len() ==> 2 <= #[trigger] p[k],
                forall|k: int| 0 <= k < res.len() ==> prime(#[trigger] res[k] as int),
                forall|a: int, b: int| 0 <= a < b < res.len() ==> res[a] <= res[b],
                forall|k: int| 0 <= k < res.len() ==> (#[trigger] res[k]) <= q,
                forall|k: int, t: int|
                    0 <= k < res.len() && i < t < p.len() ==> (#[trigger] res[k]) < (
                    #[trigger] p[t]),
                forall|t: int| 0 <= t < i ==> #[trigger] ((n as int) % (p[t] as int)) != 0,
            decreases n,
        {
            let ghost before = res@;
            let ghost whole = n as int;
            proof {
                lemma_fundamental_div_mod(n as int, q as int);
                lemma_product_push(before, q);
                let rest = n as int / q as int;
                assert(rest * (product(before) * q) == n0) by (nonlinear_arith)
                    requires
                        whole == q * rest,
                        whole * product(before) == n0,
                ;
                assert(1 <= rest < whole) by (nonlinear_arith)
                    requires
                        whole == q * rest,
                        q >= 2,
                        whole >= 1,
                ;
                assert forall|t: int| 0 <= t < i implies #[trigger] (rest % (p[t] as int))
                    != 0 by {
                    if rest % (p[t] as int) == 0 {
                        assert(whole % rest == 0) by {
                            lemma_mod_multiples_basic(q as int, rest);
                        }
                        lemma_divides_transitive(p[t] as int, rest, whole);
                    }
                }
            }
            n /= q;
            res.push(q);
            proof {
                assert forall|k: int| 0 <= k < res.len() implies prime(#[trigger] res[k] as int) by {
                    if k < before.len() {
                        assert(res[k] == before[k]);
                    }
                }
                assert forall|a: int, b: int| 0 <= a < b < res.len() implies res[a] <= res[b] by {
                    assert(res[a] == before[a]);
                    if b < before.len() {
                        assert(res[b] == before[b]);
                    }
                }
                assert forall|k: int| 0 <= k < res.len() implies (#[trigger] res[k]) <= q by {
                    if k < before.len() {
                        assert(res[k] == before[k]);
                    }
                }
                assert forall|k: int, t: int|
                    0 <= k < res.len() && i < t < p.len() implies (#[trigger] res[k]) < (
                #[trigger] p[t]) by {
                    if k < before.len() {
                        assert(res[k] == before[k]);
                    }
                }
            }
        }
        i += 1;
    }
    if n != 1 {
        let ghost before = res@;
        proof {
            if n0 >= 1 {
                lemma_product_push(before, n);
                assert(1 * (product(before) * n) == n0) by (nonlinear_arith)
                    requires
                        n * product(before) == n0,
                ;
                let q = lemma_prime_divisor(n as int);
                assert(listed(n0, q));
                let t = choose|t: int| 0 <= t < p.len() && #[trigger] p[t] == q;
                assert((n as int) % (p[t] as int) == 0);
                assert(t >= i);
                assert forall|k: int| 0 <= k < before.len() implies (#[trigger] before[k])
                    <= n by {
                    assert(before[k] < p[t]);
                }
                if !prime(n as int) {
                    assert(p[i as int] <= p[t]);
                    assert(p[i as int] * p[i as int] <= n) by (nonlinear_arith)
                        requires
                            p[i as int] <= q,
                            q * q <= n,
                            p[i as int] >= 0,
                    ;
                }
            }
        }
        res.push(n);
        proof {
            if n0 == 0 {
                assert(res@ =~= seq![0u64]);
            } else {
                assert forall|k: int| 0 <= k < res.len() implies prime(#[trigger] res[k] as int) by {
                    if k < before.len() {
                        assert(res[k] == before[k]);
                    }
                }
                assert forall|a: int, b: int| 0 <= a < b < res.len() implies res[a] <= res[b] by {
                    assert(res[a] == before[a]);
                    if b < before.len() {
                        assert(res[b] == before[b]);
                    }
                }
            }
        }
    } else {
        proof {
            assert(1 * product(res@) == product(res@));
        }
    }
    res
}

/// Euler's totient of `n` by its recurrence over the least prime factor
/// `p` of `n`: `p` times the totient of `n / p` if `p` divides `n` more than
/// once, else `p - 1` times that. The totient of one is one.
pub open spec fn totient(n: int) -> int
    decreases n,
{
    if n <= 1 {
        if n == 1 {
            1
        } else {
            0
        }
    } else {
        let p = least_divisor_from(n, 2);
        proof {
            lemma_least_divisor_from(n, 2);
            lemma_fundamental_div_mod(n, p);
            assert(n / p < n) by (nonlinear_arith)
                requires
                    n == p * (n / p) + n % p,
                    n % p == 0,
                    2 <= p <= n,
            ;
        }
        if (n / p) % p == 0 {
            p * totient(n / p)
        } else {
            (p - 1) * totient(n / p)
        }
    }
}

/// A prime that divides `n`, while nothing smaller from two on does, is the
/// least divisor of `n`.
proof fn lemma_least_divisor_is(n: int, p: int)
    requires
        2 <= p <= n,
        n % p == 0,
        forall|d: int| 2 <= d < p ==> #[trigger] (n % d) != 0,
    ensures
        least_divisor_from(n, 2) == p,
{
    lemma_least_divisor_from(n, 2);
    let l = least_divisor_from(n, 2);
    if l < p {
        assert(n % l != 0);
    }
    if p < l {
        assert(n % p != 0);
    }
}

/// The totient of a prime is one less than the prime.
proof fn lemma_totient_of_prime(q: int)
    requires
        prime(q),
    ensures
        totient(q) == q - 1,
{
    lemma_least_divisor_from(q, 2);
    let l = least_divisor_from(q, 2);
    if l < q {
        assert(q % l != 0);
    }
    assert(q / q == 1) by (nonlinear_arith)
        requires
            q >= 2,
    ;
    assert(1int % q == 1) by (nonlinear_arith)
        requires
            q >= 2,
    ;
    assert(totient(1) == 1);
}

/// If no listed prime before position `i` divides `n`, then nothing from two
/// up to but not including the prime at position `i` does.
proof fn lemma_no_small_divisor(p: Seq<u64>, limit: int, n: int, i: int, bound: int)
    requires
        1 <= n <= limit,
        0 <= i <= p.len(),
        forall|a: int, b: int| 0 <= a < b < p.len() ==> p[a] < p[b],
        forall|x: int|
            listed(limit, x) ==> exists|k: int| 0 <= k < p.len() && #[trigger] p[k] == x,
        forall|t: int| 0 <= t < i ==> #[trigger] (n % (p[t] as int)) != 0,
        i < p.len() ==> bound <= p[i],
        i == p.len() ==> bound <= limit + 1,
    ensures
        forall|d: int| 2 <= d < bound ==> #[trigger] (n % d) != 0,
{
    assert forall|d: int| 2 <= d < bound implies #[trigger] (n % d) != 0 by {
        if n % d == 0 {
            let q = lemma_prime_divisor(d);
            lemma_divides_transitive(q, d, n);
            assert(q <= limit) by {
                if q > n {
                    vstd::arithmetic::div_mod::lemma_small_mod(n as nat, q as nat);
                }
            }
            assert(listed(limit, q));
            let t = choose|t: int| 0 <= t < p.len() && #[trigger] p[t] == q;
            if t >= i {
                if i < p.len() {
                    assert(p[i] <= p[t]);
                }
            }
        }
    }
}

/// Euler's totient of `n`: `n` times the product of `1 - 1 / p` over the
/// primes `p` that divide `n`.
pub fn euler_phi(n: u64) -> (phi: u64)
    requires
        1 <= n,
        n * n <= usize::MAX,
    ensures
        phi == totient(n as int),
{
    proof {
        assert(n <= usize::MAX) by (nonlinear_arith)
            requires
                n * n <= usize::MAX,
                n >= 0,
        ;
    }
    let p: Vec<u64> = sieve(n as usize);
    let ghost n0 = n as int;
    let ghost goal = totient(n0);
    let mut n: u64 = n;
    let mut ans: u64 = n;
    let mut i: usize = 0;
    let ghost mut c: int = 1;
    proof {
        assert forall|k: int| 0 <= k < p.len() implies 2 <= #[trigger] p[k] && p[k] * p[k]
            <= u64::MAX by {
            assert(listed(n0, p[k] as int));
            assert(p[k] * p[k] <= n0 * n0) by (nonlinear_arith)
                requires
                    0 <= p[k] <= n0,
            ;
        }
        assert(ans == c * n && ans * totient(n0) == goal * n) by (nonlinear_arith)
            requires
                c == 1,
                ans == n,
                goal == totient(n0),
        ;
    }
    while i < p.len() && p[i] * p[i] <= n
        invariant
            1 <= n <= n0,
            goal == totient(n0),
            forall|k: int| 0 <= k < p.len() ==> 2 <= #[trigger] p[k] && p[k] * p[k] <= u64::MAX,
            i <= p.len(),
            forall|a: int, b: int| 0 <= a < b < p.len() ==> p[a] < p[b],
            forall|k: int| 0 <= k < p.len() ==> listed(n0, #[trigger] p[k] as int),
            forall|x: int|
                listed(n0, x) ==> exists|k: int| 0 <= k < p.len() && #[trigger] p[k] == x,
            forall|t: int| 0 <= t < i ==> #[trigger] ((n as int) % (p[t] as int)) != 0,
            c >= 0,
            ans == c * n,
            ans * totient(n as int) == goal * n,
        decreases p.len() - i,
    {
        let q: u64 = p[i];
        if n % q == 0 {
            let ghost whole = n as int;
            let ghost before = ans as int;
            let ghost rest0 = whole / (q as int);
            let ghost mut a: int = c * (q - 1);
            proof {
                lemma_fundamental_div_mod(whole, q as int);
                assert(rest0 < whole) by (nonlinear_arith)
                    requires
                        whole == q * rest0,
                        q >= 2,
                        whole >= 1,
                ;
                assert(before == q * (c * rest0)) by (nonlinear_arith)
                    requires
                        before == c * whole,
                        whole == q * rest0,
                ;
                lemma_mod_multiples_basic(c * rest0, q as int);
                assert(before % (q as int) == 0) by {
                    assert(before == (c * rest0) * q) by (nonlinear_arith)
                        requires
                            before == q * (c * rest0),
                    ;
                }
                lemma_fundamental_div_mod(before, q as int);
                assert(before / (q as int) == c * rest0) by (nonlinear_arith)
                    requires
                        before == q * (c * rest0),
                        before == q * (before / (q as int)) + before % (q as int),
                        before % (q as int) == 0,
                        q >= 2,
                ;
                assert(before - c * rest0 == a * rest0 && a >= 0) by (nonlinear_arith)
                    requires
                        before == q * (c * rest0),
                        a == c * (q - 1),
                        c >= 0,
                        q >= 2,
                ;
                assert((before - c * rest0) * q * totient(whole) == goal * whole * (q - 1))
                    by (nonlinear_arith)
                    requires
                        before == q * (c * rest0),
                        before * totient(whole) == goal * whole,
                ;
            }
            ans -= ans / q;
            while n % q == 0
                invariant
                    q >= 2,
                    q == p[i as int],
                    i < p.len(),
                    1 <= n <= whole <= n0,
                    goal == totient(n0),
                    rest0 == whole / (q as int),
                    rest0 < whole,
                    whole % (q as int) == 0,
                    forall|k: int| 0 <= k < p.len() ==> 2 <= #[trigger] p[k],
                    forall|a: int, b: int| 0 <= a < b < p.len() ==> p[a] < p[b],
                    forall|x: int|
                        listed(n0, x) ==> exists|k: int| 0 <= k < p.len() && #[trigger] p[k] == x,
                    forall|t: int| 0 <= t < i ==> #[trigger] ((n as int) % (p[t] as int)) != 0,
                    a >= 0,
                    n == whole ==> ans == a * rest0,
                    n != whole ==> ans == a * n,
                    (n as int) % (q as int) == 0 ==> ans * q * totient(n as int) == goal * n * (q
                        - 1),
                    (n as int) % (q as int) != 0 ==> ans * totient(n as int) == goal * n,
                    (n as int) % (q as int) != 0 ==> n != whole,
                decreases n,
            {
                let ghost current = n as int;
                let ghost rest = current / (q as int);
                proof {
                    lemma_fundamental_div_mod(current, q as int);
                    assert(1 <= rest < current && q <= current) by (nonlinear_arith)
                        requires
                            current == q * rest,
                            q >= 2,
                            current >= 1,
                    ;
                    lemma_no_small_divisor(p@, n0, current, i as int, q as int);
                    lemma_least_divisor_is(current, q as int);
                    assert forall|t: int| 0 <= t < i implies #[trigger] (rest % (p[t] as int))
                        != 0 by {
                        if rest % (p[t] as int) == 0 {
                            assert(current % rest == 0) by {
                                lemma_mod_multiples_basic(q as int, rest);
                            }
                            lemma_divides_transitive(p[t] as int, rest, current);
                        }
                    }
                    let tc = totient(current);
                    let tr = totient(rest);
                    if rest % (q as int) == 0 {
                        assert(tc == q * tr);
                        assert(ans * q * tr == goal * rest * (q - 1)) by (nonlinear_arith)
                            requires
                                ans * q * tc == goal * current * (q - 1),
                                tc == q * tr,
                                current == q * rest,
                                q >= 2,
                        ;
                    } else {
                        assert(tc == (q - 1) * tr);
                        assert(ans * tr == goal * rest) by (nonlinear_arith)
                            requires
                                ans * q * tc == goal * current * (q - 1),
                                tc == (q - 1) * tr,
                                current == q * rest,
                                q >= 2,
                        ;
                    }
                    if current != whole {
                        assert(ans == (a * q) * rest && a * q >= 0) by (nonlinear_arith)
                            requires
                                ans == a * current,
                                current == q * rest,
                                a >= 0,
                                q >= 2,
                        ;
                        a = a * q;
                    }
                }
                n /= q;
            }
            proof {
                c = a;
            }
        }
        i += 1;
    }
    if n != 1 {
        proof {
            if !prime(n as int) {
                let q = lemma_prime_divisor(n as int);
                assert(listed(n0, q));
                let t = choose|t: int| 0 <= t < p.len() && #[trigger] p[t] == q;
                assert((n as int) % (p[t] as int) == 0);
                assert(t >= i);
                assert(p[i as int] <= p[t]);
                assert(p[i as int] * p[i as int] <= n) by (nonlinear_arith)
                    requires
                        p[i as int] <= q,
                        q * q <= n,
                        p[i as int] >= 0,
                ;
            }
            lemma_totient_of_prime(n as int);
            lemma_mod_multiples_basic(c, n as int);
            lemma_fundamental_div_mod(ans as int, n as int);
            assert(ans / n == c) by (nonlinear_arith)
                requires
                    ans == c * n,
                    ans == n * (ans / n) + ans % n,
                    ans % n == 0,
                    n >= 2,
            ;
            assert(ans - c == goal) by (nonlinear_arith)
                requires
                    ans == c * n,
                    ans * (n - 1) == goal * n,
                    n >= 2,
            ;
        }
        ans -= ans / n;
    } else {
        proof {
            assert(totient(1) == 1);
            assert(ans == goal) by (nonlinear_arith)
                requires
                    ans * 1 == goal * 1,
            ;
        }
    }
    ans
}

} // verus!
