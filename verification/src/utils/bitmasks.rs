//! Bit tricks on `i32` masks.

use vstd::prelude::*;

verus! {

/// The number of one bits in the binary representation of `n`.
pub open spec fn bit_count(n: nat) -> nat
    decreases n,
{
    if n == 0 {
        0
    } else {
        (n % 2) + bit_count(n / 2)
    }
}

/// Clearing the lowest set bit of a positive number removes exactly one bit.
pub proof fn lemma_clear_lowest_bit(n: i32)
    requires
        n > 0,
    ensures
        (n & ((n - 1) as i32)) >= 0,
        bit_count((n & ((n - 1) as i32)) as nat) + 1 == bit_count(n as nat),
    decreases n,
{
    let cleared = n & ((n - 1) as i32);
    assert(n % 2 == n & 1 && (n >> 1u32) == n / 2) by (bit_vector)
        requires
            n > 0,
    ;
    if n % 2 == 1 {
        assert(cleared + 1 == n as int) by (bit_vector)
            requires
                n > 0,
                n & 1 == 1,
                cleared == n & ((n - 1) as i32),
        ;
        assert((n - 1) / 2 == n / 2);
        if n > 1 {
            assert(bit_count((n - 1) as nat) == bit_count(((n - 1) / 2) as nat));
        }
    } else {
        let half: i32 = n >> 1u32;
        let inner = half & ((half - 1) as i32);
        assert(half > 0 && cleared >= 0 && cleared & 1 == 0 && (cleared >> 1u32) == inner)
            by (bit_vector)
            requires
                n > 0,
                n & 1 == 0,
                half == n >> 1u32,
                cleared == n & ((n - 1) as i32),
                inner == half & ((half - 1) as i32),
        ;
        assert(cleared % 2 == cleared & 1 && (cleared >> 1u32) == cleared / 2) by (bit_vector)
            requires
                cleared >= 0,
        ;
        lemma_clear_lowest_bit(half);
        if cleared > 0 {
            assert(bit_count(cleared as nat) == bit_count((cleared / 2) as nat));
        }
    }
}

/// The lowest set bit of `n`: a single bit that is set in `n` while no lower
/// bit is. Zero for zero.
pub fn lsone(n: i32) -> (r: i32)
    requires
        n > i32::MIN,
    ensures
        r == n & ((-n) as i32),
        n == 0 ==> r == 0,
        n != 0 ==> r > 0 && r & ((r - 1) as i32) == 0 && n & r == r && n & ((r - 1) as i32) == 0,
{
    let r: i32 = n & -n;
    assert(n != 0 ==> r > 0 && r & ((r - 1) as i32) == 0 && n & r == r && n & ((r - 1) as i32)
        == 0) by (bit_vector)
        requires
            n > -2147483648i32,
            r == n & ((-n) as i32),
    ;
    assert(n == 0 ==> r == 0) by (bit_vector)
        requires
            r == n & ((-n) as i32),
    ;
    r
}

/// `s` is a non-empty subset of the bits of `mask`.
pub open spec fn is_submask(s: i32, mask: i32) -> bool {
    s > 0 && s & mask == s
}

/// All non-empty subsets of the bits of a positive `mask`, from `mask`
/// itself downwards. Nothing for a mask that is not positive.
pub fn enumerate_subsets(mask: i32) -> (res: Vec<i32>)
    ensures
        forall|i: int| 0 <= i < res.len() ==> is_submask(#[trigger] res[i], mask),
        forall|i: int, j: int| 0 <= i < j < res.len() ==> res[i] > res[j],
        forall|s: i32| is_submask(s, mask) && mask > 0 ==> #[trigger] res@.contains(s),
        mask <= 0 ==> res.len() == 0,
        mask > 0 ==> res.len() > 0 && res[0] == mask,
{
    let mut subset: i32 = mask;
    let mut res: Vec<i32> = Vec::new();
    assert(mask > 0 ==> mask & mask == mask) by (bit_vector);
    assert forall|s: i32| is_submask(s, mask) && mask > 0 implies s <= mask by {
        assert(s & mask == s && mask > 0 && s > 0 ==> s <= mask) by (bit_vector);
    }
    while subset > 0
        invariant
            0 <= subset <= mask || (subset == mask && mask <= 0),
            subset > 0 ==> subset & mask == subset,
            forall|i: int| 0 <= i < res.len() ==> is_submask(#[trigger] res[i], mask),
            forall|i: int| 0 <= i < res.len() ==> (#[trigger] res[i]) > subset,
            forall|i: int, j: int| 0 <= i < j < res.len() ==> res[i] > res[j],
            forall|s: i32|
                is_submask(s, mask) && mask > 0 && s > subset ==> #[trigger] res@.contains(s),
            res.len() > 0 ==> res[0] == mask,
            res.len() == 0 ==> subset == mask,
            mask <= 0 ==> res.len() == 0,
        decreases subset,
    {
        let ghost before = res@;
        res.push(subset);
        let next: i32 = (subset - 1) & mask;
        proof {
            assert(0 <= next < subset && (next > 0 ==> next & mask == next)) by (bit_vector)
                requires
                    subset > 0,
                    mask > 0,
                    next == ((subset - 1) as i32) & mask,
            ;
            assert(res@[before.len() as int] == subset);
            if before.len() > 0 {
                assert(res@[0] == before[0]);
            }
            assert forall|s: i32|
                is_submask(s, mask) && mask > 0 && s > next implies #[trigger] res@.contains(
                s,
            ) by {
                assert(s & mask == s && s > 0 && s < subset && subset & mask == subset && mask > 0
                    ==> s <= ((subset - 1) as i32) & mask) by (bit_vector);
                if s > subset {
                    assert(before.contains(s));
                    let i = choose|i: int| 0 <= i < before.len() && before[i] == s;
                    assert(res@[i] == s);
                }
            }
        }
        subset = next;
    }
    res
}

/// The number of one bits of a positive `n`; zero for any other `n`.
pub fn popcount(n: i32) -> (count: i32)
    ensures
        n > 0 ==> count == bit_count(n as nat),
        n <= 0 ==> count == 0,
{
    let mut n: i32 = n;
    let ghost start = n;
    let mut count: i32 = 0;
    while n > 0
        invariant
            start > 0 ==> n >= 0 && count + bit_count(n as nat) == bit_count(start as nat),
            start <= 0 ==> n == start && count == 0,
            0 <= count,
            start > 0 ==> count + n <= start,
        decreases n,
    {
        proof {
            lemma_clear_lowest_bit(n);
            let cleared = n & ((n - 1) as i32);
            assert(cleared < n) by (bit_vector)
                requires
                    n > 0,
                    cleared == n & ((n - 1) as i32),
            ;
        }
        count += 1;
        n &= n - 1;
    }
    count
}

/// Whether bit `i` of `mask` is set and makes the masked value positive;
/// for the sign bit this is never the case.
pub fn is_on(mask: i32, i: i32) -> (on: bool)
    requires
        0 <= i < 32,
    ensures
        on == (mask & (1i32 << i) > 0),
{
    mask & (1 << i) > 0
}

/// The number of zero bits below the lowest set bit of a non-zero `n`.
pub fn ctz(n: i32) -> (count: i32)
    requires
        n != 0,
    ensures
        0 <= count < 32,
        (n >> (count as u32)) & 1 == 1,
        n & !((-1i32) << (count as u32)) == 0,
{
    let ghost start = n;
    let mut n: i32 = n;
    let mut count: i32 = 0;
    assert(start & !((-1i32) << 0u32) == 0 && start >> 0u32 == start) by (bit_vector);
    while n & 1 == 0
        invariant
            0 <= count < 32,
            start != 0,
            n == start >> (count as u32),
            start & !((-1i32) << (count as u32)) == 0,
        decreases 32 - count,
    {
        proof {
            let c: u32 = count as u32;
            assert(c < 31 && (n >> 1u32) == start >> ((c + 1) as u32) && start & !((-1i32) << ((c
                + 1) as u32)) == 0) by (bit_vector)
                requires
                    c < 32,
                    start != 0,
                    n == start >> c,
                    n & 1 == 0,
                    start & !((-1i32) << c) == 0,
            ;
        }
        count += 1;
        n >>= 1;
    }
    proof {
        let c: u32 = count as u32;
        assert((start >> c) & 1 == 1) by (bit_vector)
            requires
                n == start >> c,
                n & 1 != 0,
        ;
    }
    count
}

/// `mask` with bit `i` set.
pub fn turn_on(mask: i32, i: i32) -> (r: i32)
    requires
        0 <= i < 32,
    ensures
        r == mask | (1i32 << i),
{
    mask | (1 << i)
}

/// `mask` with bit `i` cleared.
pub fn turn_off(mask: i32, i: i32) -> (r: i32)
    requires
        0 <= i < 32,
    ensures
        r == mask & !(1i32 << i),
{
    mask & !(1 << i)
}

/// `mask` with bit `i` flipped.
pub fn toggle(mask: i32, i: i32) -> (r: i32)
    requires
        0 <= i < 32,
    ensures
        r == mask ^ (1i32 << i),
{
    mask ^ (1 << i)
}

/// The lowest `k` bits of `mask`: for a non-negative `mask` its remainder
/// modulo two to the `k`.
pub fn modulo(mask: i32, k: i32) -> (r: i32)
    requires
        0 <= k < 31,
    ensures
        r == mask & (((1i32 << k) - 1) as i32),
        0 <= r < (1i32 << k),
{
    let bit: i32 = 1 << k;
    proof {
        let s: u32 = k as u32;
        assert((1i32 << s) >= 1) by (bit_vector)
            requires
                s < 31,
        ;
        assert(bit == 1i32 << s);
        let low: i32 = (bit - 1) as i32;
        let r: i32 = mask & low;
        assert(0 <= r < bit) by (bit_vector)
            requires
                s < 31,
                bit == 1i32 << s,
                low == (bit - 1) as i32,
                r == mask & low,
        ;
    }
    mask & (bit - 1)
}

/// Whether at most one bit of `mask` is set; zero counts as a power of two
/// here.
pub fn is_power_of_two(mask: i32) -> (r: bool)
    requires
        mask > i32::MIN,
    ensures
        r == (mask & ((mask - 1) as i32) == 0),
        mask > 0 ==> (r <==> bit_count(mask as nat) == 1),
{
    proof {
        if mask > 0 {
            lemma_clear_lowest_bit(mask);
            let cleared = mask & ((mask - 1) as i32);
            if cleared > 0 {
                assert(bit_count(cleared as nat) > 0) by {
                    lemma_bit_count_positive(cleared as nat);
                }
            }
        }
    }
    mask & (mask - 1) == 0
}

/// A positive number has at least one bit set.
pub proof fn lemma_bit_count_positive(n: nat)
    requires
        n > 0,
    ensures
        bit_count(n) > 0,
    decreases n,
{
    if n % 2 == 0 {
        lemma_bit_count_positive(n / 2);
    }
}

} // verus!
