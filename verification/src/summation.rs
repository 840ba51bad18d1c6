//! Finite sums of integer-valued functions over an initial segment of the
//! naturals, with the few algebraic facts the flow proofs rest on.

use vstd::prelude::*;

verus! {

/// `f(0) + f(1) + ... + f(k - 1)`; zero when `k <= 0`.
pub open spec fn sum_to(f: spec_fn(int) -> int, k: int) -> int
    decreases k,
{
    if k <= 0 {
        0
    } else {
        sum_to(f, k - 1) + f(k - 1)
    }
}

/// Sums of functions that agree below `k` are equal.
pub proof fn lemma_sum_congruence(f: spec_fn(int) -> int, g: spec_fn(int) -> int, k: int)
    requires
        forall|i: int| 0 <= i < k ==> #[trigger] f(i) == g(i),
    ensures
        sum_to(f, k) == sum_to(g, k),
    decreases k,
{
    if k > 0 {
        lemma_sum_congruence(f, g, k - 1);
    }
}

/// A pointwise bound carries over to the sums.
pub proof fn lemma_sum_monotone(f: spec_fn(int) -> int, g: spec_fn(int) -> int, k: int)
    requires
        forall|i: int| 0 <= i < k ==> #[trigger] f(i) <= g(i),
    ensures
        sum_to(f, k) <= sum_to(g, k),
    decreases k,
{
    if k > 0 {
        lemma_sum_monotone(f, g, k - 1);
    }
}

/// A function that vanishes below `k` sums to zero.
pub proof fn lemma_sum_zero(f: spec_fn(int) -> int, k: int)
    requires
        forall|i: int| 0 <= i < k ==> #[trigger] f(i) == 0,
    ensures
        sum_to(f, k) == 0,
    decreases k,
{
    if k > 0 {
        lemma_sum_zero(f, k - 1);
    }
}

/// The sum of a pointwise sum is the sum of the sums.
pub proof fn lemma_sum_additive(
    f: spec_fn(int) -> int,
    g: spec_fn(int) -> int,
    h: spec_fn(int) -> int,
    k: int,
)
    requires
        forall|i: int| 0 <= i < k ==> #[trigger] h(i) == f(i) + g(i),
    ensures
        sum_to(h, k) == sum_to(f, k) + sum_to(g, k),
    decreases k,
{
    if k > 0 {
        lemma_sum_additive(f, g, h, k - 1);
    }
}

/// Changing a function at the single point `at` changes its sum by the
/// difference of the two values there.
pub proof fn lemma_sum_point_update(
    f: spec_fn(int) -> int,
    g: spec_fn(int) -> int,
    k: int,
    at: int,
)
    requires
        0 <= at < k,
        forall|i: int| 0 <= i < k && i != at ==> #[trigger] f(i) == g(i),
    ensures
        sum_to(g, k) == sum_to(f, k) + g(at) - f(at),
    decreases k,
{
    if k - 1 == at {
        lemma_sum_congruence(f, g, k - 1);
    } else {
        lemma_sum_point_update(f, g, k - 1, at);
    }
}

/// A function that vanishes everywhere below `k` except at `at` sums to its
/// value there.
pub proof fn lemma_sum_single(f: spec_fn(int) -> int, k: int, at: int)
    requires
        0 <= at < k,
        forall|i: int| 0 <= i < k && i != at ==> #[trigger] f(i) == 0,
    ensures
        sum_to(f, k) == f(at),
    decreases k,
{
    if k - 1 == at {
        lemma_sum_zero(f, k - 1);
    } else {
        lemma_sum_single(f, k - 1, at);
    }
}

/// A sum of non-negative terms does not shrink when more terms are added.
pub proof fn lemma_sum_prefix(f: spec_fn(int) -> int, j: int, k: int)
    requires
        0 <= j <= k,
        forall|i: int| j <= i < k ==> #[trigger] f(i) >= 0,
    ensures
        sum_to(f, j) <= sum_to(f, k),
    decreases k - j,
{
    if j < k {
        lemma_sum_prefix(f, j, k - 1);
    }
}

} // verus!
