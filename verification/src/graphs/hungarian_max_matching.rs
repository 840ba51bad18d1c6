//! The assignment problem by the Hungarian algorithm: every row of a cost
//! table gets a column of its own so that the costs at the chosen places add
//! up to as little as possible.
//!
//! The algorithm keeps a potential for every row and every column such that
//! no cost is less than the two potentials of its place add up to, and
//! matches rows to columns only where the two are equal. The sum of all
//! potentials is then a lower bound for every assignment and the cost of the
//! one that is found.

use crate::summation::{
    lemma_sum_additive,
    lemma_sum_congruence,
    lemma_sum_monotone,
    lemma_sum_point_update,
    lemma_sum_prefix,
    lemma_sum_zero,
    sum_to,
};
use vstd::prelude::*;

verus! {

/// The largest absolute value that a cost may have in a table of `n` rows,
/// for the potentials to stay within an `i32`.
pub open spec fn cost_limit(n: int) -> int {
    i32::MAX as int / (n + 4)
}

/// The table has `n` rows of `m` costs each, none of them beyond the limit.
pub open spec fn well_formed(a: Seq<Vec<i32>>, n: int, m: int) -> bool {
    &&& a.len() == n
    &&& forall|i: int| 0 <= i < n ==> (#[trigger] a[i]).len() == m
    &&& forall|i: int, j: int|
        0 <= i < n && 0 <= j < m ==> -cost_limit(n) <= #[trigger] a[i][j] <= cost_limit(n)
}

/// `choice` gives each of the rows `1..=n` a column of `1..=m` of its own.
pub open spec fn is_assignment(choice: Seq<int>, n: int, m: int) -> bool {
    &&& choice.len() == n + 1
    &&& forall|r: int| 1 <= r <= n ==> 1 <= #[trigger] choice[r] <= m
    &&& forall|r: int, s: int| 1 <= r < s <= n ==> choice[r] != choice[s]
}

/// The cost at the place that `choice` picks in row `k + 1`.
pub open spec fn chosen_cost(a: Seq<Vec<i32>>, choice: Seq<int>, k: int) -> int {
    a[k][choice[k + 1] - 1] as int
}

/// The costs at the places that `choice` picks add up to this.
pub open spec fn total_cost(a: Seq<Vec<i32>>, choice: Seq<int>, n: int) -> int {
    sum_to(|k: int| chosen_cost(a, choice, k), n)
}

/// The cost of row `r` and column `j`, both counted from one, less the
/// potentials of the two.
pub open spec fn slack(a: Seq<Vec<i32>>, u: Seq<i32>, v: Seq<i32>, r: int, j: int) -> int {
    a[r - 1][j - 1] - u[r] - v[j]
}

/// Column `j` is chosen by one of the rows `1..=k`.
pub open spec fn taken(choice: Seq<int>, k: int, j: int) -> bool {
    exists|r: int| 1 <= r <= k && #[trigger] choice[r] == j
}

/// The value of `f` at column `j + 1` if that column is chosen by one of
/// the rows `1..=k`, else zero.
pub open spec fn taken_term(f: Seq<int>, choice: Seq<int>, k: int, j: int) -> int {
    if taken(choice, k, j + 1) {
        f[j + 1]
    } else {
        0
    }
}

/// Adding up a column function along the columns that the rows `1..=k`
/// choose is adding it up over the columns that are chosen.
proof fn lemma_sum_along_choice(f: Seq<int>, choice: Seq<int>, k: int, m: int)
    requires
        0 <= k,
        f.len() == m + 1,
        forall|r: int| 1 <= r <= k ==> 1 <= #[trigger] choice[r] <= m,
        forall|r: int, s: int| 1 <= r < s <= k ==> choice[r] != choice[s],
    ensures
        sum_to(|i: int| f[choice[i + 1]], k) == sum_to(|j: int| taken_term(f, choice, k, j), m),
    decreases k,
{
    if k == 0 {
        lemma_sum_zero(|j: int| taken_term(f, choice, k, j), m);
    } else {
        lemma_sum_along_choice(f, choice, k - 1, m);
        let c = choice[k];
        assert(!taken(choice, k - 1, c)) by {
            if taken(choice, k - 1, c) {
                let r = choose|r: int| 1 <= r <= k - 1 && #[trigger] choice[r] == c;
                assert(choice[r] != choice[k]);
            }
        }
        assert(taken(choice, k, c));
        assert forall|j: int| 0 <= j < m && j != c - 1 implies #[trigger] taken_term(
            f,
            choice,
            k - 1,
            j,
        ) == taken_term(f, choice, k, j) by {
            if taken(choice, k, j + 1) {
                let r = choose|r: int| 1 <= r <= k && #[trigger] choice[r] == j + 1;
                assert(taken(choice, k - 1, j + 1));
            }
            if taken(choice, k - 1, j + 1) {
                let r = choose|r: int| 1 <= r <= k - 1 && #[trigger] choice[r] == j + 1;
                assert(taken(choice, k, j + 1));
            }
        }
        lemma_sum_point_update(
            |j: int| taken_term(f, choice, k - 1, j),
            |j: int| taken_term(f, choice, k, j),
            m,
            c - 1,
        );
    }
}

/// Weak duality: if no slack is negative and no column potential positive,
/// every assignment costs at least as much as all potentials add up to.
proof fn lemma_potentials_bound(
    a: Seq<Vec<i32>>,
    u: Seq<i32>,
    v: Seq<i32>,
    choice: Seq<int>,
    n: int,
    m: int,
)
    requires
        0 <= n,
        0 <= m,
        u.len() == n + 1,
        v.len() == m + 1,
        is_assignment(choice, n, m),
        forall|r: int, j: int| 1 <= r <= n && 1 <= j <= m ==> #[trigger] slack(a, u, v, r, j) >= 0,
        forall|j: int| 1 <= j <= m ==> (#[trigger] v[j]) <= 0,
    ensures
        total_cost(a, choice, n) >= sum_to(|k: int| u[k + 1] as int, n) + sum_to(
            |j: int| v[j + 1] as int,
            m,
        ),
{
    let f = Seq::new((m + 1) as nat, |j: int| v[j] as int);
    let along = |i: int| f[choice[i + 1]];
    let rows = |k: int| u[k + 1] as int;
    let both = |k: int| u[k + 1] as int + f[choice[k + 1]];
    assert forall|k: int| 0 <= k < n implies #[trigger] both(k) <= chosen_cost(a, choice, k) by {
        assert(slack(a, u, v, k + 1, choice[k + 1]) >= 0);
    }
    lemma_sum_monotone(both, |k: int| chosen_cost(a, choice, k), n);
    lemma_sum_additive(rows, along, both, n);
    lemma_sum_along_choice(f, choice, n, m);
    lemma_sum_monotone(|j: int| v[j + 1] as int, |j: int| taken_term(f, choice, n, j), m);
}

/// An assignment that picks only places without slack, and leaves only
/// columns of potential zero, costs exactly what all potentials add up to.
proof fn lemma_tight_assignment(
    a: Seq<Vec<i32>>,
    u: Seq<i32>,
    v: Seq<i32>,
    choice: Seq<int>,
    n: int,
    m: int,
)
    requires
        0 <= n,
        0 <= m,
        u.len() == n + 1,
        v.len() == m + 1,
        is_assignment(choice, n, m),
        forall|r: int| 1 <= r <= n ==> slack(a, u, v, r, #[trigger] choice[r]) == 0,
        forall|j: int| 1 <= j <= m && !taken(choice, n, j) ==> (#[trigger] v[j]) == 0,
    ensures
        total_cost(a, choice, n) == sum_to(|k: int| u[k + 1] as int, n) + sum_to(
            |j: int| v[j + 1] as int,
            m,
        ),
{
    let f = Seq::new((m + 1) as nat, |j: int| v[j] as int);
    let along = |i: int| f[choice[i + 1]];
    let rows = |k: int| u[k + 1] as int;
    let both = |k: int| u[k + 1] as int + f[choice[k + 1]];
    assert forall|k: int| 0 <= k < n implies #[trigger] both(k) == chosen_cost(a, choice, k) by {
        assert(slack(a, u, v, k + 1, choice[k + 1]) == 0);
    }
    lemma_sum_congruence(both, |k: int| chosen_cost(a, choice, k), n);
    lemma_sum_additive(rows, along, both, n);
    lemma_sum_along_choice(f, choice, n, m);
    lemma_sum_congruence(|j: int| v[j + 1] as int, |j: int| taken_term(f, choice, n, j), m);
}

/// One if column `j + 1` is matched, else zero.
pub open spec fn matched_term(p: Seq<usize>, j: int) -> int {
    if p[j + 1] != 0 {
        1
    } else {
        0
    }
}

/// How many of the columns `1..=m` are matched.
pub open spec fn matched_count(p: Seq<usize>, m: int) -> int {
    sum_to(|j: int| matched_term(p, j), m)
}

/// The sum of `k` ones is `k`.
proof fn lemma_sum_of_ones(k: int)
    requires
        k >= 0,
    ensures
        sum_to(|i: int| 1int, k) == k,
    decreases k,
{
    if k > 0 {
        lemma_sum_of_ones(k - 1);
    }
}

/// If fewer columns are matched than there are, some column is free.
proof fn lemma_free_column(p: Seq<usize>, m: int) -> (f: int)
    requires
        0 <= m,
        matched_count(p, m) < m,
    ensures
        1 <= f <= m,
        p[f] == 0,
{
    if forall|j: int| 1 <= j <= m ==> (#[trigger] p[j]) != 0 {
        assert forall|j: int| 0 <= j < m implies #[trigger] matched_term(p, j) == 1 by {
            assert(p[j + 1] != 0);
        }
        lemma_sum_congruence(|j: int| matched_term(p, j), |j: int| 1int, m);
        lemma_sum_of_ones(m);
    }
    choose|j: int| 1 <= j <= m && (#[trigger] p[j]) == 0
}

/// The state between two rounds: the rows `1..=rows` are matched to
/// columns of their own, matched places have no slack, no place in a
/// matched row has negative slack, free columns have potential zero, no
/// column has a positive potential, and all potentials are within bounds.
pub open spec fn balanced(
    a: Seq<Vec<i32>>,
    u: Seq<i32>,
    v: Seq<i32>,
    p: Seq<usize>,
    n: int,
    m: int,
    rows: int,
) -> bool {
    let limit = cost_limit(n);
    &&& u.len() == n + 1
    &&& v.len() == m + 1
    &&& p.len() == m + 1
    &&& forall|r: int| 1 <= r <= n ==> -limit <= #[trigger] u[r] <= limit
    &&& forall|r: int| rows < r <= n ==> #[trigger] u[r] == 0
    &&& forall|j: int| 1 <= j <= m ==> -2 * limit <= #[trigger] v[j] <= 0
    &&& forall|j: int| 1 <= j <= m ==> #[trigger] p[j] <= rows
    &&& forall|j: int| 1 <= j <= m && #[trigger] p[j] == 0 ==> v[j] == 0
    &&& forall|j: int| 1 <= j <= m && #[trigger] p[j] != 0 ==> slack(a, u, v, p[j] as int, j) == 0
    &&& forall|j: int, k: int| 1 <= j < k <= m && #[trigger] p[j] != 0 ==> p[j] != #[trigger] p[k]
    &&& forall|r: int, j: int|
        1 <= r <= rows && 1 <= j <= m ==> #[trigger] slack(a, u, v, r, j) >= 0
    &&& forall|r: int| 1 <= r <= rows ==> #[trigger] row_matched(p, m, r)
    &&& matched_count(p, m) == rows
}

/// Row `r` is matched to one of the columns `1..=m`.
pub open spec fn row_matched(p: Seq<usize>, m: int, r: int) -> bool {
    exists|j: int| 1 <= j <= m && #[trigger] p[j] == r
}

/// The row that the tree reaches column `j` from: the row matched to the
/// used column that `way` names.
pub open spec fn tree_row(p: Seq<usize>, way: Seq<usize>, j: int) -> int {
    p[way[j] as int] as int
}

/// What holds throughout a round for row `i`, after `count` columns have
/// been used: the used columns are matched, the matched rows before `i`
/// have no negative slack anywhere, and each used column but the first was
/// reached from a column used before it through a place without slack.
pub open spec fn steady(
    a: Seq<Vec<i32>>,
    u: Seq<i32>,
    v: Seq<i32>,
    p: Seq<usize>,
    way: Seq<usize>,
    used: Seq<bool>,
    rank: Seq<int>,
    n: int,
    m: int,
    i: int,
    count: int,
) -> bool {
    let limit = cost_limit(n);
    &&& u.len() == n + 1
    &&& v.len() == m + 1
    &&& p.len() == m + 1
    &&& way.len() == m + 1
    &&& used.len() == m + 1
    &&& rank.len() == m + 1
    &&& 1 <= i <= n
    &&& p[0] == i
    &&& 0 <= count
    &&& forall|j: int| 0 <= j <= m ==> (#[trigger] used[j] <==> 0 <= rank[j] < count)
    &&& forall|j: int| 0 <= j <= m && !#[trigger] used[j] ==> rank[j] == -1
    &&& count > 0 ==> used[0] && rank[0] == 0
    &&& forall|j: int| 1 <= j <= m && #[trigger] used[j] ==> p[j] != 0 && rank[j] > 0
    &&& forall|r: int| 1 <= r <= n ==> -limit <= #[trigger] u[r] <= limit
    &&& forall|r: int| i < r <= n ==> #[trigger] u[r] == 0
    &&& forall|j: int| 1 <= j <= m ==> -2 * limit <= #[trigger] v[j] <= 0
    &&& forall|j: int| 1 <= j <= m ==> #[trigger] p[j] < i
    &&& forall|j: int| 1 <= j <= m && #[trigger] p[j] == 0 ==> v[j] == 0
    &&& forall|j: int| 1 <= j <= m && #[trigger] p[j] != 0 ==> slack(a, u, v, p[j] as int, j) == 0
    &&& forall|j: int, k: int| 1 <= j < k <= m && #[trigger] p[j] != 0 ==> p[j] != #[trigger] p[k]
    &&& forall|r: int, j: int|
        1 <= r < i && 1 <= j <= m ==> #[trigger] slack(a, u, v, r, j) >= 0
    &&& forall|r: int| 1 <= r < i ==> #[trigger] row_matched(p, m, r)
    &&& matched_count(p, m) == i - 1
    &&& forall|j: int|
        1 <= j <= m && #[trigger] used[j] ==> way[j] <= m && used[way[j] as int] && rank[way[j] as int]
            < rank[j] && slack(a, u, v, tree_row(p, way, j), j) == 0
}

/// No place in row `i` has negative slack.
pub open spec fn row_feasible(a: Seq<Vec<i32>>, u: Seq<i32>, v: Seq<i32>, m: int, i: int) -> bool {
    forall|j: int| 1 <= j <= m ==> #[trigger] slack(a, u, v, i, j) >= 0
}

/// `minv` holds for each unused column the least slack that a row of a used
/// column has with it, which is the slack at the place that `way` names.
pub open spec fn covered(
    a: Seq<Vec<i32>>,
    u: Seq<i32>,
    v: Seq<i32>,
    p: Seq<usize>,
    way: Seq<usize>,
    minv: Seq<i32>,
    used: Seq<bool>,
    m: int,
) -> bool {
    &&& minv.len() == m + 1
    &&& forall|j: int|
        1 <= j <= m && !#[trigger] used[j] ==> way[j] <= m && used[way[j] as int] && minv[j]
            == slack(a, u, v, tree_row(p, way, j), j)
    &&& forall|j: int, k: int|
        1 <= j <= m && !used[j] && 0 <= k <= m && used[k] ==> minv[j] <= #[trigger] slack(
            a,
            u,
            v,
            p[k] as int,
            j,
        )
}

/// The state at the head of a step of the round for row `i`.
pub open spec fn growing(
    a: Seq<Vec<i32>>,
    u: Seq<i32>,
    v: Seq<i32>,
    p: Seq<usize>,
    way: Seq<usize>,
    minv: Seq<i32>,
    used: Seq<bool>,
    rank: Seq<int>,
    n: int,
    m: int,
    i: int,
    count: int,
) -> bool {
    &&& steady(a, u, v, p, way, used, rank, n, m, i, count)
    &&& minv.len() == m + 1
    &&& count == 0 ==> u[i] == 0 && forall|j: int| 0 <= j <= m ==> #[trigger] minv[j] == i32::MAX
    &&& count > 0 ==> row_feasible(a, u, v, m, i) && covered(a, u, v, p, way, minv, used, m)
}

/// The state within a step, after the next column has been marked as used
/// and the row matched to it has been taken into `minv`.
pub open spec fn scanned(
    a: Seq<Vec<i32>>,
    u: Seq<i32>,
    v: Seq<i32>,
    p: Seq<usize>,
    way: Seq<usize>,
    minv: Seq<i32>,
    used: Seq<bool>,
    rank: Seq<int>,
    n: int,
    m: int,
    i: int,
    count: int,
) -> bool {
    &&& steady(a, u, v, p, way, used, rank, n, m, i, count)
    &&& count >= 1
    &&& covered(a, u, v, p, way, minv, used, m)
    &&& count == 1 ==> u[i] == 0
    &&& count >= 2 ==> row_feasible(a, u, v, m, i)
}

/// The limit leaves room for four costs and for as many costs as there
/// are rows.
proof fn lemma_cost_limit(n: int, k: int)
    requires
        1 <= n,
        0 <= k <= n,
    ensures
        0 <= cost_limit(n),
        5 * cost_limit(n) <= i32::MAX,
        0 <= k * cost_limit(n) <= n * cost_limit(n),
        n * cost_limit(n) + 4 * cost_limit(n) <= i32::MAX,
        (k + 1) * cost_limit(n) == k * cost_limit(n) + cost_limit(n),
{
    let c = cost_limit(n);
    assert(0 <= c && (n + 4) * c <= i32::MAX) by (nonlinear_arith)
        requires
            c == i32::MAX as int / (n + 4),
            n >= 1,
    ;
    assert(n * c + 4 * c == (n + 4) * c && 0 <= k * c <= n * c && (k + 1) * c == k * c + c && 5
        * c <= (n + 4) * c) by (nonlinear_arith)
        requires
            0 <= c,
            0 <= k <= n,
            n >= 1,
    ;
}

/// The answer as a choice of columns.
pub open spec fn as_choice(ans: Seq<i32>) -> Seq<int> {
    ans.map_values(|x: i32| x as int)
}

/// Row `r` is matched to a used column.
pub open spec fn in_tree(p: Seq<usize>, used: Seq<bool>, m: int, r: int) -> bool {
    exists|k: int| 0 <= k <= m && #[trigger] used[k] && p[k] == r
}

/// The rows matched to two different used columns differ.
proof fn lemma_tree_rows_differ(
    a: Seq<Vec<i32>>,
    u: Seq<i32>,
    v: Seq<i32>,
    p: Seq<usize>,
    way: Seq<usize>,
    used: Seq<bool>,
    rank: Seq<int>,
    n: int,
    m: int,
    i: int,
    count: int,
    j: int,
    k: int,
)
    requires
        steady(a, u, v, p, way, used, rank, n, m, i, count),
        0 <= j <= m,
        0 <= k <= m,
        j != k,
        used[j],
        used[k],
    ensures
        p[j] != p[k],
        1 <= p[j] <= i,
{
    if j == 0 {
        assert(p[k] < i);
    } else if k == 0 {
        assert(p[j] < i);
    } else if j < k {
        assert(p[j] != 0);
    } else {
        assert(p[k] != 0);
    }
    if j != 0 {
        assert(p[j] != 0);
        assert(p[j] < i);
    }
}

/// How far the step may move the potentials: by no more than the limit
/// allows.
proof fn lemma_step_bounds(
    a: Seq<Vec<i32>>,
    u: Seq<i32>,
    v: Seq<i32>,
    p: Seq<usize>,
    way: Seq<usize>,
    minv: Seq<i32>,
    used: Seq<bool>,
    rank: Seq<int>,
    n: int,
    m: int,
    i: int,
    count: int,
    delta: int,
    j1: int,
)
    requires
        well_formed(a, n, m),
        n <= m,
        scanned(a, u, v, p, way, minv, used, rank, n, m, i, count),
        1 <= j1 <= m,
        !used[j1],
        delta == minv[j1],
        forall|c: int| 1 <= c <= m && !#[trigger] used[c] ==> delta <= minv[c],
    ensures
        -cost_limit(n) <= delta <= 4 * cost_limit(n),
        count >= 2 ==> delta >= 0,
        forall|r: int|
            1 <= r <= n && in_tree(p, used, m, r) ==> -cost_limit(n) <= #[trigger] u[r] + delta
                <= cost_limit(n),
        forall|c: int|
            1 <= c <= m && #[trigger] used[c] ==> -2 * cost_limit(n) <= v[c] - delta <= 0,
        forall|c: int|
            1 <= c <= m && !#[trigger] used[c] ==> 0 <= minv[c] - delta <= 5 * cost_limit(n),
        forall|c: int| 1 <= c <= m && !#[trigger] used[c] ==> -cost_limit(n) <= minv[c] <= 4
            * cost_limit(n),
{
    let limit = cost_limit(n);
    lemma_cost_limit(n, i);
    let f = lemma_free_column(p, m);
    assert(!used[f]);
    let w = way[j1] as int;
    let r1 = p[w] as int;
    assert(used[w]);
    if w != 0 {
        assert(p[w] != 0 && p[w] < i);
    }
    assert(1 <= r1 <= i);
    assert(-limit <= a[r1 - 1][j1 - 1] <= limit);
    assert(delta == slack(a, u, v, r1, j1));
    if count >= 2 {
        if r1 < i {
            assert(slack(a, u, v, r1, j1) >= 0);
        } else {
            assert(slack(a, u, v, i, j1) >= 0);
        }
    } else {
        // Only column zero is used, and it is matched to row `i`.
        assert(w == 0) by {
            if w != 0 {
                assert(rank[w] > 0);
            }
        }
    }
    assert forall|c: int| 1 <= c <= m && !#[trigger] used[c] implies -limit <= minv[c] <= 4
        * limit by {
        let wc = way[c] as int;
        let rc = p[wc] as int;
        assert(used[wc]);
        if wc != 0 {
            assert(p[wc] != 0 && p[wc] < i);
        }
        assert(-limit <= a[rc - 1][c - 1] <= limit);
        assert(minv[c] == slack(a, u, v, rc, c));
        if count >= 2 {
            if rc < i {
                assert(slack(a, u, v, rc, c) >= 0);
            } else {
                assert(slack(a, u, v, i, c) >= 0);
            }
        } else {
            assert(wc == 0) by {
                if wc != 0 {
                    assert(rank[wc] > 0);
                }
            }
        }
    }
    assert forall|r: int| 1 <= r <= n && in_tree(p, used, m, r) implies -limit <= #[trigger] u[r]
        + delta <= limit by {
        let k = choose|k: int| 0 <= k <= m && #[trigger] used[k] && p[k] == r;
        assert(minv[f] <= slack(a, u, v, p[k] as int, f));
        assert(delta <= minv[f]);
        assert(v[f] == 0);
        assert(-limit <= a[r - 1][f - 1] <= limit);
        if count < 2 {
            assert(k == 0) by {
                if k != 0 {
                    assert(rank[k] > 0);
                }
            }
        }
    }
    assert forall|c: int| 1 <= c <= m && #[trigger] used[c] implies -2 * limit <= v[c] - delta
        <= 0 by {
        assert(rank[c] > 0);
        assert(count >= 2);
        let r = p[c] as int;
        assert(p[c] != 0 && p[c] < i);
        assert(slack(a, u, v, r, c) == 0);
        assert(in_tree(p, used, m, r));
        assert(-limit <= u[r] + delta <= limit);
        assert(-limit <= a[r - 1][c - 1] <= limit);
    }
}

/// Row `r` is matched to a used column before column `c`.
pub open spec fn in_tree_upto(p: Seq<usize>, used: Seq<bool>, c: int, r: int) -> bool {
    exists|k: int| 0 <= k < c && #[trigger] used[k] && p[k] == r
}

/// Moving the potentials of the rows of the tree up and those of the used
/// columns down by the least slack between the tree and the unused columns
/// keeps the state of the round, and leaves the column of least slack
/// without slack.
proof fn lemma_step(
    a: Seq<Vec<i32>>,
    u: Seq<i32>,
    v: Seq<i32>,
    p: Seq<usize>,
    way: Seq<usize>,
    minv: Seq<i32>,
    used: Seq<bool>,
    rank: Seq<int>,
    n: int,
    m: int,
    i: int,
    count: int,
    delta: int,
    j1: int,
    moved_u: Seq<i32>,
    moved_v: Seq<i32>,
    moved_minv: Seq<i32>,
)
    requires
        well_formed(a, n, m),
        n <= m,
        scanned(a, u, v, p, way, minv, used, rank, n, m, i, count),
        1 <= j1 <= m,
        !used[j1],
        delta == minv[j1],
        forall|c: int| 1 <= c <= m && !#[trigger] used[c] ==> delta <= minv[c],
        moved_u.len() == n + 1,
        moved_v.len() == m + 1,
        moved_minv.len() == m + 1,
        forall|r: int|
            1 <= r <= n ==> #[trigger] moved_u[r] == u[r] + (if in_tree(p, used, m, r) {
                delta
            } else {
                0
            }),
        forall|c: int|
            1 <= c <= m ==> #[trigger] moved_v[c] == v[c] - (if used[c] {
                delta
            } else {
                0
            }),
        forall|c: int| 1 <= c <= m && !used[c] ==> #[trigger] moved_minv[c] == minv[c] - delta,
    ensures
        growing(a, moved_u, moved_v, p, way, moved_minv, used, rank, n, m, i, count),
        moved_minv[j1] == 0,
{
    lemma_step_bounds(a, u, v, p, way, minv, used, rank, n, m, i, count, delta, j1);
    assert(in_tree(p, used, m, i)) by {
        assert(used[0] && p[0] == i);
    }
    // The slack of every place moves with the row and the column.
    assert forall|r: int, c: int| 1 <= r <= n && 1 <= c <= m implies #[trigger] slack(
        a,
        moved_u,
        moved_v,
        r,
        c,
    ) == slack(a, u, v, r, c) - (if in_tree(p, used, m, r) {
        delta
    } else {
        0
    }) + (if used[c] {
        delta
    } else {
        0
    }) by {
        assert(moved_u[r] == u[r] + (if in_tree(p, used, m, r) {
            delta
        } else {
            0
        }));
        assert(moved_v[c] == v[c] - (if used[c] {
            delta
        } else {
            0
        }));
    }
    // A matched column is used exactly if its row lies in the tree.
    assert forall|c: int| 1 <= c <= m && p[c] != 0 implies (#[trigger] used[c] <==> in_tree(
        p,
        used,
        m,
        p[c] as int,
    )) by {
        if in_tree(p, used, m, p[c] as int) && !used[c] {
            let k = choose|k: int| 0 <= k <= m && #[trigger] used[k] && p[k] == p[c];
            if k == 0 {
                assert(p[c] < i);
            } else if k < c {
                assert(p[k] != 0);
            } else {
                assert(p[c] != 0);
            }
        }
    }
    assert forall|r: int| i < r <= n implies #[trigger] moved_u[r] == 0 by {
        if in_tree(p, used, m, r) {
            let k = choose|k: int| 0 <= k <= m && #[trigger] used[k] && p[k] == r;
            if k != 0 {
                assert(p[k] < i);
            }
        }
        assert(u[r] == 0);
    }
    assert forall|r: int| 1 <= r <= n implies -cost_limit(n) <= #[trigger] moved_u[r]
        <= cost_limit(n) by {
        assert(-cost_limit(n) <= u[r] <= cost_limit(n));
        if in_tree(p, used, m, r) {
            assert(-cost_limit(n) <= u[r] + delta <= cost_limit(n));
        }
    }
    assert forall|c: int| 1 <= c <= m implies -2 * cost_limit(n) <= #[trigger] moved_v[c] <= 0 by {
        assert(-2 * cost_limit(n) <= v[c] <= 0);
        if used[c] {
            assert(-2 * cost_limit(n) <= v[c] - delta <= 0);
        }
    }
    assert forall|c: int| 1 <= c <= m && #[trigger] p[c] == 0 implies moved_v[c] == 0 by {
        assert(v[c] == 0);
        assert(!used[c]);
    }
    assert forall|c: int| 1 <= c <= m && #[trigger] p[c] != 0 implies slack(
        a,
        moved_u,
        moved_v,
        p[c] as int,
        c,
    ) == 0 by {
        assert(p[c] < i);
        assert(slack(a, u, v, p[c] as int, c) == 0);
    }
    assert forall|r: int, c: int| 1 <= r <= i && 1 <= c <= m
        implies #[trigger] slack(a, moved_u, moved_v, r, c) >= 0 by {
        if in_tree(p, used, m, r) {
            let k = choose|k: int| 0 <= k <= m && #[trigger] used[k] && p[k] == r;
            if used[c] {
                assert(rank[c] > 0);
                assert(count >= 2);
                if r < i {
                    assert(slack(a, u, v, r, c) >= 0);
                } else {
                    assert(slack(a, u, v, i, c) >= 0);
                }
            } else {
                assert(minv[c] <= slack(a, u, v, p[k] as int, c));
                assert(delta <= minv[c]);
            }
        } else {
            assert(r < i);
            assert(slack(a, u, v, r, c) >= 0);
            if used[c] {
                assert(rank[c] > 0);
                assert(count >= 2);
            }
        }
    }
    assert forall|c: int| 1 <= c <= m && #[trigger] used[c] implies way[c] <= m && used[way[c] as int]
        && rank[way[c] as int] < rank[c] && slack(a, moved_u, moved_v, tree_row(p, way, c), c)
        == 0 by {
        let w = way[c] as int;
        assert(used[w]);
        lemma_tree_rows_differ(a, u, v, p, way, used, rank, n, m, i, count, w, c);
        assert(in_tree(p, used, m, p[w] as int));
        assert(slack(a, u, v, tree_row(p, way, c), c) == 0);
    }
    assert forall|c: int| 1 <= c <= m && !#[trigger] used[c] implies way[c] <= m && used[way[c] as int]
        && moved_minv[c] == slack(a, moved_u, moved_v, tree_row(p, way, c), c) by {
        let w = way[c] as int;
        assert(used[w]);
        if w != 0 {
            assert(p[w] != 0 && p[w] < i);
        }
        assert(in_tree(p, used, m, p[w] as int));
        assert(minv[c] == slack(a, u, v, tree_row(p, way, c), c));
        assert(moved_minv[c] == minv[c] - delta);
    }
    assert forall|c: int, k: int|
        1 <= c <= m && !used[c] && 0 <= k <= m && used[k] implies moved_minv[c]
        <= #[trigger] slack(a, moved_u, moved_v, p[k] as int, c) by {
        if k != 0 {
            assert(p[k] != 0 && p[k] < i);
        }
        assert(in_tree(p, used, m, p[k] as int));
        assert(minv[c] <= slack(a, u, v, p[k] as int, c));
        assert(moved_minv[c] == minv[c] - delta);
    }
    assert(moved_minv[j1] == minv[j1] - delta);
    assert(row_feasible(a, moved_u, moved_v, m, i));
    assert(covered(a, moved_u, moved_v, p, way, moved_minv, used, m));
    assert(steady(a, moved_u, moved_v, p, way, used, rank, n, m, i, count));
}

/// One if column `j` is unused, else zero.
pub open spec fn unused_term(used: Seq<bool>, j: int) -> int {
    if used[j] {
        0
    } else {
        1
    }
}

/// How many of the columns below `k` are unused.
pub open spec fn unused_count(used: Seq<bool>, k: int) -> int {
    sum_to(|j: int| unused_term(used, j), k)
}

/// Using one more column leaves one unused column less.
proof fn lemma_unused_after_mark(used: Seq<bool>, k: int, at: int)
    requires
        0 <= at < k <= used.len(),
        !used[at],
    ensures
        unused_count(used.update(at, true), k) == unused_count(used, k) - 1,
        unused_count(used.update(at, true), k) >= 0,
{
    let after = used.update(at, true);
    lemma_sum_point_update(|j: int| unused_term(used, j), |j: int| unused_term(after, j), k, at);
    lemma_sum_prefix(|j: int| unused_term(after, j), 0, k);
}

/// Marking the column of least slack as used keeps what holds throughout
/// the round.
proof fn lemma_mark(
    a: Seq<Vec<i32>>,
    u: Seq<i32>,
    v: Seq<i32>,
    p: Seq<usize>,
    way: Seq<usize>,
    minv: Seq<i32>,
    used: Seq<bool>,
    rank: Seq<int>,
    n: int,
    m: int,
    i: int,
    count: int,
    j0: int,
)
    requires
        growing(a, u, v, p, way, minv, used, rank, n, m, i, count),
        0 <= j0 <= m,
        !used[j0],
        p[j0] != 0,
        count == 0 ==> j0 == 0,
        count > 0 ==> j0 >= 1 && minv[j0] == 0,
    ensures
        steady(a, u, v, p, way, used.update(j0, true), rank.update(j0, count), n, m, i, count + 1),
{
    let marked = used.update(j0, true);
    let ranked = rank.update(j0, count);
    assert forall|j: int| 0 <= j <= m implies (#[trigger] marked[j] <==> 0 <= ranked[j] < count
        + 1) by {
        if j != j0 {
            assert(used[j] <==> 0 <= rank[j] < count);
        }
    }
    assert forall|j: int| 0 <= j <= m && !#[trigger] marked[j] implies ranked[j] == -1 by {
        assert(!used[j]);
    }
    assert forall|j: int| 1 <= j <= m && #[trigger] marked[j] implies p[j] != 0 && ranked[j] > 0 by {
        if j != j0 {
            assert(used[j]);
        }
    }
    assert forall|j: int| 1 <= j <= m && #[trigger] marked[j] implies way[j] <= m && marked[way[j] as int]
        && ranked[way[j] as int] < ranked[j] && slack(a, u, v, tree_row(p, way, j), j) == 0 by {
        let w = way[j] as int;
        if j != j0 {
            assert(used[j]);
            assert(used[w] && rank[w] < rank[j]);
        } else {
            assert(!used[j0]);
            assert(used[w]);
            assert(0 <= rank[w] < count);
        }
    }
    if count > 0 {
        assert(used[0]);
    }
}

/// Takes the row matched to the column `j0`, which has just been marked as
/// used, into `minv` and `way`, and finds an unused column of least slack.
fn scan(
    a: &Vec<Vec<i32>>,
    u: &Vec<i32>,
    v: &Vec<i32>,
    p: &Vec<usize>,
    way: &mut Vec<usize>,
    minv: &mut Vec<i32>,
    used: &Vec<bool>,
    n: usize,
    m: usize,
    i: usize,
    j0: usize,
    Ghost(rank): Ghost<Seq<int>>,
    Ghost(count): Ghost<int>,
    Ghost(before): Ghost<Seq<bool>>,
) -> (least: (i32, usize))
    requires
        n <= m <= i32::MAX,
        well_formed(a@, n as int, m as int),
        steady(a@, u@, v@, p@, old(way)@, used@, rank, n as int, m as int, i as int, count),
        count >= 1,
        j0 <= m,
        used[j0 as int],
        before == used@.update(j0 as int, false),
        old(minv).len() == m + 1,
        count == 1 ==> u[i as int] == 0 && forall|j: int|
            0 <= j <= m ==> (#[trigger] old(minv)[j]) == i32::MAX,
        count >= 2 ==> row_feasible(a@, u@, v@, m as int, i as int) && covered(
            a@,
            u@,
            v@,
            p@,
            old(way)@,
            old(minv)@,
            before,
            m as int,
        ),
    ensures
        scanned(
            a@,
            u@,
            v@,
            p@,
            final(way)@,
            final(minv)@,
            used@,
            rank,
            n as int,
            m as int,
            i as int,
            count,
        ),
        1 <= least.1 <= m,
        !used[least.1 as int],
        least.0 == final(minv)[least.1 as int],
        forall|c: int| 1 <= c <= m && !#[trigger] used[c] ==> least.0 <= final(minv)[c],
{
    let ghost limit = cost_limit(n as int);
    proof {
        lemma_cost_limit(n as int, 0);
        if j0 != 0 {
            assert(p[j0 as int] != 0 && p[j0 as int] < i);
        }
    }
    let i0: usize = p[j0];
    let mut delta: i32 = i32::MAX;
    let mut j1: usize = 0;
    let mut j: usize = 1;
    while j <= m
        invariant
            1 <= j <= m + 1,
            n <= m <= i32::MAX,
            limit == cost_limit(n as int),
            0 <= limit,
            5 * limit <= i32::MAX,
            well_formed(a@, n as int, m as int),
            way.len() == m + 1,
            minv.len() == m + 1,
            old(minv).len() == m + 1,
            old(way).len() == m + 1,
            j0 <= m,
            used[j0 as int],
            i0 == p[j0 as int],
            1 <= i0 <= i,
            before == used@.update(j0 as int, false),
            count >= 1,
            steady(a@, u@, v@, p@, way@, used@, rank, n as int, m as int, i as int, count),
            count == 1 ==> forall|c: int| 0 <= c <= m ==> (#[trigger] old(minv)[c]) == i32::MAX,
            count >= 2 ==> covered(a@, u@, v@, p@, old(way)@, old(minv)@, before, m as int),
            forall|c: int| j <= c <= m ==> #[trigger] minv[c] == old(minv)[c],
            forall|c: int| j <= c <= m ==> #[trigger] way[c] == old(way)[c],
            forall|c: int|
                1 <= c < j && !#[trigger] used[c] ==> way[c] <= m && used[way[c] as int] && minv[c]
                    == slack(a@, u@, v@, tree_row(p@, way@, c), c) && minv[c] <= 4 * limit,
            forall|c: int, k: int|
                1 <= c < j && !used[c] && 0 <= k <= m && used[k] ==> minv[c] <= #[trigger] slack(
                    a@,
                    u@,
                    v@,
                    p[k] as int,
                    c,
                ),
            j1 == 0 ==> delta == i32::MAX,
            j1 == 0 ==> forall|c: int| 1 <= c < j ==> #[trigger] used[c],
            j1 != 0 ==> 1 <= j1 < j && !used[j1 as int] && delta == minv[j1 as int],
            forall|c: int| 1 <= c < j && !#[trigger] used[c] ==> delta <= minv[c],
        decreases m + 1 - j,
    {
        if !used[j] {
            proof {
                assert(-limit <= a[i0 - 1][j - 1] <= limit);
                assert(-limit <= u[i0 as int] <= limit);
                assert(-2 * limit <= v[j as int] <= 0);
            }
            let ghost way_before = way@;
            let ghost minv_before = minv@;
            let cur: i32 = a[i0 - 1][j - 1] - u[i0] - v[j];
            assert(cur == slack(a@, u@, v@, i0 as int, j as int));
            if cur < minv[j] {
                minv.set(j, cur);
                way.set(j, j0);
            }
            proof {
                assert(!before[j as int]);
                assert forall|c: int| 1 <= c <= m && #[trigger] used[c] implies way[c]
                    == way_before[c] by {}
                assert(minv[j as int] <= cur);
                if count == 1 {
                    assert(old(minv)[j as int] == i32::MAX);
                    assert(way[j as int] == j0);
                } else {
                    assert(way_before[j as int] <= m && before[way_before[j as int] as int]);
                }
                assert(minv[j as int] == slack(a@, u@, v@, tree_row(p@, way@, j as int), j as int));
                assert forall|k: int| 0 <= k <= m && used[k] implies minv[j as int]
                    <= #[trigger] slack(a@, u@, v@, p[k] as int, j as int) by {
                    if k != j0 {
                        if count == 1 {
                            if k != 0 {
                                assert(rank[k] > 0);
                            } else {
                                assert(rank[j0 as int] < 1);
                                if j0 != 0 {
                                    assert(rank[j0 as int] > 0);
                                }
                            }
                        } else {
                            assert(before[k]);
                            assert(minv_before[j as int] <= slack(
                                a@,
                                u@,
                                v@,
                                p[k] as int,
                                j as int,
                            ));
                        }
                    }
                }
                assert forall|c: int| 1 <= c < j && !#[trigger] used[c] implies way[c] <= m
                    && used[way[c] as int] && minv[c] == slack(
                    a@,
                    u@,
                    v@,
                    tree_row(p@, way@, c),
                    c,
                ) && minv[c] <= 4 * limit by {
                    assert(way[c] == way_before[c]);
                    assert(minv[c] == minv_before[c]);
                }
            }
            if minv[j] < delta {
                delta = minv[j];
                j1 = j;
            }
        }
        j += 1;
    }
    proof {
        let f = lemma_free_column(p@, m as int);
        if used[f] {
            assert(p[f] != 0);
        }
    }
    (delta, j1)
}

/// Moves the potentials by `delta`: up for the rows of the tree, down for
/// the used columns, and takes `delta` off the least slack of every unused
/// column.
fn shift(
    a: &Vec<Vec<i32>>,
    u: &mut Vec<i32>,
    v: &mut Vec<i32>,
    p: &Vec<usize>,
    way: &Vec<usize>,
    minv: &mut Vec<i32>,
    used: &Vec<bool>,
    n: usize,
    m: usize,
    i: usize,
    delta: i32,
    Ghost(j1): Ghost<int>,
    Ghost(rank): Ghost<Seq<int>>,
    Ghost(count): Ghost<int>,
    Ghost(drift): Ghost<int>,
)
    requires
        n <= m <= i32::MAX,
        well_formed(a@, n as int, m as int),
        scanned(
            a@,
            old(u)@,
            old(v)@,
            p@,
            way@,
            old(minv)@,
            used@,
            rank,
            n as int,
            m as int,
            i as int,
            count,
        ),
        1 <= j1 <= m,
        !used[j1],
        delta == old(minv)[j1],
        forall|c: int| 1 <= c <= m && !#[trigger] used[c] ==> delta <= old(minv)[c],
        old(v)[0] + old(u)[i as int] == drift,
        -((i - 1) * cost_limit(n as int)) <= drift <= (i - 1) * cost_limit(n as int),
    ensures
        growing(
            a@,
            final(u)@,
            final(v)@,
            p@,
            way@,
            final(minv)@,
            used@,
            rank,
            n as int,
            m as int,
            i as int,
            count,
        ),
        final(minv)[j1] == 0,
        final(v)[0] + final(u)[i as int] == drift,
{
    let ghost limit = cost_limit(n as int);
    proof {
        lemma_cost_limit(n as int, i as int - 1);
        lemma_cost_limit(n as int, i as int);
        lemma_step_bounds(
            a@,
            u@,
            v@,
            p@,
            way@,
            minv@,
            used@,
            rank,
            n as int,
            m as int,
            i as int,
            count,
            delta as int,
            j1,
        );
        assert(in_tree(p@, used@, m as int, i as int)) by {
            assert(used[0] && p[0] == i);
        }
    }
    let mut c: usize = 0;
    while c <= m
        invariant
            0 <= c <= m + 1,
            n <= m <= i32::MAX,
            limit == cost_limit(n as int),
            0 <= limit,
            5 * limit <= i32::MAX,
            n * limit + 4 * limit <= i32::MAX,
            0 <= (i - 1) * limit <= n * limit,
            i * limit == (i - 1) * limit + limit,
            i * limit <= n * limit,
            -((i - 1) * limit) <= drift <= (i - 1) * limit,
            old(v)[0] + old(u)[i as int] == drift,
            u.len() == n + 1,
            v.len() == m + 1,
            minv.len() == m + 1,
            scanned(
                a@,
                old(u)@,
                old(v)@,
                p@,
                way@,
                old(minv)@,
                used@,
                rank,
                n as int,
                m as int,
                i as int,
                count,
            ),
            in_tree(p@, used@, m as int, i as int),
            forall|r: int|
                1 <= r <= n && in_tree(p@, used@, m as int, r) ==> -limit <= #[trigger] old(u)[r]
                    + delta <= limit,
            forall|k: int|
                1 <= k <= m && #[trigger] used[k] ==> -2 * limit <= old(v)[k] - delta <= 0,
            forall|k: int|
                1 <= k <= m && !#[trigger] used[k] ==> 0 <= old(minv)[k] - delta <= 5 * limit,
            forall|r: int|
                1 <= r <= n ==> #[trigger] u[r] == old(u)[r] + (if in_tree_upto(
                    p@,
                    used@,
                    c as int,
                    r,
                ) {
                    delta as int
                } else {
                    0
                }),
            forall|k: int|
                0 <= k <= m ==> #[trigger] v[k] == old(v)[k] - (if k < c && used[k] {
                    delta as int
                } else {
                    0
                }),
            forall|k: int|
                0 <= k <= m ==> #[trigger] minv[k] == old(minv)[k] - (if k < c && !used[k] {
                    delta as int
                } else {
                    0
                }),
        decreases m + 1 - c,
    {
        let ghost u_before = u@;
        if used[c] {
            let r: usize = p[c];
            proof {
                if c != 0 {
                    assert(p[c as int] != 0 && p[c as int] < i);
                }
                assert(in_tree(p@, used@, m as int, r as int));
                if in_tree_upto(p@, used@, c as int, r as int) {
                    let k = choose|k: int| 0 <= k < c && #[trigger] used[k] && p[k] == r;
                    lemma_tree_rows_differ(
                        a@,
                        old(u)@,
                        old(v)@,
                        p@,
                        way@,
                        used@,
                        rank,
                        n as int,
                        m as int,
                        i as int,
                        count,
                        k,
                        c as int,
                    );
                }
                assert(u[r as int] == old(u)[r as int]);
                assert(-limit <= old(u)[r as int] + delta <= limit);
                if c == 0 {
                    assert(-limit <= old(u)[i as int] + delta <= limit);
                }
            }
            let raised: i32 = u[r] + delta;
            u.set(r, raised);
            let lowered: i32 = v[c] - delta;
            v.set(c, lowered);
        } else {
            let lowered: i32 = minv[c] - delta;
            minv.set(c, lowered);
        }
        proof {
            assert forall|r: int| 1 <= r <= n implies #[trigger] u[r] == old(u)[r] + (
            if in_tree_upto(p@, used@, c as int + 1, r) {
                delta as int
            } else {
                0
            }) by {
                assert(u_before[r] == old(u)[r] + (if in_tree_upto(p@, used@, c as int, r) {
                    delta as int
                } else {
                    0
                }));
                if in_tree_upto(p@, used@, c as int, r) {
                    let k = choose|k: int| 0 <= k < c && #[trigger] used[k] && p[k] == r;
                    assert(in_tree_upto(p@, used@, c as int + 1, r));
                    if used[c as int] && p[c as int] == r {
                        lemma_tree_rows_differ(
                            a@,
                            old(u)@,
                            old(v)@,
                            p@,
                            way@,
                            used@,
                            rank,
                            n as int,
                            m as int,
                            i as int,
                            count,
                            k,
                            c as int,
                        );
                    }
                } else if in_tree_upto(p@, used@, c as int + 1, r) {
                    let k = choose|k: int| 0 <= k < c + 1 && #[trigger] used[k] && p[k] == r;
                    assert(k == c);
                } else {
                    if used[c as int] && p[c as int] == r {
                        assert(in_tree_upto(p@, used@, c as int + 1, r));
                    }
                }
            }
        }
        c += 1;
    }
    proof {
        assert forall|r: int| 1 <= r <= n implies #[trigger] u[r] == old(u)[r] + (if in_tree(
            p@,
            used@,
            m as int,
            r,
        ) {
            delta as int
        } else {
            0
        }) by {
            if in_tree(p@, used@, m as int, r) {
                let k = choose|k: int| 0 <= k <= m && #[trigger] used[k] && p[k] == r;
                assert(in_tree_upto(p@, used@, m as int + 1, r));
            }
            if in_tree_upto(p@, used@, m as int + 1, r) {
                let k = choose|k: int| 0 <= k < m + 1 && #[trigger] used[k] && p[k] == r;
                assert(in_tree(p@, used@, m as int, r));
            }
        }
        lemma_step(
            a@,
            old(u)@,
            old(v)@,
            p@,
            way@,
            old(minv)@,
            used@,
            rank,
            n as int,
            m as int,
            i as int,
            count,
            delta as int,
            j1,
            u@,
            v@,
            minv@,
        );
        assert(used[0]);
    }
}

/// Column `c` is one of the first `t` columns of `chain`.
pub open spec fn on_path(chain: Seq<int>, t: int, c: int) -> bool {
    exists|s: int| 0 <= s < t && #[trigger] chain[s] == c
}

/// `chain` starts at an unused column and follows `way` through used
/// columns of falling rank.
pub open spec fn is_chain(
    way: Seq<usize>,
    used: Seq<bool>,
    rank: Seq<int>,
    chain: Seq<int>,
    m: int,
) -> bool {
    &&& chain.len() >= 1
    &&& 1 <= chain[0] <= m
    &&& !used[chain[0]]
    &&& forall|s: int| 0 <= s < chain.len() - 1 ==> way[#[trigger] chain[s]] == chain[s + 1]
    &&& forall|s: int| 1 <= s < chain.len() ==> 0 <= #[trigger] chain[s] <= m && used[chain[s]]
    &&& forall|s: int, t: int|
        1 <= s < t < chain.len() ==> rank[#[trigger] chain[s]] > rank[#[trigger] chain[t]]
}

/// `p` is `before` with every one of the first `t` columns of `chain`
/// matched to the row that the next column of the chain had.
pub open spec fn rerouted(
    before: Seq<usize>,
    way: Seq<usize>,
    chain: Seq<int>,
    t: int,
    p: Seq<usize>,
    m: int,
) -> bool {
    &&& p.len() == m + 1
    &&& forall|c: int|
        0 <= c <= m ==> #[trigger] p[c] == (if on_path(chain, t, c) {
            before[way[c] as int]
        } else {
            before[c]
        })
}

/// Matching every column of a chain that runs from a free column without
/// slack to column zero to the row of the next one matches one row more.
proof fn lemma_augmented(
    a: Seq<Vec<i32>>,
    u: Seq<i32>,
    v: Seq<i32>,
    before: Seq<usize>,
    way: Seq<usize>,
    minv: Seq<i32>,
    used: Seq<bool>,
    rank: Seq<int>,
    n: int,
    m: int,
    i: int,
    count: int,
    chain: Seq<int>,
    p: Seq<usize>,
)
    requires
        growing(a, u, v, before, way, minv, used, rank, n, m, i, count),
        count > 0,
        is_chain(way, used, rank, chain, m),
        before[chain[0]] == 0,
        minv[chain[0]] == 0,
        chain.last() == 0,
        rerouted(before, way, chain, chain.len() - 1, p, m),
    ensures
        balanced(a, u, v, p, n, m, i),
{
    let t = chain.len() - 1;
    let end = chain[0];
    assert(t >= 1);
    // The columns of the chain differ from each other.
    assert forall|s: int, r: int| 0 <= s < r <= t implies chain[s] != chain[r] by {
        if s == 0 {
            assert(used[chain[r]]);
        } else {
            assert(rank[chain[s]] > rank[chain[r]]);
        }
    }
    // Where the rows of two columns were the same before, the columns were.
    assert forall|x: int, y: int|
        0 <= x <= m && 0 <= y <= m && x != y && before[x] != 0 implies #[trigger] before[x]
        != #[trigger] before[y] by {
        if x == 0 {
            assert(before[y] < i);
        } else if y == 0 {
            assert(before[x] < i);
        } else if x < y {
        } else {
            if before[y] != 0 {
                assert(before[y] != before[x]);
            }
        }
    }
    // What a column of the chain is matched to now.
    assert forall|c: int| 0 <= c <= m && on_path(chain, t, c) implies c >= 1 && way[c] <= m
        && used[way[c] as int] && #[trigger] p[c] == before[way[c] as int] && p[c] != 0 && slack(
        a,
        u,
        v,
        p[c] as int,
        c,
    ) == 0 by {
        let s = choose|s: int| 0 <= s < t && #[trigger] chain[s] == c;
        assert(chain[s] != chain[t]);
        assert(way[chain[s]] == chain[s + 1]);
        assert(used[chain[s + 1]]);
        let w = way[c] as int;
        if w != 0 {
            assert(before[w] != 0);
        }
        if s == 0 {
            assert(!used[c]);
            assert(minv[c] == slack(a, u, v, tree_row(before, way, c), c));
        } else {
            assert(used[chain[s]]);
            assert(slack(a, u, v, tree_row(before, way, c), c) == 0);
        }
    }
    assert forall|j: int| 1 <= j <= m implies #[trigger] p[j] <= i by {
        if on_path(chain, t, j) {
            let w = way[j] as int;
            if w != 0 {
                assert(before[w] < i);
            }
        } else {
            assert(before[j] < i);
        }
    }
    assert forall|j: int| 1 <= j <= m && #[trigger] p[j] == 0 implies v[j] == 0 by {
        assert(!on_path(chain, t, j));
        assert(before[j] == 0);
    }
    assert forall|j: int| 1 <= j <= m && #[trigger] p[j] != 0 implies slack(
        a,
        u,
        v,
        p[j] as int,
        j,
    ) == 0 by {
        if !on_path(chain, t, j) {
            assert(before[j] != 0);
        }
    }
    assert forall|j: int, k: int| 1 <= j < k <= m && #[trigger] p[j] != 0 implies p[j]
        != #[trigger] p[k] by {
        if p[j] == p[k] {
            let x = if on_path(chain, t, j) {
                way[j] as int
            } else {
                j
            };
            let y = if on_path(chain, t, k) {
                way[k] as int
            } else {
                k
            };
            assert(p[j] == before[x] && p[k] == before[y]);
            assert(x == y);
            if on_path(chain, t, j) {
                let s = choose|s: int| 0 <= s < t && #[trigger] chain[s] == j;
                assert(way[chain[s]] == chain[s + 1]);
                if on_path(chain, t, k) {
                    let r = choose|r: int| 0 <= r < t && #[trigger] chain[r] == k;
                    assert(way[chain[r]] == chain[r + 1]);
                    assert(chain[s + 1] == chain[r + 1]);
                    assert(s == r);
                } else {
                    assert(chain[s + 1] == k);
                    if s + 1 < t {
                        assert(on_path(chain, t, k));
                    }
                }
            } else if on_path(chain, t, k) {
                let r = choose|r: int| 0 <= r < t && #[trigger] chain[r] == k;
                assert(way[chain[r]] == chain[r + 1]);
                assert(chain[r + 1] == j);
                if r + 1 < t {
                    assert(on_path(chain, t, j));
                }
            }
        }
    }
    assert forall|r: int, j: int| 1 <= r <= i && 1 <= j <= m implies #[trigger] slack(
        a,
        u,
        v,
        r,
        j,
    ) >= 0 by {
        if r == i {
            assert(row_feasible(a, u, v, m, i));
        }
    }
    assert forall|r: int| 1 <= r <= i implies #[trigger] row_matched(p, m, r) by {
        let x = if r < i {
            assert(row_matched(before, m, r));
            choose|j: int| 1 <= j <= m && #[trigger] before[j] == r
        } else {
            0
        };
        assert(before[x] == r);
        if exists|s: int| 1 <= s <= t && #[trigger] chain[s] == x {
            let s = choose|s: int| 1 <= s <= t && #[trigger] chain[s] == x;
            let c = chain[s - 1];
            assert(on_path(chain, t, c));
            assert(way[chain[s - 1]] == chain[s]);
            assert(p[c] == r);
        } else {
            assert(x != 0);
            if on_path(chain, t, x) {
                let s = choose|s: int| 0 <= s < t && #[trigger] chain[s] == x;
                assert(s == 0);
            }
            assert(p[x] == r);
        }
    }
    assert(on_path(chain, t, end));
    assert forall|j: int| 0 <= j < m && j != end - 1 implies #[trigger] matched_term(before, j)
        == matched_term(p, j) by {
        let c = j + 1;
        if on_path(chain, t, c) {
            let s = choose|s: int| 0 <= s < t && #[trigger] chain[s] == c;
            assert(s >= 1);
            assert(used[chain[s]]);
            assert(before[c] != 0);
            assert(p[c] != 0);
        } else {
            assert(p[c] == before[c]);
        }
    }
    assert(p[end] != 0);
    lemma_sum_point_update(
        |j: int| matched_term(before, j),
        |j: int| matched_term(p, j),
        m,
        end - 1,
    );
}

/// Follows `way` back from the free column `end` to column zero and
/// matches every column on the way to the row of the next one.
fn augment(
    p: &mut Vec<usize>,
    way: &Vec<usize>,
    end: usize,
    m: usize,
    Ghost(a): Ghost<Seq<Vec<i32>>>,
    Ghost(u): Ghost<Seq<i32>>,
    Ghost(v): Ghost<Seq<i32>>,
    Ghost(minv): Ghost<Seq<i32>>,
    Ghost(used): Ghost<Seq<bool>>,
    Ghost(rank): Ghost<Seq<int>>,
    Ghost(n): Ghost<int>,
    Ghost(i): Ghost<int>,
    Ghost(count): Ghost<int>,
)
    requires
        growing(a, u, v, old(p)@, way@, minv, used, rank, n, m as int, i, count),
        count > 0,
        1 <= end <= m,
        !used[end as int],
        old(p)[end as int] == 0,
        minv[end as int] == 0,
    ensures
        balanced(a, u, v, final(p)@, n, m as int, i),
{
    let mut j0: usize = end;
    let ghost mut chain: Seq<int> = seq![end as int];
    while j0 != 0
        invariant
            growing(a, u, v, old(p)@, way@, minv, used, rank, n, m as int, i, count),
            count > 0,
            1 <= end <= m,
            is_chain(way@, used, rank, chain, m as int),
            chain[0] == end,
            chain.last() == j0,
            j0 <= m,
            rerouted(old(p)@, way@, chain, chain.len() - 1, p@, m as int),
        decreases
                (if chain.len() == 1 {
                    count
                } else {
                    rank[j0 as int]
                }),
    {
        let ghost t = chain.len() - 1;
        let ghost p_before = p@;
        proof {
            if t == 0 {
                assert(!used[j0 as int]);
            } else {
                assert(used[chain[t]]);
            }
        }
        let j1: usize = way[j0];
        proof {
            assert(used[j1 as int]);
            assert(0 <= rank[j1 as int] < count);
            if on_path(chain, t, j1 as int) {
                let s = choose|s: int| 0 <= s < t && #[trigger] chain[s] == j1;
                if s != 0 {
                    assert(rank[chain[s]] > rank[chain[t]]);
                }
            }
        }
        let row: usize = p[j1];
        p.set(j0, row);
        proof {
            let longer = chain.push(j1 as int);
            assert forall|s: int| 0 <= s < longer.len() - 1 implies way@[#[trigger] longer[s]]
                == longer[s + 1] by {
                if s < t {
                    assert(way@[chain[s]] == chain[s + 1]);
                }
            }
            assert forall|s: int, r: int| 1 <= s < r < longer.len() implies rank[#[trigger] longer[s]]
                > rank[#[trigger] longer[r]] by {
                if r <= t {
                    assert(rank[chain[s]] > rank[chain[r]]);
                } else if s < t {
                    assert(rank[chain[s]] > rank[chain[t]]);
                }
            }
            assert forall|s: int| 1 <= s < longer.len() implies 0 <= #[trigger] longer[s] <= m
                && used[longer[s]] by {
                if s <= t {
                    assert(used[chain[s]]);
                }
            }
            assert forall|c: int| 0 <= c <= m implies #[trigger] p[c] == (if on_path(
                longer,
                t + 1,
                c,
            ) {
                old(p)[way[c] as int]
            } else {
                old(p)[c]
            }) by {
                if on_path(chain, t, c) {
                    let s = choose|s: int| 0 <= s < t && #[trigger] chain[s] == c;
                    assert(longer[s] == c);
                    assert(on_path(longer, t + 1, c));
                    if c == j0 {
                        if s != 0 {
                            assert(rank[chain[s]] > rank[chain[t]]);
                        } else {
                            assert(t != 0);
                            assert(used[chain[t]]);
                        }
                    }
                    assert(p_before[c] == old(p)[way[c] as int]);
                } else if c == j0 {
                    assert(longer[t] == c);
                    assert(on_path(longer, t + 1, c));
                } else {
                    if on_path(longer, t + 1, c) {
                        let s = choose|s: int| 0 <= s < t + 1 && #[trigger] longer[s] == c;
                        assert(s < t);
                        assert(chain[s] == c);
                    }
                    assert(p_before[c] == old(p)[c]);
                }
            }
            chain = longer;
        }
        j0 = j1;
    }
    proof {
        lemma_augmented(a, u, v, old(p)@, way@, minv, used, rank, n, m as int, i, count, chain, p@);
    }
}

/// Turns the matching around: the answer holds for every row the column
/// that is matched to it, and at index zero the last free column.
fn read_off(
    p: &Vec<usize>,
    n: usize,
    m: usize,
    Ghost(a): Ghost<Seq<Vec<i32>>>,
    Ghost(u): Ghost<Seq<i32>>,
    Ghost(v): Ghost<Seq<i32>>,
) -> (ans: Vec<i32>)
    requires
        n <= m <= i32::MAX,
        balanced(a, u, v, p@, n as int, m as int, n as int),
    ensures
        ans.len() == n + 1,
        forall|r: int| 1 <= r <= n ==> 1 <= #[trigger] ans[r] <= m && p[ans[r] as int] == r,
        0 <= ans[0] <= m,
        ans[0] != 0 ==> p[ans[0] as int] == 0,
        forall|j: int| 1 <= j <= m && ans[0] < j ==> #[trigger] p[j] != 0,
{
    let mut ans: Vec<i32> = vec![0; n + 1];
    let mut j: usize = 1;
    while j <= m
        invariant
            1 <= j <= m + 1,
            n <= m <= i32::MAX,
            ans.len() == n + 1,
            balanced(a, u, v, p@, n as int, m as int, n as int),
            forall|r: int| 0 <= r <= n ==> 0 <= #[trigger] ans[r] < j,
            forall|r: int| 0 <= r <= n && #[trigger] ans[r] != 0 ==> p[ans[r] as int] == r,
            forall|c: int|
                1 <= c < j ==> (#[trigger] p[c] == 0 ==> c <= ans[0]) && (p[c] != 0 ==> ans[p[c] as int]
                    == c),
        decreases m + 1 - j,
    {
        let ghost ans_before = ans@;
        let row: usize = p[j];
        ans.set(row, j as i32);
        proof {
            assert forall|c: int| 1 <= c < j + 1 implies (#[trigger] p[c] == 0 ==> c <= ans[0]) && (
            p[c] != 0 ==> ans[p[c] as int] == c) by {
                if c < j {
                    assert(p[c] == 0 ==> c <= ans_before[0]);
                    assert(p[c] != 0 ==> ans_before[p[c] as int] == c);
                    if p[c] != 0 {
                        assert(p[c] != p[j as int]);
                    }
                }
            }
        }
        j += 1;
    }
    proof {
        assert forall|r: int| 1 <= r <= n implies 1 <= #[trigger] ans[r] <= m && p[ans[r] as int]
            == r by {
            assert(row_matched(p@, m as int, r));
            let c = choose|c: int| 1 <= c <= m && #[trigger] p[c] == r;
            assert(ans[p[c] as int] == c);
        }
        assert forall|c: int| 1 <= c <= m && ans[0] < c implies #[trigger] p[c] != 0 by {
            assert(p[c] == 0 ==> c <= ans[0]);
        }
    }
    ans
}

/// Solves the assignment problem for the `n` rows and `m` columns of the
/// cost table `a`. The answer holds, for each row counted from one, the
/// column counted from one that the row gets; no two rows get the same
/// column, and no other such choice costs less. Index zero of the answer
/// holds the last column that no row gets, or zero if there is none.
pub fn hungarian_alg(a: Vec<Vec<i32>>, n: usize, m: usize) -> (ans: Vec<i32>)
    requires
        n <= m <= i32::MAX,
        well_formed(a@, n as int, m as int),
    ensures
        ans.len() == n + 1,
        is_assignment(as_choice(ans@), n as int, m as int),
        forall|choice: Seq<int>| #[trigger]
            is_assignment(choice, n as int, m as int) ==> total_cost(
                a@,
                as_choice(ans@),
                n as int,
            ) <= total_cost(a@, choice, n as int),
        0 <= ans[0] <= m,
        ans[0] != 0 ==> !taken(as_choice(ans@), n as int, ans[0] as int),
        forall|j: int|
            1 <= j <= m && ans[0] < j ==> #[trigger] taken(as_choice(ans@), n as int, j),
{
    let ghost limit = cost_limit(n as int);
    let mut u: Vec<i32> = vec![0; n + 1];
    let mut v: Vec<i32> = vec![0; m + 1];
    let mut p: Vec<usize> = vec![0; m + 1];
    let mut way: Vec<usize> = vec![0; m + 1];
    proof {
        assert(0 <= limit) by (nonlinear_arith)
            requires
                limit == i32::MAX as int / (n + 4),
                n >= 0,
        ;
        lemma_sum_zero(|j: int| matched_term(p@, j), m as int);
    }
    let mut i: usize = 1;
    while i <= n
        invariant
            1 <= i <= n + 1,
            n <= m <= i32::MAX,
            limit == cost_limit(n as int),
            well_formed(a@, n as int, m as int),
            way.len() == m + 1,
            balanced(a@, u@, v@, p@, n as int, m as int, i - 1),
            -((i - 1) * limit) <= v[0] <= (i - 1) * limit,
        decreases n + 1 - i,
    {
        let ghost p_before = p@;
        p.set(0, i);
        let mut j0: usize = 0;
        let mut minv: Vec<i32> = vec![i32::MAX; m + 1];
        let mut used: Vec<bool> = vec![false; m + 1];
        let ghost mut rank: Seq<int> = Seq::new((m + 1) as nat, |j: int| -1int);
        let ghost mut count: int = 0;
        let ghost drift: int = v[0] as int;
        proof {
            lemma_cost_limit(n as int, i as int - 1);
            lemma_cost_limit(n as int, i as int);
            assert forall|j: int| 0 <= j < m implies #[trigger] matched_term(p_before, j)
                == matched_term(p@, j) by {}
            lemma_sum_congruence(
                |j: int| matched_term(p_before, j),
                |j: int| matched_term(p@, j),
                m as int,
            );
            assert forall|r: int| 1 <= r < i implies #[trigger] row_matched(p@, m as int, r) by {
                assert(row_matched(p_before, m as int, r));
                let c = choose|c: int| 1 <= c <= m && #[trigger] p_before[c] == r;
                assert(p[c] == r);
            }
            assert forall|j: int| 1 <= j <= m implies #[trigger] p[j] < i by {
                assert(p_before[j] <= i - 1);
            }
            assert(steady(
                a@,
                u@,
                v@,
                p@,
                way@,
                used@,
                rank,
                n as int,
                m as int,
                i as int,
                count,
            ));
            lemma_sum_prefix(|j: int| unused_term(used@, j), 0, m as int + 1);
        }
        while p[j0] != 0
            invariant
                1 <= i <= n,
                n <= m <= i32::MAX,
                limit == cost_limit(n as int),
                well_formed(a@, n as int, m as int),
                -((i - 1) * limit) <= drift <= (i - 1) * limit,
                i * limit == (i - 1) * limit + limit,
                0 <= limit,
                way.len() == m + 1,
                used.len() == m + 1,
                j0 <= m,
                growing(
                    a@,
                    u@,
                    v@,
                    p@,
                    way@,
                    minv@,
                    used@,
                    rank,
                    n as int,
                    m as int,
                    i as int,
                    count,
                ),
                !used[j0 as int],
                count == 0 ==> j0 == 0,
                count > 0 ==> j0 >= 1 && minv[j0 as int] == 0,
                v[0] + u[i as int] == drift,
                unused_count(used@, m as int + 1) >= 0,
            decreases unused_count(used@, m as int + 1),
        {
            let ghost before = used@;
            proof {
                lemma_mark(
                    a@,
                    u@,
                    v@,
                    p@,
                    way@,
                    minv@,
                    used@,
                    rank,
                    n as int,
                    m as int,
                    i as int,
                    count,
                    j0 as int,
                );
                lemma_unused_after_mark(used@, m as int + 1, j0 as int);
            }
            used.set(j0, true);
            proof {
                rank = rank.update(j0 as int, count);
                count = count + 1;
                assert(before =~= used@.update(j0 as int, false));
            }
            let (delta, j1) = scan(
                &a,
                &u,
                &v,
                &p,
                &mut way,
                &mut minv,
                &used,
                n,
                m,
                i,
                j0,
                Ghost(rank),
                Ghost(count),
                Ghost(before),
            );
            shift(
                &a,
                &mut u,
                &mut v,
                &p,
                &way,
                &mut minv,
                &used,
                n,
                m,
                i,
                delta,
                Ghost(j1 as int),
                Ghost(rank),
                Ghost(count),
                Ghost(drift),
            );
            j0 = j1;
        }
        augment(
            &mut p,
            &way,
            j0,
            m,
            Ghost(a@),
            Ghost(u@),
            Ghost(v@),
            Ghost(minv@),
            Ghost(used@),
            Ghost(rank),
            Ghost(n as int),
            Ghost(i as int),
            Ghost(count),
        );
        proof {
            assert(-limit <= u[i as int] <= limit);
        }
        i += 1;
    }
    let ans = read_off(&p, n, m, Ghost(a@), Ghost(u@), Ghost(v@));
    proof {
        let mine = as_choice(ans@);
        assert forall|r: int| 1 <= r <= n implies 1 <= #[trigger] mine[r] <= m && p[mine[r]] == r by {
            assert(1 <= ans[r] <= m && p[ans[r] as int] == r);
        }
        assert forall|j: int| 1 <= j <= m implies (#[trigger] taken(mine, n as int, j) <==> p[j]
            != 0) by {
            if taken(mine, n as int, j) {
                let r = choose|r: int| 1 <= r <= n && #[trigger] mine[r] == j;
                assert(p[mine[r]] == r);
            }
            if p[j] != 0 {
                let r = p[j] as int;
                assert(p[mine[r]] == r);
                if mine[r] < j {
                    assert(p[mine[r]] != p[j]);
                } else if j < mine[r] {
                    assert(p[j] != p[mine[r]]);
                }
                assert(mine[r] == j);
            }
        }
        assert(is_assignment(mine, n as int, m as int));
        assert forall|r: int, j: int| 1 <= r <= n && 1 <= j <= m implies #[trigger] slack(
            a@,
            u@,
            v@,
            r,
            j,
        ) >= 0 by {}
        assert forall|r: int| 1 <= r <= n implies slack(a@, u@, v@, r, #[trigger] mine[r]) == 0 by {
            assert(p[mine[r]] == r);
        }
        lemma_tight_assignment(a@, u@, v@, mine, n as int, m as int);
        assert forall|choice: Seq<int>| #[trigger]
            is_assignment(choice, n as int, m as int) implies total_cost(a@, mine, n as int)
            <= total_cost(a@, choice, n as int) by {
            lemma_potentials_bound(a@, u@, v@, choice, n as int, m as int);
        }
        if ans[0] != 0 {
            assert(p[ans[0] as int] == 0);
            assert(taken(mine, n as int, ans[0] as int) <==> p[ans[0] as int] != 0);
        }
    }
    ans
}

} // verus!
