//! Why the greedy choice of edges in order of weight gives a spanning
//! forest of least weight: a forest that lies within what a set of edges
//! joins has no more edges than any forest that joins as much, at every
//! weight, so that its edges are at least as heavy one by one.

use crate::graphs::min_spanning_tree::{
    consistent,
    joined,
    lemma_picks_span,
    picks,
    total_weight,
    Edge,
};
use crate::summation::{lemma_sum_congruence, lemma_sum_monotone, lemma_sum_point_update, sum_to};
use vstd::prelude::*;

verus! {

/// Both ends of every edge are among the `n` vertices.
pub open spec fn in_range(s: Seq<Edge>, n: nat) -> bool {
    forall|k: int| 0 <= k < s.len() ==> (#[trigger] s[k]).from < n && s[k].to < n
}

/// The least vertex from `u` on that is joined to `v`, or `v` itself.
pub open spec fn leader_from(s: Seq<Edge>, n: nat, v: int, u: int) -> int
    decreases v - u,
{
    if u >= v {
        v
    } else if joined(s, n, u, v) {
        u
    } else {
        leader_from(s, n, v, u + 1)
    }
}

/// The least vertex that is joined to `v`.
pub open spec fn leader(s: Seq<Edge>, n: nat, v: int) -> int {
    leader_from(s, n, v, 0)
}

/// One if `v` is the least of the vertices that it is joined to, else
/// zero.
pub open spec fn part_term(s: Seq<Edge>, n: nat, v: int) -> int {
    if leader(s, n, v) == v {
        1
    } else {
        0
    }
}

/// Into how many parts the edges of `s` join the `n` vertices.
pub open spec fn parts(s: Seq<Edge>, n: nat) -> int {
    sum_to(|v: int| part_term(s, n, v), n as int)
}

/// What the search for the least vertex joined to `v` finds.
proof fn lemma_leader_from(s: Seq<Edge>, n: nat, v: int, u: int)
    requires
        0 <= u <= v,
    ensures
        u <= leader_from(s, n, v, u) <= v,
        joined(s, n, leader_from(s, n, v, u), v),
        forall|w: int| u <= w < leader_from(s, n, v, u) ==> !joined(s, n, w, v),
    decreases v - u,
{
    if u < v && !joined(s, n, u, v) {
        lemma_leader_from(s, n, v, u + 1);
    }
}

/// The least vertex joined to `v` is joined to `v`, is no greater than
/// `v`, and no lesser vertex is joined to `v`.
pub proof fn lemma_leader(s: Seq<Edge>, n: nat, v: int)
    requires
        0 <= v,
    ensures
        0 <= leader(s, n, v) <= v,
        joined(s, n, leader(s, n, v), v),
        forall|w: int| 0 <= w < leader(s, n, v) ==> !joined(s, n, w, v),
{
    lemma_leader_from(s, n, v, 0);
}

/// Vertices that are joined have the same least vertex joined to them.
pub proof fn lemma_same_leader(s: Seq<Edge>, n: nat, a: int, b: int)
    requires
        0 <= a,
        0 <= b,
        joined(s, n, a, b),
    ensures
        leader(s, n, a) == leader(s, n, b),
{
    lemma_leader(s, n, a);
    lemma_leader(s, n, b);
    let la = leader(s, n, a);
    let lb = leader(s, n, b);
    assert(joined(s, n, la, b));
    assert(joined(s, n, lb, a));
    if la < lb {
        assert(!joined(s, n, la, b));
    }
    if lb < la {
        assert(!joined(s, n, lb, a));
    }
}

/// The labelling that gives every vertex the least vertex joined to it.
pub open spec fn by_leader(s: Seq<Edge>, n: nat) -> Seq<int> {
    Seq::new(n, |v: int| leader(s, n, v))
}

/// Giving every vertex the least vertex joined to it gives both ends of
/// every edge the same label.
pub proof fn lemma_by_leader_consistent(s: Seq<Edge>, n: nat)
    requires
        in_range(s, n),
    ensures
        consistent(s, by_leader(s, n)),
{
    assert forall|k: int| 0 <= k < s.len() implies by_leader(s, n)[(#[trigger] s[k]).from as int]
        == by_leader(s, n)[s[k].to as int] by {
        assert(joined(s, n, s[k].from as int, s[k].to as int)) by {
            assert forall|label: Seq<int>|
                label.len() == n && #[trigger] consistent(s, label) implies label[s[k].from as int]
                == label[s[k].to as int] by {}
        }
        lemma_same_leader(s, n, s[k].from as int, s[k].to as int);
    }
}

/// Edges that join no more than others leave at least as many parts.
pub proof fn lemma_finer_has_more(a: Seq<Edge>, b: Seq<Edge>, n: nat)
    requires
        forall|x: int, y: int| 0 <= x < n && 0 <= y < n && joined(a, n, x, y) ==> joined(b, n, x, y),
    ensures
        parts(b, n) <= parts(a, n),
{
    assert forall|v: int| 0 <= v < n implies #[trigger] part_term(b, n, v) <= part_term(a, n, v) by {
        lemma_leader(a, n, v);
        lemma_leader(b, n, v);
        if leader(b, n, v) == v && leader(a, n, v) != v {
            assert(joined(a, n, leader(a, n, v), v));
            assert(joined(b, n, leader(a, n, v), v));
        }
    }
    lemma_sum_monotone(|v: int| part_term(b, n, v), |v: int| part_term(a, n, v), n as int);
}

/// Without edges every vertex is a part of its own.
pub proof fn lemma_parts_of_none(n: nat)
    ensures
        parts(Seq::<Edge>::empty(), n) == n,
{
    let none = Seq::<Edge>::empty();
    let own = Seq::new(n, |v: int| v);
    assert(consistent(none, own));
    assert forall|v: int| 0 <= v < n implies #[trigger] part_term(none, n, v) == 1 by {
        lemma_leader(none, n, v);
        let l = leader(none, n, v);
        if l != v {
            assert(own[l] == own[v]);
        }
    }
    lemma_sum_congruence(|v: int| part_term(none, n, v), |v: int| 1int, n as int);
    lemma_ones(n as int);
}

/// The sum of `k` ones is `k`.
proof fn lemma_ones(k: int)
    requires
        k >= 0,
    ensures
        sum_to(|v: int| 1int, k) == k,
    decreases k,
{
    if k > 0 {
        lemma_ones(k - 1);
    }
}

/// An edge between vertices that are joined changes nothing about what is
/// joined.
pub proof fn lemma_push_joined(s: Seq<Edge>, e: Edge, n: nat)
    requires
        joined(s, n, e.from as int, e.to as int),
    ensures
        parts(s.push(e), n) == parts(s, n),
        forall|x: int, y: int| joined(s.push(e), n, x, y) <==> joined(s, n, x, y),
{
    let longer = s.push(e);
    assert forall|label: Seq<int>| label.len() == n implies (#[trigger] consistent(longer, label)
        <==> consistent(s, label)) by {
        if consistent(longer, label) {
            assert forall|k: int| 0 <= k < s.len() implies label[(#[trigger] s[k]).from as int]
                == label[s[k].to as int] by {
                assert(longer[k] == s[k]);
            }
        }
        if consistent(s, label) {
            assert forall|k: int| 0 <= k < longer.len() implies label[(
            #[trigger] longer[k]).from as int] == label[longer[k].to as int] by {
                if k < s.len() {
                    assert(longer[k] == s[k]);
                }
            }
        }
    }
    assert forall|x: int, y: int| joined(longer, n, x, y) <==> joined(s, n, x, y) by {
        if joined(longer, n, x, y) {
            assert forall|label: Seq<int>|
                label.len() == n && #[trigger] consistent(s, label) implies label[x] == label[y] by {
                assert(consistent(longer, label));
            }
        }
        if joined(s, n, x, y) {
            assert forall|label: Seq<int>|
                label.len() == n && #[trigger] consistent(longer, label) implies label[x]
                == label[y] by {
                assert(consistent(s, label));
            }
        }
    }
    lemma_finer_has_more(s, longer, n);
    lemma_finer_has_more(longer, s, n);
}

/// The label of a vertex once the parts of `lo` and `hi` have been made
/// one.
pub open spec fn merged(s: Seq<Edge>, n: nat, lo: int, hi: int, v: int) -> int {
    if leader(s, n, v) == hi {
        lo
    } else {
        leader(s, n, v)
    }
}

/// An edge between vertices that are not joined makes one part of two.
pub proof fn lemma_push_unjoined(s: Seq<Edge>, e: Edge, n: nat)
    requires
        in_range(s, n),
        e.from < n,
        e.to < n,
        !joined(s, n, e.from as int, e.to as int),
    ensures
        parts(s.push(e), n) == parts(s, n) - 1,
{
    let longer = s.push(e);
    let a = e.from as int;
    let b = e.to as int;
    lemma_leader(s, n, a);
    lemma_leader(s, n, b);
    let ra = leader(s, n, a);
    let rb = leader(s, n, b);
    assert(ra != rb) by {
        if ra == rb {
            assert(joined(s, n, ra, a) && joined(s, n, ra, b));
            assert(joined(s, n, a, b));
        }
    }
    let lo = if ra < rb {
        ra
    } else {
        rb
    };
    let hi = if ra < rb {
        rb
    } else {
        ra
    };
    // The least vertices of the two parts are their own least vertices.
    lemma_same_leader(s, n, ra, a);
    lemma_same_leader(s, n, rb, b);
    assert(leader(s, n, lo) == lo && leader(s, n, hi) == hi);
    let relabel = Seq::new(n, |v: int| merged(s, n, lo, hi, v));
    lemma_by_leader_consistent(s, n);
    assert(consistent(longer, relabel)) by {
        assert forall|k: int| 0 <= k < longer.len() implies relabel[(
        #[trigger] longer[k]).from as int] == relabel[longer[k].to as int] by {
            if k < s.len() {
                assert(longer[k] == s[k]);
                assert(by_leader(s, n)[s[k].from as int] == by_leader(s, n)[s[k].to as int]);
            }
        }
    }
    // Two vertices are joined exactly if they have the same new label.
    assert forall|x: int, y: int| 0 <= x < n && 0 <= y < n implies (#[trigger] joined(
        longer,
        n,
        x,
        y,
    ) <==> merged(s, n, lo, hi, x) == merged(s, n, lo, hi, y)) by {
        if joined(longer, n, x, y) {
            assert(relabel[x] == relabel[y]);
        }
        if merged(s, n, lo, hi, x) == merged(s, n, lo, hi, y) {
            lemma_leader(s, n, x);
            lemma_leader(s, n, y);
            assert forall|label: Seq<int>|
                label.len() == n && #[trigger] consistent(longer, label) implies label[x]
                == label[y] by {
                assert(consistent(s, label)) by {
                    assert forall|k: int| 0 <= k < s.len() implies label[(
                    #[trigger] s[k]).from as int] == label[s[k].to as int] by {
                        assert(longer[k] == s[k]);
                    }
                }
                assert(longer[s.len() as int] == e);
                assert(label[a] == label[b]);
                assert(label[ra] == label[a] && label[rb] == label[b]);
                assert(label[lo] == label[hi]);
                assert(label[leader(s, n, x)] == label[x]);
                assert(label[leader(s, n, y)] == label[y]);
            }
        }
    }
    assert forall|v: int| 0 <= v < n && v != hi implies #[trigger] part_term(s, n, v) == part_term(
        longer,
        n,
        v,
    ) by {
        lemma_leader(s, n, v);
        lemma_leader(longer, n, v);
        let l = leader(s, n, v);
        let m = leader(longer, n, v);
        if l == v {
            if m != v {
                lemma_leader(s, n, m);
                assert(joined(longer, n, m, v));
                assert(merged(s, n, lo, hi, m) == merged(s, n, lo, hi, v));
                assert(merged(s, n, lo, hi, v) == v);
                assert(merged(s, n, lo, hi, m) <= m);
            }
        } else {
            assert(joined(s, n, l, v));
            assert(merged(s, n, lo, hi, l) == merged(s, n, lo, hi, v)) by {
                lemma_same_leader(s, n, l, v);
            }
            assert(joined(longer, n, l, v));
            if m == v {
                assert(!joined(longer, n, l, v));
            }
        }
    }
    assert(part_term(s, n, hi) == 1);
    assert(part_term(longer, n, hi) == 0) by {
        lemma_leader(longer, n, hi);
        assert(merged(s, n, lo, hi, lo) == merged(s, n, lo, hi, hi));
        assert(joined(longer, n, lo, hi));
        if leader(longer, n, hi) == hi {
            assert(!joined(longer, n, lo, hi));
        }
    }
    lemma_sum_point_update(
        |v: int| part_term(s, n, v),
        |v: int| part_term(longer, n, v),
        n as int,
        hi,
    );
}

/// The edges among the first `k` of `sorted` that `take` marks, in
/// order.
pub open spec fn chosen(sorted: Seq<Edge>, take: Seq<bool>, k: int) -> Seq<Edge>
    decreases k,
{
    if k <= 0 {
        Seq::empty()
    } else if take[k - 1] {
        chosen(sorted, take, k - 1).push(sorted[k - 1])
    } else {
        chosen(sorted, take, k - 1)
    }
}

/// No edge that `take` marks has its ends joined by the marked edges
/// before it.
pub open spec fn is_forest(sorted: Seq<Edge>, take: Seq<bool>, n: nat) -> bool {
    &&& take.len() == sorted.len()
    &&& forall|i: int|
        0 <= i < sorted.len() && #[trigger] take[i] ==> !joined(
            chosen(sorted, take, i),
            n,
            sorted[i].from as int,
            sorted[i].to as int,
        )
}

/// The edges that `take` marks join whatever the edges of `sorted` join.
pub open spec fn spans(sorted: Seq<Edge>, take: Seq<bool>, n: nat) -> bool {
    forall|a: int, b: int|
        0 <= a < n && 0 <= b < n && #[trigger] joined(sorted, n, a, b) ==> joined(
            chosen(sorted, take, sorted.len() as int),
            n,
            a,
            b,
        )
}

/// The edges are in order of weight.
pub open spec fn by_weight(sorted: Seq<Edge>) -> bool {
    forall|i: int, j: int| 0 <= i <= j < sorted.len() ==> sorted[i].weight <= sorted[j].weight
}

/// The marks of the greedy choice.
pub open spec fn greedy(sorted: Seq<Edge>, n: nat) -> Seq<bool> {
    Seq::new(
        sorted.len(),
        |i: int| !joined(picks(sorted, n, i), n, sorted[i].from as int, sorted[i].to as int),
    )
}

/// The edges marked among the first `k` lie within the graph.
proof fn lemma_chosen_in_range(sorted: Seq<Edge>, take: Seq<bool>, n: nat, k: int)
    requires
        in_range(sorted, n),
        0 <= k <= sorted.len(),
    ensures
        in_range(chosen(sorted, take, k), n),
        chosen(sorted, take, k).len() <= k,
    decreases k,
{
    if k > 0 {
        lemma_chosen_in_range(sorted, take, n, k - 1);
        let before = chosen(sorted, take, k - 1);
        let now = chosen(sorted, take, k);
        assert forall|i: int| 0 <= i < now.len() implies (#[trigger] now[i]).from < n && now[i].to
            < n by {
            if i < before.len() {
                assert(now[i] == before[i]);
            }
        }
    }
}

/// What the greedy choice marks among the first `k` edges is what it
/// keeps of them.
proof fn lemma_greedy_is_picks(sorted: Seq<Edge>, n: nat, k: int)
    requires
        0 <= k <= sorted.len(),
    ensures
        chosen(sorted, greedy(sorted, n), k) == picks(sorted, n, k),
    decreases k,
{
    if k > 0 {
        lemma_greedy_is_picks(sorted, n, k - 1);
    }
}

/// A labelling that gives the ends of each of the first `k` edges the
/// same label does so for the marked ones among them.
proof fn lemma_chosen_consistent(sorted: Seq<Edge>, take: Seq<bool>, k: int, label: Seq<int>)
    requires
        0 <= k <= sorted.len(),
        consistent(sorted.take(k), label),
    ensures
        consistent(chosen(sorted, take, k), label),
    decreases k,
{
    if k > 0 {
        let head = sorted.take(k - 1);
        let whole = sorted.take(k);
        assert forall|i: int| 0 <= i < head.len() implies label[(#[trigger] head[i]).from as int]
            == label[head[i].to as int] by {
            assert(whole[i] == head[i]);
        }
        lemma_chosen_consistent(sorted, take, k - 1, label);
        let before = chosen(sorted, take, k - 1);
        let now = chosen(sorted, take, k);
        assert(whole[k - 1] == sorted[k - 1]);
        assert forall|i: int| 0 <= i < now.len() implies label[(#[trigger] now[i]).from as int]
            == label[now[i].to as int] by {
            if i < before.len() {
                assert(now[i] == before[i]);
            }
        }
    }
}

/// A forest has as many edges as it makes the vertices fewer parts.
proof fn lemma_forest_count(sorted: Seq<Edge>, take: Seq<bool>, n: nat, k: int)
    requires
        in_range(sorted, n),
        is_forest(sorted, take, n),
        0 <= k <= sorted.len(),
    ensures
        chosen(sorted, take, k).len() + parts(chosen(sorted, take, k), n) == n,
    decreases k,
{
    if k == 0 {
        lemma_parts_of_none(n);
    } else {
        lemma_forest_count(sorted, take, n, k - 1);
        if take[k - 1] {
            lemma_chosen_in_range(sorted, take, n, k - 1);
            lemma_push_unjoined(chosen(sorted, take, k - 1), sorted[k - 1], n);
        }
    }
}

/// Among the first `k` edges a forest marks no more than the greedy
/// choice keeps.
proof fn lemma_no_more_early(sorted: Seq<Edge>, take: Seq<bool>, n: nat, k: int)
    requires
        in_range(sorted, n),
        is_forest(sorted, take, n),
        0 <= k <= sorted.len(),
    ensures
        chosen(sorted, take, k).len() <= picks(sorted, n, k).len(),
{
    let mine = chosen(sorted, take, k);
    let kept = picks(sorted, n, k);
    assert forall|x: int, y: int| 0 <= x < n && 0 <= y < n && joined(mine, n, x, y) implies joined(
        kept,
        n,
        x,
        y,
    ) by {
        lemma_picks_span(sorted, n, k, x, y);
        assert forall|label: Seq<int>|
            label.len() == n && #[trigger] consistent(sorted.take(k), label) implies label[x]
            == label[y] by {
            lemma_chosen_consistent(sorted, take, k, label);
        }
    }
    lemma_finer_has_more(mine, kept, n);
    lemma_forest_count(sorted, take, n, k);
    lemma_greedy_is_forest(sorted, n);
    lemma_forest_count(sorted, greedy(sorted, n), n, k);
    lemma_greedy_is_picks(sorted, n, k);
}

/// The greedy choice marks a forest.
proof fn lemma_greedy_is_forest(sorted: Seq<Edge>, n: nat)
    ensures
        is_forest(sorted, greedy(sorted, n), n),
{
    let take = greedy(sorted, n);
    assert forall|i: int| 0 <= i < sorted.len() && #[trigger] take[i] implies !joined(
        chosen(sorted, take, i),
        n,
        sorted[i].from as int,
        sorted[i].to as int,
    ) by {
        lemma_greedy_is_picks(sorted, n, i);
    }
}

/// A forest that joins all that the edges join marks as many edges as
/// the greedy choice keeps.
proof fn lemma_as_many_in_all(sorted: Seq<Edge>, take: Seq<bool>, n: nat)
    requires
        in_range(sorted, n),
        is_forest(sorted, take, n),
        spans(sorted, take, n),
    ensures
        chosen(sorted, take, sorted.len() as int).len() == picks(
            sorted,
            n,
            sorted.len() as int,
        ).len(),
{
    let m = sorted.len() as int;
    let mine = chosen(sorted, take, m);
    let kept = picks(sorted, n, m);
    lemma_no_more_early(sorted, take, n, m);
    assert(sorted.take(m) =~= sorted);
    assert forall|x: int, y: int| 0 <= x < n && 0 <= y < n && joined(kept, n, x, y) implies joined(
        mine,
        n,
        x,
        y,
    ) by {
        lemma_picks_span(sorted, n, m, x, y);
    }
    lemma_finer_has_more(kept, mine, n);
    lemma_forest_count(sorted, take, n, m);
    lemma_greedy_is_forest(sorted, n);
    lemma_forest_count(sorted, greedy(sorted, n), n, m);
    lemma_greedy_is_picks(sorted, n, m);
}

/// The weight of a list of edges with one more edge.
proof fn lemma_weight_push(s: Seq<Edge>, e: Edge)
    ensures
        total_weight(s.push(e)) == total_weight(s) + e.weight,
{
    assert(s.push(e).drop_last() =~= s);
}

/// A forest that has no more edges than the greedy choice among the
/// first edges, however many are taken, is no lighter than the greedy
/// choice by more than the edges that it is short of could weigh.
proof fn lemma_weights(sorted: Seq<Edge>, take: Seq<bool>, n: nat, k: int, w: int)
    requires
        in_range(sorted, n),
        by_weight(sorted),
        is_forest(sorted, take, n),
        0 <= k <= sorted.len(),
        k > 0 ==> w >= sorted[k - 1].weight,
    ensures
        total_weight(chosen(sorted, take, k)) - total_weight(picks(sorted, n, k)) >= w * (chosen(
            sorted,
            take,
            k,
        ).len() - picks(sorted, n, k).len()),
    decreases k,
{
    if k > 0 {
        let last = sorted[k - 1].weight as int;
        if k > 1 {
            assert(sorted[k - 2].weight <= sorted[k - 1].weight);
        }
        lemma_weights(sorted, take, n, k - 1, last);
        lemma_no_more_early(sorted, take, n, k);
        let mine = chosen(sorted, take, k - 1);
        let kept = picks(sorted, n, k - 1);
        let now = chosen(sorted, take, k);
        let then = picks(sorted, n, k);
        if take[k - 1] {
            lemma_weight_push(mine, sorted[k - 1]);
        }
        if then != kept {
            lemma_weight_push(kept, sorted[k - 1]);
        }
        let lead = now.len() - then.len();
        let gap = total_weight(now) - total_weight(then);
        let more = now.len() - mine.len();
        let other = then.len() - kept.len();
        assert(total_weight(now) == total_weight(mine) + last * more) by {
            assert(last * 1 == last && last * 0 == 0) by (nonlinear_arith);
        }
        assert(total_weight(then) == total_weight(kept) + last * other) by {
            assert(last * 1 == last && last * 0 == 0) by (nonlinear_arith);
        }
        assert(gap >= last * lead) by (nonlinear_arith)
            requires
                total_weight(mine) - total_weight(kept) >= last * (mine.len() - kept.len()),
                gap == total_weight(mine) - total_weight(kept) + last * more - last * other,
                lead == (mine.len() - kept.len()) + more - other,
        ;
        assert(last * lead >= w * lead) by (nonlinear_arith)
            requires
                lead <= 0,
                w >= last,
        ;
    } else {
        assert(chosen(sorted, take, k).len() == 0 && picks(sorted, n, k).len() == 0);
        assert(w * 0 == 0) by (nonlinear_arith);
    }
}

/// No forest among the edges that joins all that the edges join weighs
/// less than what the greedy choice keeps of the edges in order of
/// weight.
pub proof fn lemma_greedy_is_lightest(sorted: Seq<Edge>, take: Seq<bool>, n: nat)
    requires
        in_range(sorted, n),
        by_weight(sorted),
        is_forest(sorted, take, n),
        spans(sorted, take, n),
    ensures
        total_weight(picks(sorted, n, sorted.len() as int)) <= total_weight(
            chosen(sorted, take, sorted.len() as int),
        ),
{
    let m = sorted.len() as int;
    lemma_weights(sorted, take, n, m, if m > 0 {
        sorted[m - 1].weight as int
    } else {
        0
    });
    lemma_as_many_in_all(sorted, take, n);
    let w = if m > 0 {
        sorted[m - 1].weight as int
    } else {
        0
    };
    assert(w * 0 == 0) by (nonlinear_arith);
}

/// No forest among the edges of `sorted` that joins all that these edges
/// join weighs less than `kept`.
pub open spec fn is_lightest(sorted: Seq<Edge>, n: nat, kept: Seq<Edge>) -> bool {
    forall|take: Seq<bool>| #[trigger]
        is_forest(sorted, take, n) && spans(sorted, take, n) ==> total_weight(kept)
            <= total_weight(chosen(sorted, take, sorted.len() as int))
}

} // verus!
