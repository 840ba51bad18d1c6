//! What the breadth-first searches of the maximum-flow solvers share: the
//! count of vertices not yet reached, which bounds their running time, and
//! the facts that make the vertices reached by a completed search a cut.

use crate::graphs::residual_network::ResidualNetwork;
use crate::summation::{lemma_sum_monotone, lemma_sum_point_update, lemma_sum_zero, sum_to};
use vstd::prelude::*;

verus! {

/// One if entry `v` of `marks` is unset, else zero.
pub open spec fn unset_term(marks: Seq<Option<usize>>, v: int) -> int {
    if marks[v] is None {
        1
    } else {
        0
    }
}

/// How many of the first `k` entries of `marks` are unset.
pub open spec fn unset_count(marks: Seq<Option<usize>>, k: int) -> int {
    sum_to(|v: int| unset_term(marks, v), k)
}

/// A count is never negative.
pub proof fn lemma_unset_count_nonnegative(marks: Seq<Option<usize>>, k: int)
    ensures
        unset_count(marks, k) >= 0,
{
    lemma_sum_monotone(|v: int| 0int, |v: int| unset_term(marks, v), k);
    lemma_sum_zero(|v: int| 0int, k);
}

/// Setting one unset entry lowers the count by one.
pub proof fn lemma_unset_count_after_mark(marks: Seq<Option<usize>>, v: int, value: usize)
    requires
        0 <= v < marks.len(),
        marks[v] is None,
    ensures
        unset_count(marks.update(v, Some(value)), marks.len() as int) == unset_count(
            marks,
            marks.len() as int,
        ) - 1,
{
    let after = marks.update(v, Some(value));
    lemma_sum_point_update(
        |x: int| unset_term(marks, x),
        |x: int| unset_term(after, x),
        marks.len() as int,
        v,
    );
}

/// Vertex `v` waits in the queue.
pub open spec fn queued<T>(queue: Seq<(usize, T)>, v: int) -> bool {
    exists|i: int| 0 <= i < queue.len() && (#[trigger] queue[i]).0 == v
}

/// The vertices that a search has marked.
pub open spec fn marked(marks: Seq<Option<usize>>) -> Set<int> {
    Set::new(|v: int| 0 <= v < marks.len() && marks[v] is Some)
}

/// The first `k` edges out of `v` either have no residual capacity or lead
/// to a marked vertex.
pub open spec fn scanned(
    net: &ResidualNetwork,
    marks: Seq<Option<usize>>,
    v: int,
    k: int,
) -> bool {
    forall|i: int|
        0 <= i < k && net@.residual(#[trigger] net.adjacency()[v][i] as int) > 0 ==> marks[net@.target(
            net.adjacency()[v][i] as int,
        )] is Some
}

/// Once every marked vertex has been scanned to the end, no edge with
/// residual capacity leaves the marked vertices.
pub proof fn lemma_scanned_is_closed(net: &ResidualNetwork, marks: Seq<Option<usize>>)
    requires
        net.wf(),
        marks.len() == net@.vertices,
        forall|v: int|
            0 <= v < marks.len() && marks[v] is Some ==> #[trigger] scanned(
                net,
                marks,
                v,
                net.adjacency()[v].len() as int,
            ),
    ensures
        net@.closed_under_residual(marked(marks)),
{
    let g = net@;
    assert forall|e: int|
        0 <= e < g.edges.len() && marked(marks).contains(g.origin(e)) && #[trigger] g.residual(e)
            > 0 implies marked(marks).contains(g.target(e)) by {
        let v = g.origin(e);
        assert(net.is_listed(e));
        let i = choose|i: int|
            0 <= i < net.adjacency()[v].len() && #[trigger] net.adjacency()[v][i] == e;
        assert(scanned(net, marks, v, net.adjacency()[v].len() as int));
        assert(g.edge_wf(e));
    }
}

/// Marking more vertices keeps a scan valid.
pub proof fn lemma_scanned_monotone(
    net: &ResidualNetwork,
    marks: Seq<Option<usize>>,
    more: Seq<Option<usize>>,
    v: int,
    k: int,
)
    requires
        net.wf(),
        0 <= v < net@.vertices,
        0 <= k <= net.adjacency()[v].len(),
        marks.len() == net@.vertices,
        more.len() == net@.vertices,
        forall|x: int| 0 <= x < marks.len() && marks[x] is Some ==> more[x] is Some,
        scanned(net, marks, v, k),
    ensures
        scanned(net, more, v, k),
{
    assert forall|i: int|
        0 <= i < k && net@.residual(#[trigger] net.adjacency()[v][i] as int) > 0 implies more[net@.target(
        net.adjacency()[v][i] as int,
    )] is Some by {
        assert(net.entry_ok(v, i));
        assert(net@.edge_wf(net.adjacency()[v][i] as int));
    }
}

/// Vertex `v` waits in the queue.
pub open spec fn waiting(queue: Seq<usize>, v: int) -> bool {
    exists|i: int| 0 <= i < queue.len() && #[trigger] queue[i] == v
}

/// No count of unset entries exceeds the number of entries counted.
pub proof fn lemma_unset_count_at_most(marks: Seq<Option<usize>>, k: int)
    requires
        0 <= k,
    ensures
        unset_count(marks, k) <= k,
    decreases k,
{
    if k > 0 {
        lemma_unset_count_at_most(marks, k - 1);
    }
}

} // verus!
