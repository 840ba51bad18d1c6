//! The level graph of a residual network: the edges with residual capacity
//! that lead from a vertex to one exactly one level deeper, where the level
//! of a vertex is its distance from the source as a breadth-first search
//! found it.
//!
//! Saturating the level graph lengthens every path from the source to the
//! sink through the residual network, which is why the levels that
//! successive searches assign to the sink grow strictly.

use crate::graphs::residual_network::{FlowGraph, ResidualNetwork};
use vstd::prelude::*;

verus! {

/// The level of `v`: its distance from the source as the last level
/// assignment found it, or -1 if the assignment did not reach it.
pub open spec fn level(dist: Seq<Option<usize>>, v: int) -> int {
    if dist[v] is Some {
        dist[v].unwrap() as int
    } else {
        -1
    }
}

/// Edge `e` belongs to the level graph: it has residual capacity and leads
/// from a reached vertex to one that lies exactly one level deeper.
pub open spec fn admissible(g: FlowGraph, dist: Seq<Option<usize>>, e: int) -> bool {
    &&& level(dist, g.origin(e)) >= 0
    &&& level(dist, g.target(e)) == level(dist, g.origin(e)) + 1
    &&& g.residual(e) > 0
}

/// The edges of `path`, in order, lead from `from` to `to` through the level
/// graph.
pub open spec fn is_level_path(
    g: FlowGraph,
    dist: Seq<Option<usize>>,
    path: Seq<int>,
    from: int,
    to: int,
) -> bool
    decreases path.len(),
{
    if path.len() == 0 {
        from == to
    } else {
        &&& 0 <= path[0] < g.edges.len()
        &&& g.origin(path[0]) == from
        &&& admissible(g, dist, path[0])
        &&& is_level_path(g, dist, path.drop_first(), g.target(path[0]), to)
    }
}

/// No path through the level graph leads from `v` to `sink`.
pub open spec fn dead(g: FlowGraph, dist: Seq<Option<usize>>, v: int, sink: int) -> bool {
    forall|path: Seq<int>| !#[trigger] is_level_path(g, dist, path, v, sink)
}

/// No path through the level graph to `sink` can begin with edge `e`.
pub open spec fn blocked(g: FlowGraph, dist: Seq<Option<usize>>, sink: int, e: int) -> bool {
    !admissible(g, dist, e) || dead(g, dist, g.target(e), sink)
}

/// Entry `i` of the adjacency list of `w` is blocked.
pub open spec fn blocked_at(
    net: &ResidualNetwork,
    dist: Seq<Option<usize>>,
    sink: int,
    w: int,
    i: int,
) -> bool {
    blocked(net@, dist, sink, net.adjacency()[w][i] as int)
}

/// Every edge that a current-arc pointer has moved past is blocked.
pub open spec fn pruned(
    net: &ResidualNetwork,
    dist: Seq<Option<usize>>,
    last: Seq<usize>,
    sink: int,
) -> bool {
    forall|w: int, i: int|
        0 <= w < net@.vertices && 0 <= i < last[w] && i < net.adjacency()[w].len()
            ==> #[trigger] blocked_at(net, dist, sink, w, i)
}

/// The edge by which the level assignment reached `v` is admissible and
/// ends in `v`.
pub open spec fn level_link(
    g: FlowGraph,
    dist: Seq<Option<usize>>,
    inlet: Seq<int>,
    v: int,
) -> bool {
    &&& 0 <= inlet[v] < g.edges.len()
    &&& g.target(inlet[v]) == v
    &&& 0 <= g.origin(inlet[v]) < g.vertices
    &&& admissible(g, dist, inlet[v])
}

/// The level assignment: the source has level zero, and every other reached
/// vertex was reached by an admissible edge.
pub open spec fn level_tree(
    g: FlowGraph,
    dist: Seq<Option<usize>>,
    inlet: Seq<int>,
    source: int,
) -> bool {
    &&& dist.len() == g.vertices
    &&& inlet.len() == g.vertices
    &&& 0 <= source < g.vertices
    &&& dist[source] == Some(0usize)
    &&& forall|v: int|
        0 <= v < g.vertices && dist[v] is Some && v != source ==> #[trigger] level_link(
            g,
            dist,
            inlet,
            v,
        )
}

/// A level path grows by an admissible edge that leaves its end.
pub proof fn lemma_level_path_extend(
    g: FlowGraph,
    dist: Seq<Option<usize>>,
    path: Seq<int>,
    from: int,
    to: int,
    e: int,
)
    requires
        is_level_path(g, dist, path, from, to),
        0 <= e < g.edges.len(),
        g.origin(e) == to,
        admissible(g, dist, e),
    ensures
        is_level_path(g, dist, path.push(e), from, g.target(e)),
    decreases path.len(),
{
    let longer = path.push(e);
    if path.len() == 0 {
        assert(longer.drop_first().len() == 0);
        assert(is_level_path(g, dist, longer.drop_first(), g.target(e), g.target(e)));
    } else {
        lemma_level_path_extend(g, dist, path.drop_first(), g.target(path[0]), to, e);
        assert(longer.drop_first() =~= path.drop_first().push(e));
        assert(longer[0] == path[0]);
    }
}

/// Every vertex that the level assignment reached is the end of a level
/// path from the source.
pub proof fn lemma_level_route(
    g: FlowGraph,
    dist: Seq<Option<usize>>,
    inlet: Seq<int>,
    source: int,
    v: int,
) -> (path: Seq<int>)
    requires
        level_tree(g, dist, inlet, source),
        0 <= v < g.vertices,
        dist[v] is Some,
    ensures
        is_level_path(g, dist, path, source, v),
    decreases level(dist, v),
{
    if v == source {
        Seq::empty()
    } else {
        assert(level_link(g, dist, inlet, v));
        let e = inlet[v];
        let shorter = lemma_level_route(g, dist, inlet, source, g.origin(e));
        lemma_level_path_extend(g, dist, shorter, source, g.origin(e), e);
        shorter.push(e)
    }
}

/// The edges of `path`, in order, lead from `from` to `to`, and each has
/// residual capacity.
pub open spec fn is_residual_path(g: FlowGraph, path: Seq<int>, from: int, to: int) -> bool
    decreases path.len(),
{
    if path.len() == 0 {
        from == to
    } else {
        &&& 0 <= path[0] < g.edges.len()
        &&& g.origin(path[0]) == from
        &&& g.residual(path[0]) > 0
        &&& is_residual_path(g, path.drop_first(), g.target(path[0]), to)
    }
}

/// Every path from `source` to `sink` along edges with residual capacity
/// has more edges than the level of `sink` under `dist`: the level
/// assignment `dist` is of no more use on this flow.
pub open spec fn phase_exhausted(
    g: FlowGraph,
    dist: Seq<Option<usize>>,
    source: int,
    sink: int,
) -> bool {
    forall|path: Seq<int>| #[trigger]
        is_residual_path(g, path, source, sink) ==> path.len() > level(dist, sink)
}

/// Wherever `after` carries more flow than `before`, the edge leads one
/// level down the level graph: flow was only pushed along level edges.
pub open spec fn pushed_along_levels(
    before: FlowGraph,
    after: FlowGraph,
    dist: Seq<Option<usize>>,
) -> bool {
    forall|x: int|
        0 <= x < before.edges.len() && (#[trigger] after.edges[x]).flow > before.edges[x].flow
            ==> level(dist, before.origin(x)) >= 0 && level(dist, before.target(x)) == level(
            dist,
            before.origin(x),
        ) + 1
}

/// Every edge with residual capacity that leaves a vertex above the level
/// of the sink ends at a vertex that has a level, at most one deeper.
pub open spec fn levels_are_shortest(g: FlowGraph, dist: Seq<Option<usize>>, sink: int) -> bool {
    forall|e: int|
        0 <= e < g.edges.len() && 0 <= level(dist, g.origin(e)) < level(dist, sink)
            && #[trigger] g.residual(e) > 0 ==> 0 <= level(dist, g.target(e)) <= level(
            dist,
            g.origin(e),
        ) + 1
}

/// The level of `v`, capped at the level of the sink; a vertex without a
/// level counts as being as deep as the sink.
pub open spec fn capped_level(dist: Seq<Option<usize>>, sink: int, v: int) -> int {
    if 0 <= level(dist, v) < level(dist, sink) {
        level(dist, v)
    } else {
        level(dist, sink)
    }
}

/// Pushing along level edges, one batch after another, is pushing along
/// level edges.
pub proof fn lemma_pushed_along_levels_transitive(
    first: FlowGraph,
    second: FlowGraph,
    third: FlowGraph,
    dist: Seq<Option<usize>>,
)
    requires
        first.edges.len() % 2 == 0,
        first.same_topology(second),
        second.same_topology(third),
        pushed_along_levels(first, second, dist),
        pushed_along_levels(second, third, dist),
    ensures
        pushed_along_levels(first, third, dist),
{
    assert forall|x: int|
        0 <= x < first.edges.len() && (#[trigger] third.edges[x]).flow
            > first.edges[x].flow implies level(dist, first.origin(x)) >= 0 && level(
        dist,
        first.target(x),
    ) == level(dist, first.origin(x)) + 1 by {
        first.lemma_same_topology_ends(second, x);
        if third.edges[x].flow > second.edges[x].flow {
        } else {
            assert(second.edges[x].flow > first.edges[x].flow);
        }
    }
}

/// Pushing within the residual capacity of one level edge is pushing along
/// level edges.
pub proof fn lemma_push_is_along_levels(
    g: FlowGraph,
    dist: Seq<Option<usize>>,
    e: int,
    amount: int,
)
    requires
        g.wf(),
        g.flow_wf(),
        0 <= e < g.edges.len(),
        0 <= amount <= g.residual(e),
        level(dist, g.origin(e)) >= 0,
        level(dist, g.target(e)) == level(dist, g.origin(e)) + 1,
    ensures
        pushed_along_levels(g, g.pushed(e, amount), dist),
{
    g.lemma_pushed(e, amount);
}

/// After flow has been pushed along level edges only, an edge that belongs
/// to the level graph belonged to it before.
pub proof fn lemma_admissible_before(
    before: FlowGraph,
    after: FlowGraph,
    dist: Seq<Option<usize>>,
    e: int,
)
    requires
        before.wf(),
        before.flow_wf(),
        after.flow_wf(),
        before.same_topology(after),
        pushed_along_levels(before, after, dist),
        0 <= e < before.edges.len(),
        admissible(after, dist, e),
    ensures
        admissible(before, dist, e),
{
    let m = FlowGraph::mate(e);
    before.lemma_same_topology_ends(after, e);
    before.lemma_same_topology_ends(after, m);
    assert(before.flow_ok(e));
    assert(after.flow_ok(e));
    if before.residual(e) <= 0 {
        assert(after.edges[m].flow > before.edges[m].flow);
    }
}

/// After flow has been pushed along level edges only, a path through the
/// level graph was one before.
pub proof fn lemma_level_path_before(
    before: FlowGraph,
    after: FlowGraph,
    dist: Seq<Option<usize>>,
    path: Seq<int>,
    from: int,
    to: int,
)
    requires
        before.wf(),
        before.flow_wf(),
        after.flow_wf(),
        before.same_topology(after),
        pushed_along_levels(before, after, dist),
        is_level_path(after, dist, path, from, to),
    ensures
        is_level_path(before, dist, path, from, to),
    decreases path.len(),
{
    if path.len() > 0 {
        lemma_admissible_before(before, after, dist, path[0]);
        before.lemma_same_topology_ends(after, path[0]);
        lemma_level_path_before(
            before,
            after,
            dist,
            path.drop_first(),
            after.target(path[0]),
            to,
        );
    }
}

/// After flow has been pushed along level edges only, a blocked edge is
/// still blocked.
pub proof fn lemma_blocked_persists(
    before: FlowGraph,
    after: FlowGraph,
    dist: Seq<Option<usize>>,
    sink: int,
    e: int,
)
    requires
        before.wf(),
        before.flow_wf(),
        after.flow_wf(),
        before.same_topology(after),
        pushed_along_levels(before, after, dist),
        0 <= e < before.edges.len(),
        blocked(before, dist, sink, e),
    ensures
        blocked(after, dist, sink, e),
{
    before.lemma_same_topology_ends(after, e);
    if admissible(after, dist, e) {
        lemma_admissible_before(before, after, dist, e);
        assert(dead(before, dist, before.target(e), sink));
        assert forall|path: Seq<int>| !#[trigger] is_level_path(
            after,
            dist,
            path,
            after.target(e),
            sink,
        ) by {
            if is_level_path(after, dist, path, after.target(e), sink) {
                lemma_level_path_before(before, after, dist, path, after.target(e), sink);
            }
        }
    }
}

/// Along an edge with residual capacity the capped level grows by at most
/// one, once flow has been pushed along level edges only.
pub proof fn lemma_capped_level_step(
    start: FlowGraph,
    now: FlowGraph,
    dist: Seq<Option<usize>>,
    sink: int,
    e: int,
)
    requires
        start.wf(),
        start.flow_wf(),
        now.flow_wf(),
        start.same_topology(now),
        pushed_along_levels(start, now, dist),
        levels_are_shortest(start, dist, sink),
        0 <= e < now.edges.len(),
        now.residual(e) > 0,
    ensures
        capped_level(dist, sink, now.target(e)) <= capped_level(dist, sink, now.origin(e)) + 1,
{
    let m = FlowGraph::mate(e);
    start.lemma_same_topology_ends(now, e);
    start.lemma_same_topology_ends(now, m);
    let u = start.origin(e);
    if 0 <= level(dist, u) < level(dist, sink) {
        if start.residual(e) > 0 {
        } else {
            assert(start.flow_ok(e));
            assert(now.flow_ok(e));
            assert(now.edges[m].flow > start.edges[m].flow);
        }
    }
}

/// A path along edges with residual capacity to the sink has at least as
/// many edges as the capped level of its start lacks to the level of the
/// sink.
pub proof fn lemma_residual_path_is_long(
    start: FlowGraph,
    now: FlowGraph,
    dist: Seq<Option<usize>>,
    sink: int,
    path: Seq<int>,
    from: int,
)
    requires
        start.wf(),
        start.flow_wf(),
        now.flow_wf(),
        start.same_topology(now),
        pushed_along_levels(start, now, dist),
        levels_are_shortest(start, dist, sink),
        is_residual_path(now, path, from, sink),
    ensures
        capped_level(dist, sink, from) + path.len() >= level(dist, sink),
    decreases path.len(),
{
    if path.len() > 0 {
        lemma_capped_level_step(start, now, dist, sink, path[0]);
        lemma_residual_path_is_long(
            start,
            now,
            dist,
            sink,
            path.drop_first(),
            now.target(path[0]),
        );
    }
}

/// A path along edges with residual capacity to the sink that is no longer
/// than the levels demand runs through the level graph.
pub proof fn lemma_tight_path_is_level_path(
    start: FlowGraph,
    now: FlowGraph,
    dist: Seq<Option<usize>>,
    sink: int,
    path: Seq<int>,
    from: int,
)
    requires
        start.wf(),
        start.flow_wf(),
        now.flow_wf(),
        start.same_topology(now),
        pushed_along_levels(start, now, dist),
        levels_are_shortest(start, dist, sink),
        is_residual_path(now, path, from, sink),
        capped_level(dist, sink, from) + path.len() <= level(dist, sink),
    ensures
        is_level_path(now, dist, path, from, sink),
    decreases path.len(),
{
    if path.len() > 0 {
        let e = path[0];
        let v = now.target(e);
        let rest = path.drop_first();
        lemma_capped_level_step(start, now, dist, sink, e);
        lemma_residual_path_is_long(start, now, dist, sink, rest, v);
        lemma_tight_path_is_level_path(start, now, dist, sink, rest, v);
        if rest.len() == 0 {
            assert(v == sink);
        }
    }
}

/// Once no path through the level graph leads from the source to the sink
/// any more, every path along edges with residual capacity from the source
/// to the sink is longer than the level of the sink.
pub proof fn lemma_saturated_levels_are_exhausted(
    start: FlowGraph,
    now: FlowGraph,
    dist: Seq<Option<usize>>,
    source: int,
    sink: int,
)
    requires
        start.wf(),
        start.flow_wf(),
        now.flow_wf(),
        start.same_topology(now),
        pushed_along_levels(start, now, dist),
        levels_are_shortest(start, dist, sink),
        level(dist, source) == 0,
        dead(now, dist, source, sink),
    ensures
        phase_exhausted(now, dist, source, sink),
{
    assert forall|path: Seq<int>| #[trigger]
        is_residual_path(now, path, source, sink) implies path.len() > level(dist, sink) by {
        if path.len() <= level(dist, sink) {
            lemma_tight_path_is_level_path(start, now, dist, sink, path, source);
        }
    }
}

/// A path through the level graph is a path along edges with residual
/// capacity, and the level of its end is the level of its start plus the
/// number of its edges.
pub proof fn lemma_level_path_length(
    g: FlowGraph,
    dist: Seq<Option<usize>>,
    path: Seq<int>,
    from: int,
    to: int,
)
    requires
        is_level_path(g, dist, path, from, to),
    ensures
        is_residual_path(g, path, from, to),
        path.len() > 0 ==> level(dist, to) == level(dist, from) + path.len(),
    decreases path.len(),
{
    if path.len() > 0 {
        lemma_level_path_length(g, dist, path.drop_first(), g.target(path[0]), to);
    }
}

/// On a flow on which one level assignment is exhausted, the next level
/// assignment that reaches the sink puts the sink on a strictly deeper
/// level: the distance of the sink grows from phase to phase.
pub proof fn lemma_sink_level_increases(
    g: FlowGraph,
    before: Seq<Option<usize>>,
    after: Seq<Option<usize>>,
    inlet: Seq<int>,
    source: int,
    sink: int,
)
    requires
        phase_exhausted(g, before, source, sink),
        level_tree(g, after, inlet, source),
        0 <= sink < g.vertices,
        after[sink] is Some,
    ensures
        level(after, sink) > level(before, sink),
{
    let route = lemma_level_route(g, after, inlet, source, sink);
    lemma_level_path_length(g, after, route, source, sink);
    assert(is_residual_path(g, route, source, sink));
}

} // verus!
