//! The Dinic solver: assigns levels breadth first, saturates the level
//! graph by depth-first searches with current-arc pointers, and repeats
//! until the sink has no level.

use crate::graphs::level_graph::{
    admissible,
    blocked,
    blocked_at,
    dead,
    is_level_path,
    lemma_blocked_persists,
    lemma_level_route,
    lemma_push_is_along_levels,
    lemma_pushed_along_levels_transitive,
    lemma_saturated_levels_are_exhausted,
    lemma_sink_level_increases,
    level,
    level_link,
    level_tree,
    levels_are_shortest,
    phase_exhausted,
    pruned,
    pushed_along_levels,
};
use crate::numeric::{max_value, zero};
use crate::graphs::residual_network::{
    assert_vertices_in_bounds,
    Edge,
    FlowError,
    FlowGraph,
    ResidualNetwork,
};
use crate::graphs::search::{
    lemma_scanned_is_closed,
    lemma_unset_count_after_mark,
    lemma_unset_count_at_most,
    lemma_unset_count_nonnegative,
    marked,
    scanned,
    unset_count,
    waiting,
};
use std::collections::VecDeque;
use vstd::prelude::*;

verus! {

/// The first `k` edges out of `v` either have no residual capacity or lead
/// to a vertex that has a level, at most one deeper than that of `v`.
pub open spec fn explored(
    net: &ResidualNetwork,
    dist: Seq<Option<usize>>,
    v: int,
    k: int,
) -> bool {
    forall|i: int|
        0 <= i < k && net@.residual(#[trigger] net.adjacency()[v][i] as int) > 0 ==> 0 <= level(
            dist,
            net@.target(net.adjacency()[v][i] as int),
        ) <= level(dist, v) + 1
}

/// Giving levels to more vertices keeps an exploration valid.
proof fn lemma_explored_monotone(
    net: &ResidualNetwork,
    dist: Seq<Option<usize>>,
    more: Seq<Option<usize>>,
    v: int,
    k: int,
)
    requires
        net.wf(),
        0 <= v < net@.vertices,
        0 <= k <= net.adjacency()[v].len(),
        dist.len() == net@.vertices,
        more.len() == net@.vertices,
        dist[v] is Some,
        forall|x: int| 0 <= x < dist.len() && dist[x] is Some ==> more[x] == dist[x],
        explored(net, dist, v, k),
    ensures
        explored(net, more, v, k),
{
    assert forall|i: int|
        0 <= i < k && net@.residual(#[trigger] net.adjacency()[v][i] as int) > 0 implies 0
        <= level(more, net@.target(net.adjacency()[v][i] as int)) <= level(more, v) + 1 by {
        assert(net.entry_ok(v, i));
        assert(net@.edge_wf(net.adjacency()[v][i] as int));
    }
}

/// An explored vertex has been scanned.
proof fn lemma_explored_is_scanned(
    net: &ResidualNetwork,
    dist: Seq<Option<usize>>,
    v: int,
    k: int,
)
    requires
        explored(net, dist, v, k),
    ensures
        scanned(net, dist, v, k),
{
}

/// Dinic maximum flow: assigns levels breadth first, then saturates the
/// level graph by depth-first searches that remember, per vertex, the first
/// edge still worth trying, and repeats until the sink has no level.
pub struct DinicMaxFlow {
    net: ResidualNetwork,
    dist: Vec<Option<usize>>,
    last: Vec<usize>,
    source: usize,
    sink: usize,
}

impl View for DinicMaxFlow {
    type V = FlowGraph;

    closed spec fn view(&self) -> FlowGraph {
        self.net@
    }
}

impl DinicMaxFlow {
    /// The vertex that flow is sent from.
    pub closed spec fn source_vertex(&self) -> usize {
        self.source
    }

    /// The vertex that flow is sent to.
    pub closed spec fn sink_vertex(&self) -> usize {
        self.sink
    }

    /// The adjacency lists of the network.
    pub closed spec fn adjacency(&self) -> Seq<Seq<usize>> {
        self.net.adjacency()
    }

    /// The network is well formed, source and sink are vertices, and the
    /// scratch arrays have one entry per vertex.
    pub closed spec fn wf(&self) -> bool {
        &&& self.net.wf()
        &&& self.dist.len() == self.net@.vertices
        &&& self.last.len() == self.net@.vertices
        &&& self.source < self.net@.vertices
        &&& self.sink < self.net@.vertices
    }

    /// The network of a well-formed solver is well formed, and so is the
    /// flow on it, and its source and sink are vertices.
    pub proof fn lemma_graph_well_formed(&self)
        requires
            self.wf(),
        ensures
            self@.wf(),
            self@.flow_wf(),
            self.source_vertex() < self@.vertices,
            self.sink_vertex() < self@.vertices,
    {
    }

    /// Nothing but the flow and the scratch arrays differs between `other`,
    /// the earlier state, and `self`.
    spec fn same_setting(&self, other: &DinicMaxFlow) -> bool {
        &&& self.source == other.source
        &&& self.sink == other.sink
        &&& other.net@.same_topology(self.net@)
        &&& self.net.adjacency() == other.net.adjacency()
    }

    /// A solver over `vertices` vertices and no edges, for the flow from
    /// `source` to `sink`. Refused if either is not a vertex.
    pub fn new(source: usize, sink: usize, vertices: usize) -> (made: Result<
        DinicMaxFlow,
        FlowError,
    >)
        ensures
            source < vertices && sink < vertices ==> {
                &&& made matches Ok(solver)
                &&& solver.wf()
                &&& solver@.vertices == vertices
                &&& solver@.edges.len() == 0
                &&& solver.source_vertex() == source
                &&& solver.sink_vertex() == sink
            },
            !(source < vertices && sink < vertices) ==> {
                &&& made matches Err(e)
                &&& e == FlowError::OutOfBounds
            },
    {
        match assert_vertices_in_bounds(source, sink, vertices) {
            Err(e) => {
                return Err(e);
            },
            Ok(_) => {},
        }
        let net = ResidualNetwork::new(vertices);
        let mut dist: Vec<Option<usize>> = Vec::new();
        let mut last: Vec<usize> = Vec::new();
        let mut v: usize = 0;
        while v < vertices
            invariant
                v <= vertices,
                dist.len() == v,
                last.len() == v,
            decreases vertices - v,
        {
            dist.push(None);
            last.push(0);
            v = v + 1;
        }
        Ok(DinicMaxFlow { net, dist, last, source, sink })
    }

    /// The vertex that flow is sent from.
    pub fn source(&self) -> (v: usize)
        ensures
            v == self.source_vertex(),
    {
        self.source
    }

    /// The vertex that flow is sent to.
    pub fn sink(&self) -> (v: usize)
        ensures
            v == self.sink_vertex(),
    {
        self.sink
    }

    /// The network with the flow that the last computation left on it.
    pub fn network(&self) -> (net: &ResidualNetwork)
        requires
            self.wf(),
        ensures
            net.wf(),
            net@ == self@,
            net.adjacency() == self.adjacency(),
    {
        &self.net
    }

    /// Inserts an arc from `from` to `to` of the given capacity, as a forward
    /// edge and a reverse edge of capacity zero, neither carrying flow. An
    /// index that is not a vertex is refused and leaves the solver untouched.
    pub fn add_edge(&mut self, from: usize, to: usize, capacity: i64) -> (added: Result<
        (),
        FlowError,
    >)
        requires
            old(self).wf(),
            capacity >= 0,
        ensures
            final(self).wf(),
            final(self)@.vertices == old(self)@.vertices,
            final(self).source_vertex() == old(self).source_vertex(),
            final(self).sink_vertex() == old(self).sink_vertex(),
            from < old(self)@.vertices && to < old(self)@.vertices ==> {
                &&& added is Ok
                &&& final(self)@.edges == old(self)@.edges.push(
                    Edge { to, capacity, flow: 0 },
                ).push(Edge { to: from, capacity: 0, flow: 0 })
                &&& final(self).adjacency() == ResidualNetwork::adjacency_after_insert(
                    old(self).adjacency(),
                    from as int,
                    to as int,
                    old(self)@.edges.len(),
                )
            },
            !(from < old(self)@.vertices && to < old(self)@.vertices) ==> {
                &&& added == Err::<(), FlowError>(FlowError::OutOfBounds)
                &&& *final(self) == *old(self)
            },
    {
        self.net.add_edge(from, to, capacity)
    }

    /// Directs the next computation at another pair of vertices, keeping the
    /// edges. Refused, with nothing changed, if either is not a vertex.
    pub fn update_source_and_sink(&mut self, source: usize, sink: usize) -> (updated: Result<
        (),
        FlowError,
    >)
        requires
            old(self).wf(),
        ensures
            final(self).wf(),
            final(self)@ == old(self)@,
            final(self).adjacency() == old(self).adjacency(),
            source < old(self)@.vertices && sink < old(self)@.vertices ==> {
                &&& updated is Ok
                &&& final(self).source_vertex() == source
                &&& final(self).sink_vertex() == sink
            },
            !(source < old(self)@.vertices && sink < old(self)@.vertices) ==> {
                &&& updated == Err::<(), FlowError>(FlowError::OutOfBounds)
                &&& *final(self) == *old(self)
            },
    {
        match assert_vertices_in_bounds(source, sink, self.net.vertex_count()) {
            Err(e) => {
                return Err(e);
            },
            Ok(_) => {},
        }
        self.source = source;
        self.sink = sink;
        Ok(())
    }

    /// Unsets every level.
    fn clear_levels(&mut self)
        requires
            old(self).wf(),
        ensures
            final(self).wf(),
            final(self).net == old(self).net,
            final(self).last == old(self).last,
            final(self).source == old(self).source,
            final(self).sink == old(self).sink,
            forall|v: int| 0 <= v < final(self).dist.len() ==> final(self).dist[v] is None,
    {
        let mut v: usize = 0;
        while v < self.dist.len()
            invariant
                v <= self.dist.len(),
                self.dist.len() == old(self).dist.len(),
                self.net == old(self).net,
                self.last == old(self).last,
                self.source == old(self).source,
                self.sink == old(self).sink,
                forall|u: int| 0 <= u < v ==> self.dist[u] is None,
            decreases self.dist.len() - v,
        {
            self.dist[v] = None;
            v = v + 1;
        }
    }

    /// Moves every current-arc pointer back to the first edge.
    fn rewind(&mut self)
        requires
            old(self).wf(),
        ensures
            final(self).wf(),
            final(self).net == old(self).net,
            final(self).dist == old(self).dist,
            final(self).source == old(self).source,
            final(self).sink == old(self).sink,
            forall|v: int| 0 <= v < final(self).last.len() ==> final(self).last[v] == 0,
    {
        let mut v: usize = 0;
        while v < self.last.len()
            invariant
                v <= self.last.len(),
                self.last.len() == old(self).last.len(),
                self.net == old(self).net,
                self.dist == old(self).dist,
                self.source == old(self).source,
                self.sink == old(self).sink,
                forall|u: int| 0 <= u < v ==> self.last[u] == 0,
            decreases self.last.len() - v,
        {
            self.last[v] = 0;
            v = v + 1;
        }
    }

    /// Forgets the last search and clears the flow on every edge.
    fn reset(&mut self)
        requires
            old(self).wf(),
        ensures
            final(self).wf(),
            final(self)@.flow_free(),
            final(self).same_setting(old(self)),
            forall|v: int| 0 <= v < final(self).dist.len() ==> final(self).dist[v] is None,
    {
        self.clear_levels();
        self.rewind();
        self.net.reset();
    }

    /// Assigns to every vertex that can be reached from the source along
    /// edges with residual capacity its distance from the source, stopping
    /// once the sink comes up for expansion. Tells whether the sink was
    /// reached. If the levels that were in place before are exhausted on the
    /// flow at hand, the sink ends up on a strictly deeper level than before.
    fn bfs(&mut self) -> (reached: (bool, Ghost<Seq<int>>))
        requires
            old(self).wf(),
        ensures
            final(self).wf(),
            final(self).net == old(self).net,
            final(self).source == old(self).source,
            final(self).sink == old(self).sink,
            final(self).last == old(self).last,
            forall|v: int|
                0 <= v < final(self).dist.len() ==> level(final(self).dist@, v)
                    < final(self).dist.len(),
            reached.0 ==> {
                &&& level_tree(
                    final(self)@,
                    final(self).dist@,
                    reached.1@,
                    final(self).source as int,
                )
                &&& final(self).dist[final(self).sink as int] is Some
                &&& levels_are_shortest(final(self)@, final(self).dist@, final(self).sink as int)
            },
            reached.0 && phase_exhausted(
                old(self)@,
                old(self).dist@,
                old(self).source as int,
                old(self).sink as int,
            ) ==> level(final(self).dist@, final(self).sink as int) > level(
                old(self).dist@,
                old(self).sink as int,
            ),
            !reached.0 ==> {
                &&& final(self)@.closed_under_residual(marked(final(self).dist@))
                &&& marked(final(self).dist@).contains(final(self).source as int)
                &&& !marked(final(self).dist@).contains(final(self).sink as int)
            },
    {
        self.clear_levels();
        let n: usize = self.net.vertex_count();
        let source: usize = self.source;
        let sink: usize = self.sink;
        let ghost g = self.net@;
        let ghost mut inlet: Seq<int> = Seq::new(n as nat, |v: int| 0int);
        let ghost mut done: Set<int> = Set::empty();
        let ghost blank = self.dist@;
        self.dist[source] = Some(0);
        let mut deque: VecDeque<usize> = VecDeque::new();
        deque.push_back(source);
        proof {
            assert(deque@[0] == source);
            assert(waiting(deque@, source as int));
            lemma_unset_count_after_mark(blank, source as int, 0);
            lemma_unset_count_at_most(blank, n as int);
            lemma_unset_count_nonnegative(self.dist@, n as int);
            assert(self.dist@ == blank.update(source as int, Some(0usize)));
        }
        loop
            invariant_except_break
                forall|v: int|
                    0 <= v < n && self.dist[v] is Some ==> done.contains(v) || #[trigger] waiting(
                        deque@,
                        v,
                    ),
            invariant
                self.wf(),
                self.net == old(self).net,
                self.source == old(self).source,
                self.sink == old(self).sink,
                self.last == old(self).last,
                source == self.source,
                sink == self.sink,
                g == self.net@,
                n == g.vertices,
                level_tree(g, self.dist@, inlet, source as int),
                forall|v: int|
                    0 <= v < n ==> #[trigger] level(self.dist@, v) < n - unset_count(
                        self.dist@,
                        n as int,
                    ),
                unset_count(self.dist@, n as int) >= 0,
                !done.contains(sink as int),
                forall|i: int|
                    0 <= i < deque@.len() ==> (#[trigger] deque@[i]) < n
                        && self.dist[deque@[i] as int] is Some,
                forall|i: int, j: int|
                    0 <= i <= j < deque@.len() ==> level(self.dist@, #[trigger] deque@[i] as int)
                        <= level(self.dist@, #[trigger] deque@[j] as int),
                deque@.len() > 0 ==> forall|v: int|
                    0 <= v < n ==> #[trigger] level(self.dist@, v) <= level(
                        self.dist@,
                        deque@[0] as int,
                    ) + 1,
                forall|v: int| #[trigger]
                    done.contains(v) ==> 0 <= v < n && self.dist[v] is Some && explored(
                        &self.net,
                        self.dist@,
                        v,
                        self.net.adjacency()[v].len() as int,
                    ),
            ensures
                self.dist[sink as int] is None ==> forall|v: int|
                    0 <= v < n && self.dist[v] is Some ==> #[trigger] done.contains(v),
                self.dist[sink as int] is Some ==> levels_are_shortest(g, self.dist@, sink as int),
            decreases unset_count(self.dist@, n as int) + deque@.len(),
        {
            let ghost before_pop = deque@;
            let front: Option<usize> = deque.pop_front();
            if front.is_none() {
                proof {
                    assert forall|v: int| 0 <= v < n && self.dist[v] is Some implies #[trigger] done.contains(
                        v,
                    ) by {
                        if !done.contains(v) {
                            assert(waiting(deque@, v));
                        }
                    }
                }
                break ;
            }
            let u: usize = front.unwrap();
            proof {
                assert(before_pop[0] == u);
            }
            if u == sink {
                proof {
                    assert forall|e: int|
                        0 <= e < g.edges.len() && 0 <= level(self.dist@, g.origin(e)) < level(
                            self.dist@,
                            sink as int,
                        ) && #[trigger] g.residual(e) > 0 implies 0 <= level(
                        self.dist@,
                        g.target(e),
                    ) <= level(self.dist@, g.origin(e)) + 1 by {
                        let a = g.origin(e);
                        assert(g.edge_wf(FlowGraph::mate(e)));
                        if !done.contains(a) {
                            assert(waiting(before_pop, a));
                            let i = choose|i: int|
                                0 <= i < before_pop.len() && #[trigger] before_pop[i] == a;
                            assert(level(self.dist@, before_pop[0] as int) <= level(
                                self.dist@,
                                before_pop[i] as int,
                            ));
                        }
                        assert(self.net.is_listed(e));
                        let k = choose|k: int|
                            0 <= k < self.net.adjacency()[a].len()
                                && #[trigger] self.net.adjacency()[a][k] == e;
                        assert(explored(
                            &self.net,
                            self.dist@,
                            a,
                            self.net.adjacency()[a].len() as int,
                        ));
                    }
                }
                break ;
            }
            proof {
                assert forall|w: int|
                    0 <= w < n && self.dist[w] is Some implies done.contains(w) || w == u
                    || #[trigger] waiting(deque@, w) by {
                    if !done.contains(w) && w != u {
                        assert(waiting(before_pop, w));
                        let i = choose|i: int|
                            0 <= i < before_pop.len() && #[trigger] before_pop[i] == w;
                        assert(deque@[i - 1] == w);
                    }
                }
                assert forall|i: int| 0 <= i < deque@.len() implies (#[trigger] deque@[i]) < n
                    && self.dist[deque@[i] as int] is Some && level(self.dist@, u as int) <= level(
                    self.dist@,
                    deque@[i] as int,
                ) by {
                    assert(deque@[i] == before_pop[i + 1]);
                    assert(level(self.dist@, before_pop[0] as int) <= level(
                        self.dist@,
                        before_pop[i + 1] as int,
                    ));
                }
                assert forall|i: int, j: int| 0 <= i <= j < deque@.len() implies level(
                    self.dist@,
                    #[trigger] deque@[i] as int,
                ) <= level(self.dist@, #[trigger] deque@[j] as int) by {
                    assert(deque@[i] == before_pop[i + 1]);
                    assert(deque@[j] == before_pop[j + 1]);
                }
            }
            let ghost budget = unset_count(self.dist@, n as int) + deque@.len();
            let here: usize = self.dist[u].unwrap();
            let degree: usize = self.net.out_degree(u);
            let mut i: usize = 0;
            while i < degree
                invariant
                    self.wf(),
                    self.net == old(self).net,
                    self.source == old(self).source,
                    self.sink == old(self).sink,
                    self.last == old(self).last,
                    source == self.source,
                    sink == self.sink,
                    g == self.net@,
                    n == g.vertices,
                    u < n,
                    u != sink,
                    i <= degree,
                    degree == self.net.adjacency()[u as int].len(),
                    self.dist[u as int] == Some(here),
                    level_tree(g, self.dist@, inlet, source as int),
                    forall|v: int|
                        0 <= v < n ==> #[trigger] level(self.dist@, v) < n - unset_count(
                            self.dist@,
                            n as int,
                        ),
                    unset_count(self.dist@, n as int) >= 0,
                    !done.contains(sink as int),
                    forall|j: int|
                        0 <= j < deque@.len() ==> (#[trigger] deque@[j]) < n
                            && self.dist[deque@[j] as int] is Some && here <= level(
                            self.dist@,
                            deque@[j] as int,
                        ),
                    forall|a: int, b: int|
                        0 <= a <= b < deque@.len() ==> level(
                            self.dist@,
                            #[trigger] deque@[a] as int,
                        ) <= level(self.dist@, #[trigger] deque@[b] as int),
                    forall|v: int| 0 <= v < n ==> #[trigger] level(self.dist@, v) <= here + 1,
                    forall|w: int|
                        0 <= w < n && self.dist[w] is Some ==> done.contains(w) || w == u
                            || #[trigger] waiting(deque@, w),
                    forall|w: int| #[trigger]
                        done.contains(w) ==> 0 <= w < n && self.dist[w] is Some && explored(
                            &self.net,
                            self.dist@,
                            w,
                            self.net.adjacency()[w].len() as int,
                        ),
                    explored(&self.net, self.dist@, u as int, i as int),
                    unset_count(self.dist@, n as int) + deque@.len() == budget,
                decreases degree - i,
            {
                let e: usize = self.net.out_edge(u, i);
                let edge: Edge = self.net.edge(e);
                proof {
                    assert(g.edge_wf(e as int));
                    assert(g.flow_ok(e as int));
                    assert(level(self.dist@, u as int) == here);
                    assert(level(self.dist@, edge.to as int) <= here + 1);
                }
                if self.dist[edge.to].is_none() && edge.flow < edge.capacity {
                    let ghost marks = self.dist@;
                    let ghost inlet_before = inlet;
                    let ghost queue_before = deque@;
                    let w: usize = edge.to;
                    self.dist[w] = Some(here + 1);
                    proof {
                        inlet = inlet.update(w as int, e as int);
                        lemma_unset_count_after_mark(marks, w as int, (here + 1) as usize);
                        lemma_unset_count_nonnegative(self.dist@, n as int);
                        assert(self.dist@ == marks.update(w as int, Some((here + 1) as usize)));
                        assert forall|v: int|
                            0 <= v < n implies #[trigger] level(self.dist@, v) < n - unset_count(
                            self.dist@,
                            n as int,
                        ) by {
                            assert(level(marks, v) < n - unset_count(marks, n as int));
                            assert(level(marks, u as int) < n - unset_count(marks, n as int));
                        }
                        assert forall|v: int| 0 <= v < n implies #[trigger] level(self.dist@, v)
                            <= here + 1 by {
                            assert(level(marks, v) <= here + 1);
                        }
                        assert forall|v: int|
                            0 <= v < n && self.dist[v] is Some && v != source
                                implies #[trigger] level_link(g, self.dist@, inlet, v) by {
                            if v != w {
                                assert(level_link(g, marks, inlet_before, v));
                                let x = inlet_before[v];
                                assert(level(marks, g.origin(x)) >= 0);
                            }
                        }
                        assert forall|v: int| #[trigger] done.contains(v) implies 0 <= v < n
                            && self.dist[v] is Some && explored(
                            &self.net,
                            self.dist@,
                            v,
                            self.net.adjacency()[v].len() as int,
                        ) by {
                            lemma_explored_monotone(
                                &self.net,
                                marks,
                                self.dist@,
                                v,
                                self.net.adjacency()[v].len() as int,
                            );
                        }
                        assert(explored(&self.net, self.dist@, u as int, i as int + 1)) by {
                            lemma_explored_monotone(
                                &self.net,
                                marks,
                                self.dist@,
                                u as int,
                                i as int,
                            );
                        }
                    }
                    deque.push_back(w);
                    proof {
                        assert(deque@[queue_before.len() as int] == w);
                        assert(waiting(deque@, w as int));
                        assert forall|x: int|
                            0 <= x < n && self.dist[x] is Some implies done.contains(x) || x == u
                            || #[trigger] waiting(deque@, x) by {
                            if x != w && !done.contains(x) && x != u {
                                assert(waiting(queue_before, x));
                                let j = choose|j: int|
                                    0 <= j < queue_before.len() && #[trigger] queue_before[j] == x;
                                assert(deque@[j] == x);
                            }
                        }
                        assert forall|j: int| 0 <= j < deque@.len() implies (#[trigger] deque@[j])
                            < n && self.dist[deque@[j] as int] is Some && here <= level(
                            self.dist@,
                            deque@[j] as int,
                        ) by {
                            if j < queue_before.len() {
                                assert(deque@[j] == queue_before[j]);
                                assert(level(marks, queue_before[j] as int) >= here);
                            }
                        }
                        assert forall|a: int, b: int| 0 <= a <= b < deque@.len() implies level(
                            self.dist@,
                            #[trigger] deque@[a] as int,
                        ) <= level(self.dist@, #[trigger] deque@[b] as int) by {
                            if b < queue_before.len() {
                                assert(deque@[a] == queue_before[a]);
                                assert(deque@[b] == queue_before[b]);
                                assert(level(marks, queue_before[a] as int) <= level(
                                    marks,
                                    queue_before[b] as int,
                                ));
                            } else if a < queue_before.len() {
                                assert(deque@[a] == queue_before[a]);
                                assert(level(marks, queue_before[a] as int) <= here + 1);
                            }
                        }
                    }
                } else {
                    proof {
                        assert(explored(&self.net, self.dist@, u as int, i as int + 1));
                    }
                }
                i = i + 1;
            }
            proof {
                done = done.insert(u as int);
                assert forall|w: int|
                    0 <= w < n && self.dist[w] is Some implies done.contains(w)
                    || #[trigger] waiting(deque@, w) by {}
                if deque@.len() > 0 {
                    assert(here <= level(self.dist@, deque@[0] as int));
                }
            }
        }
        let reached: bool = self.dist[sink].is_some();
        proof {
            if !reached {
                assert forall|v: int|
                    0 <= v < self.dist@.len() && self.dist@[v] is Some implies #[trigger] scanned(
                    &self.net,
                    self.dist@,
                    v,
                    self.net.adjacency()[v].len() as int,
                ) by {
                    assert(done.contains(v));
                    lemma_explored_is_scanned(
                        &self.net,
                        self.dist@,
                        v,
                        self.net.adjacency()[v].len() as int,
                    );
                }
                lemma_scanned_is_closed(&self.net, self.dist@);
            } else {
                if phase_exhausted(g, old(self).dist@, source as int, sink as int) {
                    lemma_sink_level_increases(
                        g,
                        old(self).dist@,
                        self.dist@,
                        inlet,
                        source as int,
                        sink as int,
                    );
                }
            }
            assert forall|v: int| 0 <= v < self.dist.len() implies level(self.dist@, v)
                < self.dist.len() by {
                assert(level(self.dist@, v) < n - unset_count(self.dist@, n as int));
            }
        }
        (reached, Ghost(inlet))
    }

    /// Searches depth first from `u` for a path to the sink through the level
    /// graph, trying the edges out of each vertex from its current-arc
    /// pointer on, and sends along the path it finds as much as the path can
    /// take, but no more than `f`. Returns what it sent, or zero when no
    /// path is left.
    fn dfs(&mut self, u: usize, f: i64) -> (df: i64)
        requires
            old(self).wf(),
            u < old(self)@.vertices,
            old(self).dist[u as int] is Some,
            f >= 0,
            forall|v: int|
                0 <= v < old(self).dist.len() ==> level(old(self).dist@, v) < old(self).dist.len(),
        ensures
            final(self).wf(),
            final(self).same_setting(old(self)),
            final(self).dist == old(self).dist,
            0 <= df <= f,
            u == old(self).sink ==> df == f,
            df == 0 ==> final(self).net == old(self).net,
            forall|v: int| #[trigger]
                final(self)@.net_out(v) == old(self)@.net_out(v) + (if v == u {
                    df as int
                } else {
                    0
                }) - (if v == old(self).sink {
                    df as int
                } else {
                    0
                }),
            forall|x: int|
                0 <= x < old(self)@.edges.len() && (#[trigger] final(self)@.edges[x]) != old(
                    self,
                )@.edges[x] ==> level(old(self).dist@, old(self)@.origin(x)) >= level(
                    old(self).dist@,
                    u as int,
                ) && level(old(self).dist@, old(self)@.target(x)) >= level(
                    old(self).dist@,
                    u as int,
                ),
            pushed_along_levels(old(self)@, final(self)@, old(self).dist@),
            pruned(&old(self).net, old(self).dist@, old(self).last@, old(self).sink as int)
                ==> pruned(
                &final(self).net,
                final(self).dist@,
                final(self).last@,
                final(self).sink as int,
            ),
            df == 0 && f > 0 && u != old(self).sink && pruned(
                &old(self).net,
                old(self).dist@,
                old(self).last@,
                old(self).sink as int,
            ) ==> dead(final(self)@, final(self).dist@, u as int, final(self).sink as int),
        decreases old(self).dist.len() - level(old(self).dist@, u as int),
    {
        proof {
            assert forall|e: int| 0 <= e < self@.edges.len() implies #[trigger] self@.same_edge(
                self@,
                e,
            ) by {}
        }
        if u == self.sink || f == zero() {
            return f;
        }
        let ghost g = self@;
        let ghost sink = self.sink as int;
        let ghost was_pruned = pruned(&self.net, self.dist@, self.last@, sink);
        let here: usize = self.dist[u].unwrap();
        let degree: usize = self.net.out_degree(u);
        let mut i: usize = self.last[u];
        proof {
            if was_pruned {
                assert forall|j: int| 0 <= j < i && j < degree implies #[trigger] blocked_at(
                    &self.net,
                    self.dist@,
                    sink,
                    u as int,
                    j,
                ) by {}
            }
        }
        while i < degree
            invariant
                self.wf(),
                self.net == old(self).net,
                self.dist == old(self).dist,
                self.source == old(self).source,
                self.sink == old(self).sink,
                g == self@,
                sink == self.sink,
                u < g.vertices,
                u != self.sink,
                f > 0,
                self.dist[u as int] == Some(here),
                degree == self.net.adjacency()[u as int].len(),
                forall|v: int| 0 <= v < self.dist.len() ==> level(self.dist@, v) < self.dist.len(),
                was_pruned == pruned(
                    &old(self).net,
                    old(self).dist@,
                    old(self).last@,
                    old(self).sink as int,
                ),
                was_pruned ==> pruned(&self.net, self.dist@, self.last@, sink),
                was_pruned ==> forall|j: int|
                    0 <= j < i && j < degree ==> #[trigger] blocked_at(
                        &self.net,
                        self.dist@,
                        sink,
                        u as int,
                        j,
                    ),
            decreases degree - i,
        {
            let edge_id: usize = self.net.out_edge(u, i);
            let edge: Edge = self.net.edge(edge_id);
            let room: i64 = self.net.residual(edge_id);
            proof {
                assert(g.edge_wf(edge_id as int));
                assert(g.flow_ok(edge_id as int));
                assert(level(self.dist@, u as int) == here);
                assert(level(self.dist@, edge.to as int) < self.dist.len());
            }
            let deeper: bool = match self.dist[edge.to] {
                Some(d) => d == here + 1,
                None => false,
            };
            if deeper && edge.flow != edge.capacity {
                let ghost before = *self;
                let limit: i64 = if f < room {
                    f
                } else {
                    room
                };
                let df: i64 = self.dfs(edge.to, limit);
                if df > zero() {
                    let ghost between = self@;
                    let ghost pointers = self.last@;
                    let ghost middle = *self;
                    proof {
                        assert(between.edges[edge_id as int] == g.edges[edge_id as int]);
                        g.lemma_same_topology_ends(between, edge_id as int);
                        between.lemma_pushed(edge_id as int, df as int);
                        lemma_push_is_along_levels(between, self.dist@, edge_id as int, df as int);
                    }
                    self.last[u] = i;
                    self.net.push(edge_id, df);
                    proof {
                        let after = self@;
                        g.lemma_same_topology_transitive(between, after);
                        lemma_pushed_along_levels_transitive(g, between, after, self.dist@);
                        assert forall|x: int|
                            0 <= x < g.edges.len() && (#[trigger] after.edges[x])
                                != g.edges[x] implies level(self.dist@, g.origin(x)) >= level(
                            self.dist@,
                            u as int,
                        ) && level(self.dist@, g.target(x)) >= level(self.dist@, u as int) by {
                            if between.edges[x] != g.edges[x] {
                            } else {
                                assert(x == edge_id || x == FlowGraph::mate(edge_id as int));
                                assert(g.edge_wf(FlowGraph::mate(edge_id as int)));
                            }
                        }
                        if was_pruned {
                            assert forall|w: int, j: int|
                                0 <= w < g.vertices && 0 <= j < self.last[w] && j
                                    < self.net.adjacency()[w].len() implies #[trigger] blocked_at(
                                &self.net,
                                self.dist@,
                                sink,
                                w,
                                j,
                            ) by {
                                assert(before.net.entry_ok(w, j));
                                let x = self.net.adjacency()[w][j] as int;
                                if w == u {
                                    assert(blocked_at(&before.net, self.dist@, sink, u as int, j));
                                    lemma_blocked_persists(g, after, self.dist@, sink, x);
                                } else {
                                    assert(self.last[w] == pointers[w]);
                                    assert(blocked_at(&middle.net, self.dist@, sink, w, j));
                                    lemma_blocked_persists(between, after, self.dist@, sink, x);
                                }
                            }
                        }
                    }
                    return df;
                }
                proof {
                    if was_pruned {
                        assert(blocked_at(&self.net, self.dist@, sink, u as int, i as int));
                    }
                }
            } else {
                proof {
                    assert(!admissible(g, self.dist@, edge_id as int));
                    assert(blocked_at(&self.net, self.dist@, sink, u as int, i as int));
                }
            }
            i = i + 1;
        }
        let ghost pointers = self.last@;
        self.last[u] = degree;
        proof {
            if was_pruned {
                assert forall|w: int, j: int|
                    0 <= w < g.vertices && 0 <= j < self.last[w] && j < self.net.adjacency()[w].len()
                        implies #[trigger] blocked_at(&self.net, self.dist@, sink, w, j) by {
                    if w != u {
                        assert(self.last[w] == pointers[w]);
                    }
                }
                assert forall|path: Seq<int>| !#[trigger] is_level_path(
                    g,
                    self.dist@,
                    path,
                    u as int,
                    sink,
                ) by {
                    if is_level_path(g, self.dist@, path, u as int, sink) {
                        assert(path.len() > 0);
                        let e = path[0];
                        assert(g.origin(e) == u);
                        assert(admissible(g, self.dist@, e));
                        assert(is_level_path(g, self.dist@, path.drop_first(), g.target(e), sink));
                        assert(self.net.is_listed(e));
                        let j = choose|j: int|
                            0 <= j < self.net.adjacency()[g.origin(e)].len()
                                && #[trigger] self.net.adjacency()[g.origin(e)][j] == e;
                        assert(blocked_at(&self.net, self.dist@, sink, u as int, j));
                        assert(blocked(g, self.dist@, sink, e));
                        assert(dead(g, self.dist@, g.target(e), sink));
                    }
                }
            }
        }
        zero()
    }

    /// Saturates the level graph that the last level assignment left:
    /// searches depth first from the source, again and again, until no path
    /// to the sink through the level graph is left. Returns what it sent in
    /// all. Afterwards every path from the source to the sink along edges
    /// with residual capacity is longer than the level of the sink.
    fn blocking_flow(&mut self, Ghost(inlet): Ghost<Seq<int>>) -> (pushed: i64)
        requires
            old(self).wf(),
            old(self).source != old(self).sink,
            old(self)@.is_feasible(old(self).source as int, old(self).sink as int),
            old(self)@.value_fits(old(self).source as int, old(self).sink as int),
            old(self)@.net_out(old(self).source as int) >= 0,
            level_tree(old(self)@, old(self).dist@, inlet, old(self).source as int),
            old(self).dist[old(self).sink as int] is Some,
            levels_are_shortest(old(self)@, old(self).dist@, old(self).sink as int),
            forall|v: int|
                0 <= v < old(self).dist.len() ==> level(old(self).dist@, v) < old(self).dist.len(),
        ensures
            final(self).wf(),
            final(self).same_setting(old(self)),
            final(self).dist == old(self).dist,
            final(self)@.is_feasible(final(self).source as int, final(self).sink as int),
            pushed > 0,
            final(self)@.net_out(final(self).source as int) == old(self)@.net_out(
                old(self).source as int,
            ) + pushed,
            phase_exhausted(
                final(self)@,
                final(self).dist@,
                final(self).source as int,
                final(self).sink as int,
            ),
    {
        self.rewind();
        let mut pushed: i64 = zero();
        let ghost source = self.source as int;
        let ghost sink = self.sink as int;
        let ghost at_phase = self@;
        let ghost levels = self.dist@;
        let ghost route = lemma_level_route(at_phase, levels, inlet, source, sink);
        proof {
            assert(pruned(&self.net, levels, self.last@, sink));
            assert forall|e: int| 0 <= e < at_phase.edges.len() implies #[trigger] at_phase.same_edge(
                at_phase,
                e,
            ) by {}
            at_phase.lemma_net_out_within_capacity(source);
        }
        loop
            invariant
                self.wf(),
                self.same_setting(old(self)),
                at_phase == old(self)@,
                at_phase.wf(),
                at_phase.flow_wf(),
                at_phase.value_fits(source, sink),
                at_phase.net_out(source) >= 0,
                source == self.source,
                sink == self.sink,
                source != sink,
                self@.is_feasible(source, sink),
                0 <= pushed,
                self@.net_out(source) == at_phase.net_out(source) + pushed,
                self.dist@ == levels,
                self.dist == old(self).dist,
                self.dist[source] is Some,
                level(levels, source) == 0,
                forall|v: int| 0 <= v < self.dist.len() ==> level(self.dist@, v) < self.dist.len(),
                is_level_path(at_phase, levels, route, source, sink),
                levels_are_shortest(at_phase, levels, sink),
                pushed_along_levels(at_phase, self@, levels),
                pruned(&self.net, levels, self.last@, sink),
                pushed == 0 ==> self@ == at_phase,
            ensures
                pushed > 0,
                phase_exhausted(self@, levels, source, sink),
            decreases i64::MAX - self@.net_out(source),
        {
            let ghost before = self@;
            let df: i64 = self.dfs(self.source, max_value());
            if df == zero() {
                proof {
                    assert(dead(self@, levels, source, sink));
                    if pushed == 0 {
                        assert(false);
                    }
                    lemma_saturated_levels_are_exhausted(at_phase, self@, levels, source, sink);
                }
                break ;
            }
            proof {
                assert forall|v: int|
                    0 <= v < self@.vertices && v != source && v != sink
                        implies #[trigger] self@.net_out(v) == 0 by {
                    assert(before.net_out(v) == 0);
                }
                at_phase.lemma_same_topology_transitive(before, self@);
                lemma_pushed_along_levels_transitive(at_phase, before, self@, levels);
                assert(self@.is_feasible(source, sink));
            }
            pushed = pushed + df;
        }
        pushed
    }

    /// Computes a maximum flow from the source to the sink. The flow of an
    /// earlier computation is cleared first, so that the solver can be asked
    /// again after its source and sink have been changed. Afterwards the
    /// network carries a maximum flow, whose value is returned.
    pub fn maxflow(&mut self) -> (value: i64)
        requires
            old(self).wf(),
            old(self)@.value_fits(
                old(self).source_vertex() as int,
                old(self).sink_vertex() as int,
            ),
        ensures
            final(self).wf(),
            final(self).source_vertex() == old(self).source_vertex(),
            final(self).sink_vertex() == old(self).sink_vertex(),
            final(self).adjacency() == old(self).adjacency(),
            old(self)@.same_topology(final(self)@),
            value == final(self)@.net_out(final(self).source_vertex() as int),
            value == old(self)@.max_flow_value(
                old(self).source_vertex() as int,
                old(self).sink_vertex() as int,
            ),
            final(self)@.is_max_flow(
                final(self).source_vertex() as int,
                final(self).sink_vertex() as int,
            ),
    {
        self.reset();
        let mut flow: i64 = zero();
        let ghost source = self.source as int;
        let ghost sink = self.sink as int;
        proof {
            self@.lemma_flow_free_feasible(source, sink);
        }
        if self.source == self.sink {
            proof {
                self@.lemma_source_is_sink(source);
                old(self)@.lemma_max_flow_attains_value(self@, source, sink);
            }
            return flow;
        }
        proof {
            assert(level(self.dist@, sink) == -1);
        }
        loop
            invariant
                self.wf(),
                self.same_setting(old(self)),
                old(self)@.same_topology(self@),
                old(self)@.value_fits(source, sink),
                source == self.source,
                sink == self.sink,
                source != sink,
                self@.is_feasible(source, sink),
                0 <= flow,
                flow == self@.net_out(source),
                phase_exhausted(self@, self.dist@, source, sink),
            ensures
                self@.is_max_flow(source, sink),
            decreases i64::MAX - flow,
        {
            let ghost prior = self.dist@;
            let reached = self.bfs();
            if !reached.0 {
                proof {
                    self@.lemma_closed_side_certifies_max(marked(self.dist@), source, sink);
                }
                break ;
            }
            assert(level(self.dist@, sink) > level(prior, sink));
            let ghost at_phase = self@;
            proof {
                assert forall|other: FlowGraph|
                    at_phase.same_topology(other) && #[trigger] other.is_feasible(
                        source,
                        sink,
                    ) implies other.net_out(source) <= i64::MAX by {
                    old(self)@.lemma_same_topology_transitive(at_phase, other);
                }
            }
            let pushed: i64 = self.blocking_flow(reached.1);
            proof {
                old(self)@.lemma_same_topology_transitive(at_phase, self@);
            }
            flow = flow + pushed;
        }
        proof {
            old(self)@.lemma_max_flow_attains_value(self@, source, sink);
        }
        flow
    }
}

} // verus!
