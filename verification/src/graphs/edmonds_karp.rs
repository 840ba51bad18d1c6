//! The Edmonds-Karp solver: repeatedly augments along a shortest path of
//! edges with residual capacity, found breadth first, until the sink can no
//! longer be reached.

use crate::numeric::{max_value, zero};
use crate::graphs::residual_network::{
    assert_vertices_in_bounds,
    Edge,
    FlowError,
    FlowGraph,
    ResidualNetwork,
};
use crate::graphs::search::{
    lemma_scanned_is_closed,
    lemma_scanned_monotone,
    lemma_unset_count_after_mark,
    lemma_unset_count_nonnegative,
    marked,
    queued,
    scanned,
    unset_count,
};
use std::collections::VecDeque;
use vstd::prelude::*;

verus! {

/// The shape of the link by which a search reached `v`: the predecessor is
/// marked, the recorded edge leads from it to `v`, `v` lies one step deeper
/// than the predecessor, and the bottleneck does not grow along the link.
pub open spec fn link_shape(
    g: FlowGraph,
    parent: Seq<Option<usize>>,
    inlet: Seq<usize>,
    depth: Seq<int>,
    slack: Seq<int>,
    v: int,
) -> bool {
    let p = parent[v].unwrap() as int;
    let e = inlet[v] as int;
    &&& 0 <= p < g.vertices
    &&& parent[p] is Some
    &&& 0 <= e < g.edges.len()
    &&& g.target(e) == v
    &&& g.origin(e) == p
    &&& depth[p] >= 0
    &&& depth[v] == depth[p] + 1
    &&& 0 < slack[v] <= slack[p]
}

/// Every marked vertex but the source hangs on a well-shaped link.
pub open spec fn search_tree(
    g: FlowGraph,
    parent: Seq<Option<usize>>,
    inlet: Seq<usize>,
    depth: Seq<int>,
    slack: Seq<int>,
    source: int,
) -> bool {
    &&& parent.len() == g.vertices
    &&& inlet.len() == g.vertices
    &&& depth.len() == g.vertices
    &&& slack.len() == g.vertices
    &&& 0 <= source < g.vertices
    &&& parent[source] == Some(source as usize)
    &&& depth[source] == 0
    &&& forall|v: int|
        0 <= v < g.vertices && parent[v] is Some && v != source ==> #[trigger] link_shape(
            g,
            parent,
            inlet,
            depth,
            slack,
            v,
        )
}

/// The link into `v` has room for the bottleneck recorded at `v`.
pub open spec fn link_room(g: FlowGraph, inlet: Seq<usize>, slack: Seq<int>, v: int) -> bool {
    slack[v] <= g.residual(inlet[v] as int)
}

/// Every link into a marked vertex no deeper than `bound` has room for the
/// bottleneck recorded there.
pub open spec fn tree_has_room(
    g: FlowGraph,
    parent: Seq<Option<usize>>,
    inlet: Seq<usize>,
    depth: Seq<int>,
    slack: Seq<int>,
    source: int,
    bound: int,
) -> bool {
    forall|v: int|
        0 <= v < g.vertices && parent[v] is Some && v != source && depth[v] <= bound
            ==> #[trigger] link_room(g, inlet, slack, v)
}

/// Edmonds-Karp maximum flow: repeatedly augments along a shortest path of
/// edges with residual capacity until the sink can no longer be reached.
pub struct EdmondsKarpMaxFlow {
    net: ResidualNetwork,
    parent: Vec<Option<usize>>,
    inlet: Vec<usize>,
}

impl View for EdmondsKarpMaxFlow {
    type V = FlowGraph;

    closed spec fn view(&self) -> FlowGraph {
        self.net@
    }
}

impl EdmondsKarpMaxFlow {
    /// The network is well formed and the scratch arrays have one entry per
    /// vertex.
    pub closed spec fn wf(&self) -> bool {
        &&& self.net.wf()
        &&& self.parent.len() == self.net@.vertices
        &&& self.inlet.len() == self.net@.vertices
    }

    /// The adjacency lists of the network.
    pub closed spec fn adjacency(&self) -> Seq<Seq<usize>> {
        self.net.adjacency()
    }

    /// The network of a well-formed solver is well formed, and so is the
    /// flow on it: edges are paired, the capacity bound and skew symmetry
    /// hold.
    pub proof fn lemma_graph_well_formed(&self)
        requires
            self.wf(),
        ensures
            self@.wf(),
            self@.flow_wf(),
    {
    }

    /// A solver over `n` vertices and no edges.
    pub fn new(n: usize) -> (solver: EdmondsKarpMaxFlow)
        ensures
            solver.wf(),
            solver@.vertices == n,
            solver@.edges.len() == 0,
    {
        let net = ResidualNetwork::new(n);
        let mut parent: Vec<Option<usize>> = Vec::new();
        let mut inlet: Vec<usize> = Vec::new();
        let mut v: usize = 0;
        while v < n
            invariant
                v <= n,
                parent.len() == v,
                inlet.len() == v,
            decreases n - v,
        {
            parent.push(None);
            inlet.push(0);
            v = v + 1;
        }
        EdmondsKarpMaxFlow { net, parent, inlet }
    }

    /// The network with the flow that the last computation left on it.
    pub fn network(&self) -> (net: &ResidualNetwork)
        requires
            self.wf(),
        ensures
            net.wf(),
            net@ == self@,
            net.adjacency() == self.adjacency(),
    {
        &self.net
    }

    /// Inserts an arc from `from` to `to` of the given capacity, as a forward
    /// edge and a reverse edge of capacity zero, neither carrying flow. An
    /// index that is not a vertex is refused and leaves the solver untouched.
    pub fn add_edge(&mut self, from: usize, to: usize, capacity: i64) -> (added: Result<
        (),
        FlowError,
    >)
        requires
            old(self).wf(),
            capacity >= 0,
        ensures
            final(self).wf(),
            final(self)@.vertices == old(self)@.vertices,
            from < old(self)@.vertices && to < old(self)@.vertices ==> {
                &&& added is Ok
                &&& final(self)@.edges == old(self)@.edges.push(
                    Edge { to, capacity, flow: 0 },
                ).push(Edge { to: from, capacity: 0, flow: 0 })
                &&& final(self).adjacency() == ResidualNetwork::adjacency_after_insert(
                    old(self).adjacency(),
                    from as int,
                    to as int,
                    old(self)@.edges.len(),
                )
            },
            !(from < old(self)@.vertices && to < old(self)@.vertices) ==> {
                &&& added == Err::<(), FlowError>(FlowError::OutOfBounds)
                &&& *final(self) == *old(self)
            },
    {
        self.net.add_edge(from, to, capacity)
    }

    /// Unsets every predecessor.
    fn clear_parents(&mut self)
        requires
            old(self).wf(),
        ensures
            final(self).wf(),
            final(self).net == old(self).net,
            final(self).inlet == old(self).inlet,
            forall|v: int| 0 <= v < final(self).parent.len() ==> final(self).parent[v] is None,
    {
        let mut v: usize = 0;
        while v < self.parent.len()
            invariant
                v <= self.parent.len(),
                self.parent.len() == old(self).parent.len(),
                self.net == old(self).net,
                self.inlet == old(self).inlet,
                forall|u: int| 0 <= u < v ==> self.parent[u] is None,
            decreases self.parent.len() - v,
        {
            self.parent[v] = None;
            v = v + 1;
        }
    }

    /// Forgets the last search and clears the flow on every edge.
    fn reset(&mut self)
        requires
            old(self).wf(),
        ensures
            final(self).wf(),
            final(self)@.flow_free(),
            old(self)@.same_topology(final(self)@),
            final(self).adjacency() == old(self).adjacency(),
    {
        self.clear_parents();
        self.net.reset();
    }

    /// Computes a maximum flow from `source` to `sink`. The flow of an
    /// earlier computation is cleared first, so that a network can be asked
    /// again, for the same or another pair of vertices. Afterwards the
    /// network carries a maximum flow, whose value is returned. An index that
    /// is not a vertex is refused and leaves the solver untouched.
    pub fn maxflow(&mut self, source: usize, sink: usize) -> (value: Result<i64, FlowError>)
        requires
            old(self).wf(),
            source < old(self)@.vertices && sink < old(self)@.vertices ==> old(self)@.value_fits(
                source as int,
                sink as int,
            ),
        ensures
            final(self).wf(),
            old(self)@.same_topology(final(self)@),
            final(self).adjacency() == old(self).adjacency(),
            source < old(self)@.vertices && sink < old(self)@.vertices ==> {
                &&& value matches Ok(total)
                &&& total == final(self)@.net_out(source as int)
                &&& total == old(self)@.max_flow_value(source as int, sink as int)
                &&& final(self)@.is_max_flow(source as int, sink as int)
            },
            !(source < old(self)@.vertices && sink < old(self)@.vertices) ==> {
                &&& value == Err::<i64, FlowError>(FlowError::OutOfBounds)
                &&& *final(self) == *old(self)
            },
    {
        match assert_vertices_in_bounds(source, sink, self.net.vertex_count()) {
            Err(e) => {
                proof {
                    assert forall|e: int| 0 <= e < self@.edges.len() implies #[trigger] self@.same_edge(
                        self@,
                        e,
                    ) by {}
                }
                return Err(e);
            },
            Ok(_) => {},
        }
        self.reset();
        let mut flow: i64 = zero();
        proof {
            self@.lemma_flow_free_feasible(source as int, sink as int);
        }
        loop
            invariant
                self.wf(),
                source < self@.vertices,
                sink < self@.vertices,
                old(self)@.same_topology(self@),
                old(self)@.value_fits(source as int, sink as int),
                self.adjacency() == old(self).adjacency(),
                self@.is_feasible(source as int, sink as int),
                flow == self@.net_out(source as int),
            ensures
                self@.is_max_flow(source as int, sink as int),
            decreases i64::MAX - flow,
        {
            let ghost at_search = self@;
            let found = self.bfs(source, sink);
            let new_flow: i64 = found.0;
            if new_flow == zero() {
                proof {
                    if source == sink {
                        self@.lemma_source_is_sink(source as int);
                    } else {
                        self@.lemma_closed_side_certifies_max(
                            marked(self.parent@),
                            source as int,
                            sink as int,
                        );
                    }
                }
                break ;
            }
            let ghost depth = found.1@;
            let ghost slack = found.2@;
            let mut cur: usize = sink;
            while cur != source
                invariant
                    self.wf(),
                    self.adjacency() == old(self).adjacency(),
                    source < self@.vertices,
                    sink < self@.vertices,
                    source != sink,
                    new_flow > 0,
                    at_search.wf(),
                    at_search.same_topology(self@),
                    search_tree(at_search, self.parent@, self.inlet@, depth, slack, source as int),
                    tree_has_room(
                        self@,
                        self.parent@,
                        self.inlet@,
                        depth,
                        slack,
                        source as int,
                        depth[cur as int],
                    ),
                    cur < self@.vertices,
                    self.parent[cur as int] is Some,
                    slack[cur as int] >= new_flow,
                    forall|v: int| #[trigger]
                        self@.net_out(v) == at_search.net_out(v) + (if v == cur {
                            new_flow as int
                        } else {
                            0
                        }) - (if v == sink {
                            new_flow as int
                        } else {
                            0
                        }),
                decreases depth[cur as int],
            {
                match self.parent[cur] {
                    Some(prev) => {
                        let e: usize = self.inlet[cur];
                        let ghost before = self@;
                        proof {
                            assert(link_shape(
                                at_search,
                                self.parent@,
                                self.inlet@,
                                depth,
                                slack,
                                cur as int,
                            ));
                            assert(link_room(self@, self.inlet@, slack, cur as int));
                            before.lemma_pushed(e as int, new_flow as int);
                            at_search.lemma_same_topology_ends(before, e as int);
                            at_search.lemma_same_topology_transitive(
                                before,
                                before.pushed(e as int, new_flow as int),
                            );
                        }
                        self.net.push(e, new_flow);
                        proof {
                            let after = self@;
                            assert forall|u: int|
                                0 <= u < after.vertices && self.parent[u] is Some && u != source
                                    && depth[u] <= depth[prev as int] implies #[trigger] link_room(
                                after,
                                self.inlet@,
                                slack,
                                u,
                            ) by {
                                assert(link_shape(
                                    at_search,
                                    self.parent@,
                                    self.inlet@,
                                    depth,
                                    slack,
                                    u,
                                ));
                                assert(link_room(before, self.inlet@, slack, u));
                                let x = self.inlet[u] as int;
                                at_search.lemma_same_topology_ends(before, x);
                                assert(x != e);
                                assert(x != FlowGraph::mate(e as int)) by {
                                    if x == FlowGraph::mate(e as int) {
                                        assert(at_search.origin(x) == at_search.target(e as int));
                                    }
                                }
                                assert(after.edges[x] == before.edges[x]);
                            }
                        }
                        cur = prev;
                    },
                    None => {
                        return Err(FlowError::BrokenPath);
                    },
                }
            }
            proof {
                assert forall|v: int|
                    0 <= v < self@.vertices && v != source && v != sink
                        implies #[trigger] self@.net_out(v) == 0 by {
                    assert(at_search.net_out(v) == 0);
                }
                old(self)@.lemma_same_topology_transitive(at_search, self@);
                assert(self@.is_feasible(source as int, sink as int));
            }
            flow = flow + new_flow;
        }
        proof {
            old(self)@.lemma_max_flow_attains_value(self@, source as int, sink as int);
        }
        Ok(flow)
    }

    /// Searches breadth first from `source` along edges with residual
    /// capacity, recording for each vertex it reaches the predecessor, the
    /// edge taken and the smallest residual capacity on the way. Stops as
    /// soon as `sink` is reached and returns the bottleneck of that path, or
    /// zero when `sink` cannot be reached.
    fn bfs(&mut self, source: usize, sink: usize) -> (found: (
        i64,
        Ghost<Seq<int>>,
        Ghost<Seq<int>>,
    ))
        requires
            old(self).wf(),
            source < old(self)@.vertices,
            sink < old(self)@.vertices,
        ensures
            final(self).wf(),
            final(self).net == old(self).net,
            found.0 >= 0,
            found.0 > 0 ==> {
                &&& source != sink
                &&& search_tree(
                    final(self)@,
                    final(self).parent@,
                    final(self).inlet@,
                    found.1@,
                    found.2@,
                    source as int,
                )
                &&& tree_has_room(
                    final(self)@,
                    final(self).parent@,
                    final(self).inlet@,
                    found.1@,
                    found.2@,
                    source as int,
                    found.1@[sink as int],
                )
                &&& final(self).parent[sink as int] is Some
                &&& found.2@[sink as int] == found.0
            },
            found.0 == 0 ==> {
                &&& final(self)@.closed_under_residual(marked(final(self).parent@))
                &&& marked(final(self).parent@).contains(source as int)
                &&& source != sink ==> !marked(final(self).parent@).contains(sink as int)
            },
    {
        self.clear_parents();
        let n: usize = self.net.vertex_count();
        let ghost g = self.net@;
        let ghost mut depth: Seq<int> = Seq::new(n as nat, |v: int| 0int);
        let ghost mut slack: Seq<int> = Seq::new(n as nat, |v: int| i64::MAX as int);
        let ghost mut done: Set<int> = Set::empty();
        self.parent[source] = Some(source);
        let mut deque: VecDeque<(usize, i64)> = VecDeque::new();
        deque.push_back((source, max_value()));
        proof {
            assert(deque@[0].0 == source);
            assert(queued(deque@, source as int));
        }
        while deque.len() > 0
            invariant
                self.wf(),
                self.net == old(self).net,
                g == self.net@,
                n == g.vertices,
                source < n,
                sink < n,
                search_tree(g, self.parent@, self.inlet@, depth, slack, source as int),
                forall|v: int|
                    0 <= v < n && self.parent[v] is Some && v != source ==> #[trigger] link_room(
                        g,
                        self.inlet@,
                        slack,
                        v,
                    ),
                slack[source as int] == i64::MAX,
                source != sink ==> self.parent[sink as int] is None,
                forall|i: int|
                    0 <= i < deque@.len() ==> {
                        &&& (#[trigger] deque@[i]).0 < n
                        &&& self.parent[deque@[i].0 as int] is Some
                        &&& deque@[i].1 == slack[deque@[i].0 as int]
                        &&& deque@[i].1 > 0
                    },
                forall|v: int|
                    0 <= v < n && self.parent[v] is Some ==> done.contains(v) || #[trigger] queued(
                        deque@,
                        v,
                    ),
                forall|v: int| #[trigger]
                    done.contains(v) ==> 0 <= v < n && self.parent[v] is Some && scanned(
                        &self.net,
                        self.parent@,
                        v,
                        self.net.adjacency()[v].len() as int,
                    ),
            decreases unset_count(self.parent@, n as int) + deque@.len(),
        {
            let ghost before_pop = deque@;
            let front: Option<(usize, i64)> = deque.pop_front();
            let item: (usize, i64) = front.unwrap();
            let v: usize = item.0;
            let flow: i64 = item.1;
            proof {
                assert(before_pop[0].0 == v);
                assert forall|u: int|
                    0 <= u < n && self.parent[u] is Some implies done.contains(u) || u == v
                    || #[trigger] queued(deque@, u) by {
                    if !done.contains(u) && u != v {
                        assert(queued(before_pop, u));
                        let i = choose|i: int|
                            0 <= i < before_pop.len() && (#[trigger] before_pop[i]).0 == u;
                        assert(deque@[i - 1].0 == u);
                    }
                }
                assert forall|i: int| 0 <= i < deque@.len() implies {
                    &&& (#[trigger] deque@[i]).0 < n
                    &&& self.parent[deque@[i].0 as int] is Some
                    &&& deque@[i].1 == slack[deque@[i].0 as int]
                    &&& deque@[i].1 > 0
                } by {
                    assert(deque@[i] == before_pop[i + 1]);
                }
                lemma_unset_count_nonnegative(self.parent@, n as int);
            }
            let ghost budget = unset_count(self.parent@, n as int) + deque@.len();
            let degree: usize = self.net.out_degree(v);
            let mut i: usize = 0;
            while i < degree
                invariant
                    self.wf(),
                    self.net == old(self).net,
                    g == self.net@,
                    n == g.vertices,
                    source < n,
                    sink < n,
                    v < n,
                    i <= degree,
                    degree == self.net.adjacency()[v as int].len(),
                    self.parent[v as int] is Some,
                    flow == slack[v as int],
                    flow > 0,
                    search_tree(g, self.parent@, self.inlet@, depth, slack, source as int),
                    forall|u: int|
                        0 <= u < n && self.parent[u] is Some && u != source
                            ==> #[trigger] link_room(g, self.inlet@, slack, u),
                    slack[source as int] == i64::MAX,
                    source != sink ==> self.parent[sink as int] is None,
                    forall|j: int|
                        0 <= j < deque@.len() ==> {
                            &&& (#[trigger] deque@[j]).0 < n
                            &&& self.parent[deque@[j].0 as int] is Some
                            &&& deque@[j].1 == slack[deque@[j].0 as int]
                            &&& deque@[j].1 > 0
                        },
                    forall|u: int|
                        0 <= u < n && self.parent[u] is Some ==> done.contains(u) || u == v
                            || #[trigger] queued(deque@, u),
                    forall|u: int| #[trigger]
                        done.contains(u) ==> 0 <= u < n && self.parent[u] is Some && scanned(
                            &self.net,
                            self.parent@,
                            u,
                            self.net.adjacency()[u].len() as int,
                        ),
                    scanned(&self.net, self.parent@, v as int, i as int),
                    unset_count(self.parent@, n as int) + deque@.len() == budget,
                decreases degree - i,
            {
                let e: usize = self.net.out_edge(v, i);
                let edge: Edge = self.net.edge(e);
                let room: i64 = self.net.residual(e);
                proof {
                    assert(g.edge_wf(e as int));
                }
                if self.parent[edge.to].is_none() && room > zero() {
                    let ghost marks = self.parent@;
                    let ghost edges_taken = self.inlet@;
                    let ghost depth_before = depth;
                    let ghost slack_before = slack;
                    let ghost queue_before = deque@;
                    let w: usize = edge.to;
                    self.parent[w] = Some(v);
                    self.inlet[w] = e;
                    let new_flow: i64 = if flow < room {
                        flow
                    } else {
                        room
                    };
                    proof {
                        depth = depth.update(w as int, depth[v as int] + 1);
                        slack = slack.update(w as int, new_flow as int);
                        lemma_unset_count_after_mark(marks, w as int, v);
                        assert(self.parent@ == marks.update(w as int, Some(v)));
                        if v != source {
                            assert(link_shape(
                                g,
                                marks,
                                edges_taken,
                                depth_before,
                                slack_before,
                                v as int,
                            ));
                        }
                        assert forall|u: int|
                            0 <= u < n && self.parent[u] is Some && u != source
                                implies #[trigger] link_shape(
                                g,
                                self.parent@,
                                self.inlet@,
                                depth,
                                slack,
                                u,
                            ) by {
                            if u != w {
                                assert(link_shape(
                                    g,
                                    marks,
                                    edges_taken,
                                    depth_before,
                                    slack_before,
                                    u,
                                ));
                            }
                        }
                        assert forall|u: int|
                            0 <= u < n && self.parent[u] is Some && u != source
                                implies #[trigger] link_room(g, self.inlet@, slack, u) by {
                            if u != w {
                                assert(link_room(g, edges_taken, slack_before, u));
                            }
                        }
                        assert forall|u: int| #[trigger] done.contains(u) implies 0 <= u < n
                            && self.parent[u] is Some && scanned(
                            &self.net,
                            self.parent@,
                            u,
                            self.net.adjacency()[u].len() as int,
                        ) by {
                            lemma_scanned_monotone(
                                &self.net,
                                marks,
                                self.parent@,
                                u,
                                self.net.adjacency()[u].len() as int,
                            );
                        }
                        assert(scanned(&self.net, self.parent@, v as int, i as int + 1)) by {
                            lemma_scanned_monotone(
                                &self.net,
                                marks,
                                self.parent@,
                                v as int,
                                i as int,
                            );
                        }
                    }
                    if w == sink {
                        proof {
                            assert forall|u: int|
                                0 <= u < n && self.parent[u] is Some && u != source && depth[u]
                                    <= depth[sink as int] implies #[trigger] link_room(
                                g,
                                self.inlet@,
                                slack,
                                u,
                            ) by {}
                        }
                        return (new_flow, Ghost(depth), Ghost(slack));
                    }
                    deque.push_back((w, new_flow));
                    proof {
                        assert(deque@[queue_before.len() as int].0 == w);
                        assert(queued(deque@, w as int));
                        assert forall|u: int|
                            0 <= u < n && self.parent[u] is Some implies done.contains(u) || u
                            == v || #[trigger] queued(deque@, u) by {
                            if u != w && !done.contains(u) && u != v {
                                assert(queued(queue_before, u));
                                let j = choose|j: int|
                                    0 <= j < queue_before.len() && (#[trigger] queue_before[j]).0
                                        == u;
                                assert(deque@[j].0 == u);
                            }
                        }
                        assert forall|j: int| 0 <= j < deque@.len() implies {
                            &&& (#[trigger] deque@[j]).0 < n
                            &&& self.parent[deque@[j].0 as int] is Some
                            &&& deque@[j].1 == slack[deque@[j].0 as int]
                            &&& deque@[j].1 > 0
                        } by {
                            if j < queue_before.len() {
                                assert(deque@[j] == queue_before[j]);
                            }
                        }
                    }
                }
                i = i + 1;
            }
            proof {
                done = done.insert(v as int);
                assert forall|u: int|
                    0 <= u < n && self.parent[u] is Some implies done.contains(u)
                    || #[trigger] queued(deque@, u) by {}
            }
        }
        proof {
            assert forall|v: int|
                0 <= v < self.parent@.len() && self.parent@[v] is Some implies #[trigger] scanned(
                &self.net,
                self.parent@,
                v,
                self.net.adjacency()[v].len() as int,
            ) by {
                if !done.contains(v) {
                    assert(queued(deque@, v));
                }
            }
            lemma_scanned_is_closed(&self.net, self.parent@);
        }
        (zero(), Ghost(depth), Ghost(slack))
    }
}

} // verus!
