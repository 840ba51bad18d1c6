//! The residual network shared by the maximum-flow solvers.
//!
//! Every inserted arc is stored as two adjacent [`Edge`] records: the forward
//! edge at an even index and its reverse edge, of capacity zero, at the next
//! odd index. The partner of an edge is therefore found by flipping the
//! lowest bit of its index.
//!
//! [`FlowGraph`] is the mathematical model of a network together with the
//! flow it currently carries; [`ResidualNetwork`] is the executable structure
//! whose view it is.

use crate::numeric::{max_value, zero};
use crate::summation::{
    lemma_sum_congruence,
    lemma_sum_monotone,
    lemma_sum_point_update,
    lemma_sum_prefix,
    lemma_sum_zero,
    sum_to,
};
use vstd::prelude::*;

verus! {

/// One directed arc of a residual network: its head, how much it may carry
/// and how much it carries now.
#[derive(Debug, Clone, Copy)]
pub struct Edge {
    pub to: usize,
    pub capacity: i64,
    pub flow: i64,
}

impl Edge {
    /// An edge into `to` with the given capacity and no flow.
    pub fn new(to: usize, capacity: i64) -> (edge: Edge)
        ensures
            edge.to == to,
            edge.capacity == capacity,
            edge.flow == 0,
    {
        Edge { to, capacity, flow: zero() }
    }
}

/// Why an operation on a network was refused.
#[derive(Debug, Clone, Copy, PartialEq, Eq, Structural)]
pub enum FlowError {
    /// A vertex index is not below the vertex count.
    OutOfBounds,
    /// An augmenting path was announced but its predecessor chain does not
    /// lead back to the source.
    BrokenPath,
}

impl FlowError {
    /// A human-readable description of the error.
    pub fn message(&self) -> (text: &'static str)
        ensures
            text@ == (match *self {
                FlowError::OutOfBounds => "Provided vertices are out of bounds"@,
                FlowError::BrokenPath => "No path from source to sink"@,
            }),
    {
        match self {
            FlowError::OutOfBounds => "Provided vertices are out of bounds",
            FlowError::BrokenPath => "No path from source to sink",
        }
    }
}

/// Checks that both vertex indices lie below `n`.
pub fn assert_vertices_in_bounds(from: usize, to: usize, n: usize) -> (checked: Result<
    (),
    FlowError,
>)
    ensures
        checked == (if from < n && to < n {
            Ok::<(), FlowError>(())
        } else {
            Err::<(), FlowError>(FlowError::OutOfBounds)
        }),
{
    if from >= n || to >= n {
        return Err(FlowError::OutOfBounds);
    }
    Ok(())
}

/// A network with a flow on it: the number of vertices and the edge records
/// in storage order.
pub struct FlowGraph {
    pub vertices: nat,
    pub edges: Seq<Edge>,
}

impl FlowGraph {
    /// The index of the edge paired with `e`: `e` with its lowest bit flipped.
    pub open spec fn mate(e: int) -> int {
        if e % 2 == 0 {
            e + 1
        } else {
            e - 1
        }
    }

    /// The vertex that edge `e` enters.
    pub open spec fn target(self, e: int) -> int {
        self.edges[e].to as int
    }

    /// The vertex that edge `e` leaves, which is the head of its mate.
    pub open spec fn origin(self, e: int) -> int {
        self.edges[Self::mate(e)].to as int
    }

    /// How much more flow edge `e` can take.
    pub open spec fn residual(self, e: int) -> int {
        self.edges[e].capacity - self.edges[e].flow
    }

    /// Edge `e` has a head inside the graph and a capacity that is
    /// non-negative, and zero if `e` is a reverse edge.
    pub open spec fn edge_wf(self, e: int) -> bool {
        &&& self.edges[e].to < self.vertices
        &&& self.edges[e].capacity >= 0
        &&& e % 2 == 1 ==> self.edges[e].capacity == 0
    }

    /// The shape of the network is sound: edges come in pairs, and each one
    /// is well formed.
    pub open spec fn wf(self) -> bool {
        &&& self.edges.len() % 2 == 0
        &&& forall|e: int| 0 <= e < self.edges.len() ==> #[trigger] self.edge_wf(e)
    }

    /// Edge `e` carries no more than its capacity and exactly the negation
    /// of what its mate carries.
    pub open spec fn flow_ok(self, e: int) -> bool {
        &&& self.edges[e].flow <= self.edges[e].capacity
        &&& self.edges[e].flow == -self.edges[Self::mate(e)].flow
    }

    /// The capacity bound and skew symmetry hold on every edge.
    pub open spec fn flow_wf(self) -> bool {
        forall|e: int| 0 <= e < self.edges.len() ==> #[trigger] self.flow_ok(e)
    }

    /// What edge `e` contributes to the flow leaving `v`.
    pub open spec fn out_term(self, v: int, e: int) -> int {
        if self.origin(e) == v {
            self.edges[e].flow as int
        } else {
            0
        }
    }

    /// The net flow leaving `v`: the sum of the flows of all edges, forward
    /// and reverse, whose origin is `v`. By skew symmetry this is the flow on
    /// the arcs out of `v` minus the flow on the arcs into `v`.
    pub open spec fn net_out(self, v: int) -> int {
        sum_to(|e: int| self.out_term(v, e), self.edges.len() as int)
    }

    /// Flow is conserved at every vertex other than `source` and `sink`.
    pub open spec fn conserved(self, source: int, sink: int) -> bool {
        forall|v: int|
            0 <= v < self.vertices && v != source && v != sink ==> #[trigger] self.net_out(v) == 0
    }

    /// The flow is a feasible flow from `source` to `sink`.
    pub open spec fn is_feasible(self, source: int, sink: int) -> bool {
        &&& self.wf()
        &&& self.flow_wf()
        &&& self.conserved(source, sink)
    }

    /// Edge `e` has the same head and capacity in both graphs.
    pub open spec fn same_edge(self, other: FlowGraph, e: int) -> bool {
        &&& self.edges[e].to == other.edges[e].to
        &&& self.edges[e].capacity == other.edges[e].capacity
    }

    /// Both graphs are the same network, possibly with different flows.
    pub open spec fn same_topology(self, other: FlowGraph) -> bool {
        &&& self.vertices == other.vertices
        &&& self.edges.len() == other.edges.len()
        &&& forall|e: int| 0 <= e < self.edges.len() ==> #[trigger] self.same_edge(other, e)
    }

    /// No edge carries any flow.
    pub open spec fn flow_free(self) -> bool {
        forall|e: int| 0 <= e < self.edges.len() ==> (#[trigger] self.edges[e]).flow == 0
    }

    /// The flow is a maximum flow from `source` to `sink`: it is feasible and
    /// no feasible flow on the same network sends more out of `source`.
    pub open spec fn is_max_flow(self, source: int, sink: int) -> bool {
        &&& self.is_feasible(source, sink)
        &&& forall|other: FlowGraph|
            self.same_topology(other) && #[trigger] other.is_feasible(source, sink)
                ==> other.net_out(source) <= self.net_out(source)
    }

    /// The value of every feasible flow from `source` to `sink` on this
    /// network fits in an `i64`.
    pub open spec fn value_fits(self, source: int, sink: int) -> bool {
        forall|other: FlowGraph|
            self.same_topology(other) && #[trigger] other.is_feasible(source, sink)
                ==> other.net_out(source) <= i64::MAX
    }

    /// The graph after `amount` more units are sent along edge `e`.
    pub open spec fn pushed(self, e: int, amount: int) -> FlowGraph {
        let m = Self::mate(e);
        FlowGraph {
            vertices: self.vertices,
            edges: self.edges.update(
                e,
                Edge {
                    to: self.edges[e].to,
                    capacity: self.edges[e].capacity,
                    flow: (self.edges[e].flow + amount) as i64,
                },
            ).update(
                m,
                Edge {
                    to: self.edges[m].to,
                    capacity: self.edges[m].capacity,
                    flow: (self.edges[m].flow - amount) as i64,
                },
            ),
        }
    }

    /// Being the same network is symmetric.
    pub proof fn lemma_same_topology_symmetric(self, other: FlowGraph)
        requires
            self.same_topology(other),
        ensures
            other.same_topology(self),
    {
        assert forall|e: int| 0 <= e < other.edges.len() implies #[trigger] other.same_edge(
            self,
            e,
        ) by {
            assert(self.same_edge(other, e));
        }
    }

    /// Being the same network is transitive.
    pub proof fn lemma_same_topology_transitive(self, middle: FlowGraph, other: FlowGraph)
        requires
            self.same_topology(middle),
            middle.same_topology(other),
        ensures
            self.same_topology(other),
    {
        assert forall|e: int| 0 <= e < self.edges.len() implies #[trigger] self.same_edge(
            other,
            e,
        ) by {
            assert(self.same_edge(middle, e));
            assert(middle.same_edge(other, e));
        }
    }

    /// In the same network every edge joins the same two vertices and has
    /// the same capacity.
    pub proof fn lemma_same_topology_ends(self, other: FlowGraph, e: int)
        requires
            self.same_topology(other),
            self.edges.len() % 2 == 0,
            0 <= e < self.edges.len(),
        ensures
            self.origin(e) == other.origin(e),
            self.target(e) == other.target(e),
            self.edges[e].capacity == other.edges[e].capacity,
    {
        assert(self.same_edge(other, e));
        assert(self.same_edge(other, Self::mate(e)));
    }

    /// A well-formed network that carries no flow carries a feasible flow of
    /// value zero, whatever the source and the sink.
    pub proof fn lemma_flow_free_feasible(self, source: int, sink: int)
        requires
            self.wf(),
            self.flow_free(),
        ensures
            self.is_feasible(source, sink),
            self.net_out(source) == 0,
    {
        assert forall|e: int| 0 <= e < self.edges.len() implies #[trigger] self.flow_ok(e) by {
            assert(self.edge_wf(e));
            assert(self.edges[e].flow == 0);
            assert(self.edges[Self::mate(e)].flow == 0);
        }
        assert forall|v: int|
            0 <= v < self.vertices && v != source && v != sink implies #[trigger] self.net_out(v)
            == 0 by {
            self.lemma_flow_free_net_out(v);
        }
        self.lemma_flow_free_net_out(source);
    }

    /// The capacity of edge `e` if it leaves `v`, else zero.
    pub open spec fn capacity_term(self, v: int, e: int) -> int {
        if self.origin(e) == v {
            self.edges[e].capacity as int
        } else {
            0
        }
    }

    /// The total capacity of the edges that leave `v`.
    pub open spec fn out_capacity(self, v: int) -> int {
        sum_to(|e: int| self.capacity_term(v, e), self.edges.len() as int)
    }

    /// No flow sends more out of a vertex than the edges that leave it can
    /// carry.
    pub proof fn lemma_net_out_within_capacity(self, v: int)
        requires
            self.flow_wf(),
        ensures
            self.net_out(v) <= self.out_capacity(v),
    {
        assert forall|e: int| 0 <= e < self.edges.len() implies #[trigger] self.out_term(v, e)
            <= self.capacity_term(v, e) by {
            assert(self.flow_ok(e));
        }
        lemma_sum_monotone(
            |e: int| self.out_term(v, e),
            |e: int| self.capacity_term(v, e),
            self.edges.len() as int,
        );
    }

    /// If the capacity out of the source fits in an `i64`, so does the value
    /// of every feasible flow.
    pub proof fn lemma_value_fits(self, source: int, sink: int)
        requires
            self.edges.len() % 2 == 0,
            self.out_capacity(source) <= i64::MAX,
        ensures
            self.value_fits(source, sink),
    {
        assert forall|other: FlowGraph|
            self.same_topology(other) && #[trigger] other.is_feasible(
                source,
                sink,
            ) implies other.net_out(source) <= i64::MAX by {
            other.lemma_net_out_within_capacity(source);
            assert forall|e: int| 0 <= e < self.edges.len() implies #[trigger] self.capacity_term(
                source,
                e,
            ) == other.capacity_term(source, e) by {
                self.lemma_same_topology_ends(other, e);
            }
            lemma_sum_congruence(
                |e: int| self.capacity_term(source, e),
                |e: int| other.capacity_term(source, e),
                self.edges.len() as int,
            );
        }
    }

    /// A network that carries no flow has no net flow anywhere.
    pub proof fn lemma_flow_free_net_out(self, v: int)
        requires
            self.flow_free(),
        ensures
            self.net_out(v) == 0,
    {
        let f = |e: int| self.out_term(v, e);
        assert forall|e: int| 0 <= e < self.edges.len() implies #[trigger] f(e) == 0 by {
            assert(self.edges[e].flow == 0);
        }
        lemma_sum_zero(f, self.edges.len() as int);
    }

    /// Sending `amount` along edge `e`, within its residual capacity, keeps
    /// the network and the flow well formed, raises the net flow out of the
    /// origin of `e` by `amount`, lowers the net flow out of its target by
    /// `amount`, and leaves every other vertex as it was.
    pub proof fn lemma_pushed(self, e: int, amount: int)
        requires
            self.wf(),
            self.flow_wf(),
            0 <= e < self.edges.len(),
            0 <= amount <= self.residual(e),
        ensures
            self.pushed(e, amount).wf(),
            self.pushed(e, amount).flow_wf(),
            self.same_topology(self.pushed(e, amount)),
            self.pushed(e, amount).edges[e].flow == self.edges[e].flow + amount,
            self.pushed(e, amount).edges[Self::mate(e)].flow == self.edges[Self::mate(e)].flow
                - amount,
            forall|v: int|
                #[trigger] self.pushed(e, amount).net_out(v) == self.net_out(v) + (if self.origin(e)
                    == v {
                    amount
                } else {
                    0
                }) - (if self.target(e) == v {
                    amount
                } else {
                    0
                }),
    {
        let m = Self::mate(e);
        let after = self.pushed(e, amount);
        let len = self.edges.len() as int;
        assert(self.flow_ok(e));
        assert(self.flow_ok(m));
        assert(self.edge_wf(e));
        assert(self.edge_wf(m));
        assert(self.edges[e].flow + amount <= i64::MAX);
        assert(self.edges[m].flow - amount >= i64::MIN);
        assert(after.edges[e].flow == self.edges[e].flow + amount);
        assert(after.edges[m].flow == self.edges[m].flow - amount);
        assert forall|x: int| 0 <= x < len implies #[trigger] self.same_edge(after, x) by {}
        assert forall|x: int| 0 <= x < len implies #[trigger] after.edge_wf(x) by {
            assert(self.edge_wf(x));
        }
        assert forall|x: int| 0 <= x < len implies #[trigger] after.flow_ok(x) by {
            assert(self.flow_ok(x));
            assert(self.flow_ok(Self::mate(x)));
        }
        assert forall|x: int| 0 <= x < len implies after.origin(x) == self.origin(x) by {
            assert(self.same_edge(after, Self::mate(x)));
        }
        assert forall|v: int|
            #[trigger] after.net_out(v) == self.net_out(v) + (if self.origin(e) == v {
                amount
            } else {
                0
            }) - (if self.target(e) == v {
                amount
            } else {
                0
            }) by {
            // Apply the two changes one after the other.
            let before = |x: int| self.out_term(v, x);
            let between = |x: int|
                if x == e {
                    after.out_term(v, x)
                } else {
                    self.out_term(v, x)
                };
            let finally = |x: int| after.out_term(v, x);
            lemma_sum_point_update(before, between, len, e);
            lemma_sum_point_update(between, finally, len, m);
            assert(self.origin(m) == self.target(e));
        }
    }
}

/// A residual network: the edge records and, for each vertex, the indices of
/// the edges that leave it, in insertion order.
pub struct ResidualNetwork {
    al: Vec<Vec<usize>>,
    edges: Vec<Edge>,
    n: usize,
}

impl View for ResidualNetwork {
    type V = FlowGraph;

    closed spec fn view(&self) -> FlowGraph {
        FlowGraph { vertices: self.n as nat, edges: self.edges@ }
    }
}

impl ResidualNetwork {
    /// The adjacency lists: for each vertex, the indices of the edges that
    /// leave it.
    pub closed spec fn adjacency(&self) -> Seq<Seq<usize>> {
        Seq::new(self.al.len() as nat, |v: int| self.al[v]@)
    }

    /// Edge `e` stands in the adjacency list of its origin.
    pub open spec fn is_listed(&self, e: int) -> bool {
        exists|i: int|
            0 <= i < self.adjacency()[self@.origin(e)].len()
                && #[trigger] self.adjacency()[self@.origin(e)][i] == e
    }

    /// Entry `i` of the adjacency list of `v` names an edge that leaves `v`.
    pub open spec fn entry_ok(&self, v: int, i: int) -> bool {
        &&& 0 <= self.adjacency()[v][i] < self@.edges.len()
        &&& self@.origin(self.adjacency()[v][i] as int) == v
    }

    /// The network is well formed: its edges are paired, the flow on it obeys
    /// the capacity bound and skew symmetry, and the adjacency lists hold
    /// exactly the edges that leave each vertex.
    pub open spec fn wf(&self) -> bool {
        &&& self@.wf()
        &&& self@.flow_wf()
        &&& self.adjacency().len() == self@.vertices
        &&& forall|v: int, i: int|
            0 <= v < self@.vertices && 0 <= i < self.adjacency()[v].len()
                ==> #[trigger] self.entry_ok(v, i)
        &&& forall|e: int| 0 <= e < self@.edges.len() ==> #[trigger] self.is_listed(e)
    }

    /// A network of `n` vertices and no edges.
    pub fn new(n: usize) -> (net: ResidualNetwork)
        ensures
            net.wf(),
            net@.vertices == n,
            net@.edges.len() == 0,
    {
        let mut al: Vec<Vec<usize>> = Vec::new();
        let mut v: usize = 0;
        while v < n
            invariant
                v <= n,
                al.len() == v,
                forall|u: int| 0 <= u < v ==> (#[trigger] al[u]).len() == 0,
            decreases n - v,
        {
            al.push(Vec::new());
            v = v + 1;
        }
        ResidualNetwork { al, edges: Vec::new(), n }
    }

    /// The number of vertices.
    pub fn vertex_count(&self) -> (n: usize)
        ensures
            n == self@.vertices,
    {
        self.n
    }

    /// The number of edge records, two for every inserted arc.
    pub fn edge_count(&self) -> (m: usize)
        ensures
            m == self@.edges.len(),
    {
        self.edges.len()
    }

    /// The record of edge `e`.
    pub fn edge(&self, e: usize) -> (edge: Edge)
        requires
            e < self@.edges.len(),
        ensures
            edge == self@.edges[e as int],
    {
        self.edges[e]
    }

    /// The number of edges that leave `v`.
    pub fn out_degree(&self, v: usize) -> (d: usize)
        requires
            self.wf(),
            v < self@.vertices,
        ensures
            d == self.adjacency()[v as int].len(),
    {
        self.al[v].len()
    }

    /// The index of the `i`-th edge that leaves `v`.
    pub fn out_edge(&self, v: usize, i: usize) -> (e: usize)
        requires
            self.wf(),
            v < self@.vertices,
            i < self.adjacency()[v as int].len(),
        ensures
            e == self.adjacency()[v as int][i as int],
            e < self@.edges.len(),
            self@.origin(e as int) == v,
    {
        assert(self.entry_ok(v as int, i as int));
        self.al[v][i]
    }

    /// Inserts an arc from `from` to `to` of the given capacity: a forward
    /// edge with that capacity and, right after it, a reverse edge of
    /// capacity zero, neither carrying flow. Both are appended to the
    /// adjacency lists of the vertices they leave. An index that is not a
    /// vertex is refused and leaves the network untouched.
    pub fn add_edge(&mut self, from: usize, to: usize, capacity: i64) -> (added: Result<
        (),
        FlowError,
    >)
        requires
            old(self).wf(),
            capacity >= 0,
        ensures
            final(self).wf(),
            final(self)@.vertices == old(self)@.vertices,
            from < old(self)@.vertices && to < old(self)@.vertices ==> {
                &&& added is Ok
                &&& final(self)@.edges == old(self)@.edges.push(
                    Edge { to, capacity, flow: 0 },
                ).push(Edge { to: from, capacity: 0, flow: 0 })
                &&& final(self).adjacency() == Self::adjacency_after_insert(
                    old(self).adjacency(),
                    from as int,
                    to as int,
                    old(self)@.edges.len(),
                )
            },
            !(from < old(self)@.vertices && to < old(self)@.vertices) ==> {
                &&& added == Err::<(), FlowError>(FlowError::OutOfBounds)
                &&& *final(self) == *old(self)
            },
    {
        match assert_vertices_in_bounds(from, to, self.n) {
            Err(e) => {
                return Err(e);
            },
            Ok(_) => {},
        }
        let id = self.edges.len();
        self.al[from].push(id);
        self.edges.push(Edge::new(to, capacity));
        let rid = self.edges.len();
        self.al[to].push(rid);
        self.edges.push(Edge::new(from, zero()));
        proof {
            let before = old(self)@;
            let after = self@;
            let len = before.edges.len() as int;
            assert(self.adjacency() =~= Self::adjacency_after_insert(
                old(self).adjacency(),
                from as int,
                to as int,
                before.edges.len(),
            )) by {
                assert forall|v: int| 0 <= v < self.n implies #[trigger] self.adjacency()[v]
                    =~= Self::adjacency_after_insert(
                    old(self).adjacency(),
                    from as int,
                    to as int,
                    before.edges.len(),
                )[v] by {}
            }
            assert forall|e: int| 0 <= e < len implies after.edges[e] == before.edges[e] by {}
            assert forall|e: int| 0 <= e < len + 2 implies #[trigger] after.edge_wf(e) by {
                if e < len {
                    assert(before.edge_wf(e));
                }
            }
            assert forall|e: int| 0 <= e < len + 2 implies #[trigger] after.flow_ok(e) by {
                if e < len {
                    assert(before.flow_ok(e));
                }
            }
            assert forall|e: int| 0 <= e < len implies after.origin(e) == before.origin(e) by {}
            assert forall|v: int, i: int|
                0 <= v < after.vertices && 0 <= i < self.adjacency()[v].len()
                    implies #[trigger] self.entry_ok(v, i) by {
                if i < old(self).adjacency()[v].len() {
                    assert(old(self).entry_ok(v, i));
                    assert(self.adjacency()[v][i] == old(self).adjacency()[v][i]);
                }
            }
            assert forall|e: int| 0 <= e < len + 2 implies #[trigger] self.is_listed(e) by {
                if e < len {
                    assert(old(self).is_listed(e));
                    let i = choose|i: int|
                        0 <= i < old(self).adjacency()[before.origin(e)].len()
                            && #[trigger] old(self).adjacency()[before.origin(e)][i] == e;
                    assert(before.edge_wf(FlowGraph::mate(e)));
                    assert(self.adjacency()[after.origin(e)][i] == e);
                } else if e == len {
                    let i = old(self).adjacency()[from as int].len() as int;
                    assert(self.adjacency()[after.origin(e)][i] == e);
                } else {
                    let i = self.adjacency()[to as int].len() - 1;
                    assert(self.adjacency()[after.origin(e)][i] == e);
                }
            }
        }
        Ok(())
    }

    /// The adjacency lists after an arc from `from` to `to` has been stored
    /// at edge indices `id` and `id + 1`.
    pub open spec fn adjacency_after_insert(
        adjacency: Seq<Seq<usize>>,
        from: int,
        to: int,
        id: nat,
    ) -> Seq<Seq<usize>> {
        let first = adjacency.update(from, adjacency[from].push(id as usize));
        first.update(to, first[to].push((id + 1) as usize))
    }

    /// Clears the flow on every edge.
    pub fn reset(&mut self)
        requires
            old(self).wf(),
        ensures
            final(self).wf(),
            final(self)@.flow_free(),
            old(self)@.same_topology(final(self)@),
            final(self).adjacency() == old(self).adjacency(),
    {
        let mut e: usize = 0;
        while e < self.edges.len()
            invariant
                e <= self.edges.len(),
                self.n == old(self).n,
                self.al == old(self).al,
                self.edges.len() == old(self).edges.len(),
                forall|x: int|
                    0 <= x < self.edges.len() ==> (#[trigger] self.edges[x]).to == old(
                        self,
                    ).edges[x].to && self.edges[x].capacity == old(self).edges[x].capacity,
                forall|x: int| 0 <= x < e ==> (#[trigger] self.edges[x]).flow == 0,
            decreases self.edges.len() - e,
        {
            self.edges[e].flow = zero();
            e = e + 1;
        }
        proof {
            let before = old(self)@;
            let after = self@;
            let len = before.edges.len() as int;
            assert(self.adjacency() =~= old(self).adjacency());
            assert forall|x: int| 0 <= x < len implies #[trigger] before.same_edge(after, x) by {
                assert(self.edges[x].to == old(self).edges[x].to);
            }
            assert forall|x: int| 0 <= x < len implies #[trigger] after.edge_wf(x) by {
                assert(before.edge_wf(x));
                assert(before.same_edge(after, x));
            }
            assert forall|x: int| 0 <= x < len implies #[trigger] after.flow_ok(x) by {
                assert(before.edge_wf(x));
                assert(before.same_edge(after, x));
                assert(self.edges[x].flow == 0);
                assert(self.edges[FlowGraph::mate(x)].flow == 0);
            }
            assert forall|x: int| 0 <= x < len implies after.origin(x) == before.origin(x) by {
                assert(before.same_edge(after, FlowGraph::mate(x)));
            }
            assert forall|v: int, i: int|
                0 <= v < after.vertices && 0 <= i < self.adjacency()[v].len()
                    implies #[trigger] self.entry_ok(v, i) by {
                assert(old(self).entry_ok(v, i));
            }
            assert forall|x: int| 0 <= x < len implies #[trigger] self.is_listed(x) by {
                assert(old(self).is_listed(x));
            }
        }
    }

    /// Sends `amount` more units along edge `e`: its flow grows by `amount`
    /// and the flow of its mate shrinks by the same.
    pub fn push(&mut self, e: usize, amount: i64)
        requires
            old(self).wf(),
            e < old(self)@.edges.len(),
            0 <= amount <= old(self)@.residual(e as int),
        ensures
            final(self).wf(),
            final(self)@ == old(self)@.pushed(e as int, amount as int),
            final(self).adjacency() == old(self).adjacency(),
    {
        let m = e ^ 1;
        proof {
            let before = self@;
            assert(m == FlowGraph::mate(e as int)) by {
                assert((e ^ 1) / 2 == e / 2 && (e ^ 1) % 2 != e % 2) by (bit_vector);
            }
            before.lemma_pushed(e as int, amount as int);
            assert(before.flow_ok(e as int));
            assert(before.flow_ok(m as int));
            assert(before.edge_wf(e as int));
            assert(before.edge_wf(m as int));
        }
        self.edges[e].flow = self.edges[e].flow + amount;
        self.edges[m].flow = self.edges[m].flow - amount;
        proof {
            let before = old(self)@;
            let after = self@;
            assert(after.edges =~= before.pushed(e as int, amount as int).edges);
            assert(self.adjacency() =~= old(self).adjacency());
            assert forall|v: int, i: int|
                0 <= v < after.vertices && 0 <= i < self.adjacency()[v].len()
                    implies #[trigger] self.entry_ok(v, i) by {
                assert(old(self).entry_ok(v, i));
                assert(before.same_edge(after, FlowGraph::mate(self.adjacency()[v][i] as int)));
            }
            assert forall|x: int| 0 <= x < after.edges.len() implies #[trigger] self.is_listed(
                x,
            ) by {
                assert(old(self).is_listed(x));
                assert(before.same_edge(after, FlowGraph::mate(x)));
                let i = choose|i: int|
                    0 <= i < old(self).adjacency()[before.origin(x)].len()
                        && #[trigger] old(self).adjacency()[before.origin(x)][i] == x;
                assert(self.adjacency()[after.origin(x)][i] == x);
            }
        }
    }

    /// The total capacity of the edges that leave `v`, or nothing if that
    /// total does not fit in an `i64`.
    pub fn out_capacity(&self, v: usize) -> (total: Option<i64>)
        requires
            self.wf(),
        ensures
            match total {
                Some(c) => c == self@.out_capacity(v as int),
                None => self@.out_capacity(v as int) > i64::MAX,
            },
    {
        let ghost g = self@;
        let ghost term = |e: int| g.capacity_term(v as int, e);
        let mut total: i64 = zero();
        let mut e: usize = 0;
        proof {
            assert forall|x: int| 0 <= x < g.edges.len() implies #[trigger] term(x) >= 0 by {
                assert(g.edge_wf(x));
            }
        }
        while e < self.edges.len()
            invariant
                self.wf(),
                g == self@,
                term == |e: int| g.capacity_term(v as int, e),
                e <= self.edges.len(),
                0 <= total,
                total == sum_to(term, e as int),
                forall|x: int| 0 <= x < g.edges.len() ==> #[trigger] term(x) >= 0,
            decreases self.edges.len() - e,
        {
            let m: usize = e ^ 1;
            proof {
                assert((e ^ 1) / 2 == e / 2 && (e ^ 1) % 2 != e % 2) by (bit_vector);
                assert(m == FlowGraph::mate(e as int));
                assert(g.edge_wf(e as int));
            }
            if self.edges[m].to == v {
                let c: i64 = self.edges[e].capacity;
                if c > max_value() - total {
                    proof {
                        lemma_sum_prefix(term, e as int + 1, g.edges.len() as int);
                    }
                    return None;
                }
                total = total + c;
            }
            e = e + 1;
        }
        Some(total)
    }

    /// The residual capacity of edge `e`.
    pub fn residual(&self, e: usize) -> (r: i64)
        requires
            self.wf(),
            e < self@.edges.len(),
        ensures
            r == self@.residual(e as int),
            r >= 0,
    {
        proof {
            let m = FlowGraph::mate(e as int);
            assert(self@.flow_ok(e as int));
            assert(self@.flow_ok(m));
            assert(self@.edge_wf(e as int));
            assert(self@.edge_wf(m));
        }
        let edge = self.edges[e];
        edge.capacity - edge.flow
    }
}

} // verus!
