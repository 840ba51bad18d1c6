//! Cuts of a flow network and the certificate of maximality.
//!
//! A *side* is a set of vertices. The flow that a feasible flow sends out of
//! the source equals the flow that crosses from any side holding the source
//! but not the sink to its complement, and that is at most the capacity of
//! the crossing edges. A side that no edge with residual capacity leaves
//! therefore proves that the flow at hand is a maximum flow.

use crate::graphs::residual_network::FlowGraph;
use crate::summation::{
    lemma_sum_additive,
    lemma_sum_congruence,
    lemma_sum_monotone,
    lemma_sum_point_update,
    lemma_sum_single,
    lemma_sum_zero,
    sum_to,
};
use vstd::prelude::*;

verus! {

impl FlowGraph {
    /// Edge `e` leads from inside `side` to outside of it.
    pub open spec fn crosses(self, side: Set<int>, e: int) -> bool {
        side.contains(self.origin(e)) && !side.contains(self.target(e))
    }

    /// The flow on edge `e` if it crosses out of `side`, else zero.
    pub open spec fn cut_flow_term(self, side: Set<int>, e: int) -> int {
        if self.crosses(side, e) {
            self.edges[e].flow as int
        } else {
            0
        }
    }

    /// The capacity of edge `e` if it crosses out of `side`, else zero.
    pub open spec fn cut_capacity_term(self, side: Set<int>, e: int) -> int {
        if self.crosses(side, e) {
            self.edges[e].capacity as int
        } else {
            0
        }
    }

    /// The total flow on the edges that cross out of `side`.
    pub open spec fn cut_flow(self, side: Set<int>) -> int {
        sum_to(|e: int| self.cut_flow_term(side, e), self.edges.len() as int)
    }

    /// The total capacity of the edges that cross out of `side`.
    pub open spec fn cut_capacity(self, side: Set<int>) -> int {
        sum_to(|e: int| self.cut_capacity_term(side, e), self.edges.len() as int)
    }

    /// The net flow out of `v` if `v` lies in `side`, else zero.
    pub open spec fn side_term(self, side: Set<int>, v: int) -> int {
        if side.contains(v) {
            self.net_out(v)
        } else {
            0
        }
    }

    /// The sum of the net flows out of the vertices of `side`.
    pub open spec fn side_net(self, side: Set<int>) -> int {
        sum_to(|v: int| self.side_term(side, v), self.vertices as int)
    }

    /// No edge with residual capacity leads out of `side`.
    pub open spec fn closed_under_residual(self, side: Set<int>) -> bool {
        forall|e: int|
            0 <= e < self.edges.len() && side.contains(self.origin(e)) && #[trigger] self.residual(
                e,
            ) > 0 ==> side.contains(self.target(e))
    }

    /// The flow of edge `e` if it starts in `side`, else zero.
    spec fn leaving_term(self, side: Set<int>, e: int) -> int {
        if side.contains(self.origin(e)) {
            self.edges[e].flow as int
        } else {
            0
        }
    }

    /// The flow of edge `e` if it starts and ends in `side`, else zero.
    spec fn inner_term(self, side: Set<int>, e: int) -> int {
        if side.contains(self.origin(e)) && side.contains(self.target(e)) {
            self.edges[e].flow as int
        } else {
            0
        }
    }

    /// The net flow out of `v` carried by the first `k` edges, counted only
    /// if `v` lies in `side`.
    spec fn partial_side_term(self, side: Set<int>, k: int, v: int) -> int {
        if side.contains(v) {
            sum_to(|e: int| self.out_term(v, e), k)
        } else {
            0
        }
    }

    /// Summing, over the vertices of `side`, the flow that the first `k`
    /// edges send out of each is summing the flow of those of the first `k`
    /// edges that start in `side`.
    proof fn lemma_partial_side_net(self, side: Set<int>, k: int)
        requires
            self.wf(),
            0 <= k <= self.edges.len(),
        ensures
            sum_to(|v: int| self.partial_side_term(side, k, v), self.vertices as int) == sum_to(
                |e: int| self.leaving_term(side, e),
                k,
            ),
        decreases k,
    {
        let n = self.vertices as int;
        if k == 0 {
            lemma_sum_zero(|v: int| self.partial_side_term(side, k, v), n);
        } else {
            self.lemma_partial_side_net(side, k - 1);
            let e = k - 1;
            let o = self.origin(e);
            assert(self.edge_wf(FlowGraph::mate(e)));
            let lower = |v: int| self.partial_side_term(side, k - 1, v);
            let upper = |v: int| self.partial_side_term(side, k, v);
            assert forall|v: int| 0 <= v < n && v != o implies #[trigger] lower(v) == upper(v) by {
                assert(self.out_term(v, e) == 0);
            }
            lemma_sum_point_update(lower, upper, n, o);
            assert(upper(o) - lower(o) == self.leaving_term(side, e));
        }
    }

    /// Over the first `2 * pairs` edges, the flows of the edges that stay
    /// inside `side` cancel pair by pair.
    proof fn lemma_inner_cancels(self, side: Set<int>, pairs: int)
        requires
            self.wf(),
            self.flow_wf(),
            0 <= 2 * pairs <= self.edges.len(),
        ensures
            sum_to(|e: int| self.inner_term(side, e), 2 * pairs) == 0,
        decreases pairs,
    {
        if pairs > 0 {
            self.lemma_inner_cancels(side, pairs - 1);
            let f = |e: int| self.inner_term(side, e);
            let a = 2 * pairs - 2;
            let b = 2 * pairs - 1;
            assert(sum_to(f, 2 * pairs) == sum_to(f, b) + f(b));
            assert(sum_to(f, b) == sum_to(f, a) + f(a));
            assert(self.flow_ok(a));
            assert(FlowGraph::mate(a) == b);
            assert(FlowGraph::mate(b) == a);
        }
    }

    /// The net flows out of the vertices of any side add up to the flow
    /// that crosses out of it.
    pub proof fn lemma_side_net_is_cut_flow(self, side: Set<int>)
        requires
            self.wf(),
            self.flow_wf(),
        ensures
            self.side_net(side) == self.cut_flow(side),
    {
        let n = self.vertices as int;
        let len = self.edges.len() as int;
        self.lemma_partial_side_net(side, len);
        lemma_sum_congruence(
            |v: int| self.partial_side_term(side, len, v),
            |v: int| self.side_term(side, v),
            n,
        );
        self.lemma_inner_cancels(side, len / 2);
        lemma_sum_additive(
            |e: int| self.inner_term(side, e),
            |e: int| self.cut_flow_term(side, e),
            |e: int| self.leaving_term(side, e),
            len,
        );
    }

    /// For a feasible flow, and a side that holds the source and, unless it
    /// is the source itself, not the sink, the flow that crosses out of the
    /// side is the flow that leaves the source.
    pub proof fn lemma_cut_flow_is_value(self, side: Set<int>, source: int, sink: int)
        requires
            self.is_feasible(source, sink),
            0 <= source < self.vertices,
            side.contains(source),
            sink == source || !side.contains(sink),
        ensures
            self.cut_flow(side) == self.net_out(source),
    {
        self.lemma_side_net_is_cut_flow(side);
        let f = |v: int| self.side_term(side, v);
        assert forall|v: int| 0 <= v < self.vertices && v != source implies #[trigger] f(v)
            == 0 by {
            if side.contains(v) {
                assert(self.net_out(v) == 0);
            }
        }
        lemma_sum_single(f, self.vertices as int, source);
    }

    /// The flow that crosses out of a side never exceeds the capacity that
    /// crosses out of it.
    pub proof fn lemma_cut_flow_bounded(self, side: Set<int>)
        requires
            self.flow_wf(),
        ensures
            self.cut_flow(side) <= self.cut_capacity(side),
    {
        assert forall|e: int| 0 <= e < self.edges.len() implies #[trigger] self.cut_flow_term(
            side,
            e,
        ) <= self.cut_capacity_term(side, e) by {
            assert(self.flow_ok(e));
        }
        lemma_sum_monotone(
            |e: int| self.cut_flow_term(side, e),
            |e: int| self.cut_capacity_term(side, e),
            self.edges.len() as int,
        );
    }

    /// Out of a side that no edge with residual capacity leaves, the flow
    /// that crosses is the whole capacity that crosses.
    pub proof fn lemma_closed_side_saturated(self, side: Set<int>)
        requires
            self.flow_wf(),
            self.closed_under_residual(side),
        ensures
            self.cut_flow(side) == self.cut_capacity(side),
    {
        assert forall|e: int| 0 <= e < self.edges.len() implies #[trigger] self.cut_flow_term(
            side,
            e,
        ) == self.cut_capacity_term(side, e) by {
            assert(self.flow_ok(e));
            if self.crosses(side, e) {
                assert(!(self.residual(e) > 0));
            }
        }
        lemma_sum_congruence(
            |e: int| self.cut_flow_term(side, e),
            |e: int| self.cut_capacity_term(side, e),
            self.edges.len() as int,
        );
    }

    /// The same network has the same cut capacities, whatever flow it holds.
    pub proof fn lemma_cut_capacity_of_topology(self, other: FlowGraph, side: Set<int>)
        requires
            self.wf(),
            self.same_topology(other),
        ensures
            self.cut_capacity(side) == other.cut_capacity(side),
    {
        assert forall|e: int| 0 <= e < self.edges.len() implies #[trigger] self.cut_capacity_term(
            side,
            e,
        ) == other.cut_capacity_term(side, e) by {
            assert(self.same_edge(other, e));
            assert(self.same_edge(other, FlowGraph::mate(e)));
        }
        lemma_sum_congruence(
            |e: int| self.cut_capacity_term(side, e),
            |e: int| other.cut_capacity_term(side, e),
            self.edges.len() as int,
        );
    }

    /// Weak duality: the value of a feasible flow is at most the capacity of
    /// any cut that separates the source from the sink.
    pub proof fn lemma_value_bounded_by_cut(self, side: Set<int>, source: int, sink: int)
        requires
            self.is_feasible(source, sink),
            0 <= source < self.vertices,
            side.contains(source),
            sink == source || !side.contains(sink),
        ensures
            self.net_out(source) <= self.cut_capacity(side),
    {
        self.lemma_cut_flow_is_value(side, source, sink);
        self.lemma_cut_flow_bounded(side);
    }

    /// The certificate of maximality: a feasible flow is a maximum flow if
    /// some set of vertices holds the source, does not hold the sink, and is
    /// left by no edge with residual capacity.
    pub proof fn lemma_closed_side_certifies_max(self, side: Set<int>, source: int, sink: int)
        requires
            self.is_feasible(source, sink),
            0 <= source < self.vertices,
            side.contains(source),
            !side.contains(sink),
            self.closed_under_residual(side),
        ensures
            self.is_max_flow(source, sink),
    {
        self.lemma_cut_flow_is_value(side, source, sink);
        self.lemma_closed_side_saturated(side);
        assert forall|other: FlowGraph|
            self.same_topology(other) && #[trigger] other.is_feasible(
                source,
                sink,
            ) implies other.net_out(source) <= self.net_out(source) by {
            other.lemma_value_bounded_by_cut(side, source, sink);
            self.lemma_cut_capacity_of_topology(other, side);
        }
    }

    /// When the source is also the sink, every feasible flow has value zero,
    /// so every feasible flow is a maximum flow.
    pub proof fn lemma_source_is_sink(self, source: int)
        requires
            self.is_feasible(source, source),
            0 <= source < self.vertices,
        ensures
            self.net_out(source) == 0,
            self.is_max_flow(source, source),
    {
        let all = Set::<int>::full();
        self.lemma_cut_flow_is_value(all, source, source);
        lemma_sum_zero(|e: int| self.cut_flow_term(all, e), self.edges.len() as int);
        assert forall|other: FlowGraph|
            self.same_topology(other) && #[trigger] other.is_feasible(
                source,
                source,
            ) implies other.net_out(source) <= self.net_out(source) by {
            other.lemma_cut_flow_is_value(all, source, source);
            lemma_sum_zero(|e: int| other.cut_flow_term(all, e), other.edges.len() as int);
        }
    }

    /// Two maximum flows on the same network between the same two vertices
    /// have the same value.
    pub proof fn lemma_max_flow_value_unique(self, other: FlowGraph, source: int, sink: int)
        requires
            self.same_topology(other),
            self.is_max_flow(source, sink),
            other.is_max_flow(source, sink),
        ensures
            self.net_out(source) == other.net_out(source),
    {
        assert(other.same_topology(self)) by {
            assert forall|e: int| 0 <= e < other.edges.len() implies #[trigger] other.same_edge(
                self,
                e,
            ) by {
                assert(self.same_edge(other, e));
            }
        }
    }

    /// The value of a maximum flow from `source` to `sink` on this network,
    /// whatever flow the network holds at the moment.
    pub open spec fn max_flow_value(self, source: int, sink: int) -> int {
        choose|value: int| self.attains(source, sink, value)
    }

    /// Some maximum flow from `source` to `sink` on this network has the
    /// given value.
    pub open spec fn attains(self, source: int, sink: int, value: int) -> bool {
        exists|flow: FlowGraph|
            self.same_topology(flow) && #[trigger] flow.is_max_flow(source, sink) && flow.net_out(
                source,
            ) == value
    }

    /// The value of any maximum flow on a network is the network's maximum
    /// flow value.
    pub proof fn lemma_max_flow_attains_value(self, flow: FlowGraph, source: int, sink: int)
        requires
            self.same_topology(flow),
            flow.is_max_flow(source, sink),
        ensures
            self.max_flow_value(source, sink) == flow.net_out(source),
    {
        assert(self.attains(source, sink, flow.net_out(source)));
        let value = self.max_flow_value(source, sink);
        assert(self.attains(source, sink, value));
        let other = choose|other: FlowGraph|
            self.same_topology(other) && #[trigger] other.is_max_flow(source, sink)
                && other.net_out(source) == value;
        self.lemma_same_topology_symmetric(flow);
        flow.lemma_same_topology_transitive(self, other);
        flow.lemma_max_flow_value_unique(other, source, sink);
    }

    /// The maximum flow value depends on the network alone, not on the flow
    /// that it happens to hold: two computations on the same network, by
    /// whichever solver and however often repeated, end with the same value.
    pub proof fn lemma_computations_agree(
        self,
        first: FlowGraph,
        second: FlowGraph,
        source: int,
        sink: int,
    )
        requires
            self.same_topology(first),
            self.same_topology(second),
            first.is_max_flow(source, sink),
            second.is_max_flow(source, sink),
        ensures
            first.net_out(source) == second.net_out(source),
            first.net_out(source) == self.max_flow_value(source, sink),
    {
        self.lemma_max_flow_attains_value(first, source, sink);
        self.lemma_max_flow_attains_value(second, source, sink);
    }

    /// The flow on edge `e` if it is a forward edge out of `v`, else zero.
    pub open spec fn outgoing_term(self, v: int, e: int) -> int {
        if e % 2 == 0 && self.origin(e) == v {
            self.edges[e].flow as int
        } else {
            0
        }
    }

    /// The flow on edge `e` if it is a forward edge into `v`, else zero.
    pub open spec fn incoming_term(self, v: int, e: int) -> int {
        if e % 2 == 0 && self.target(e) == v {
            self.edges[e].flow as int
        } else {
            0
        }
    }

    /// The total flow on the arcs that leave `v`.
    pub open spec fn outgoing(self, v: int) -> int {
        sum_to(|e: int| self.outgoing_term(v, e), self.edges.len() as int)
    }

    /// The total flow on the arcs that enter `v`.
    pub open spec fn incoming(self, v: int) -> int {
        sum_to(|e: int| self.incoming_term(v, e), self.edges.len() as int)
    }

    /// Over the first `2 * pairs` edges, what leaves `v` on forward and
    /// reverse edges together is what leaves it on arcs minus what enters it
    /// on arcs.
    proof fn lemma_net_out_by_pairs(self, v: int, pairs: int)
        requires
            self.wf(),
            self.flow_wf(),
            0 <= 2 * pairs <= self.edges.len(),
        ensures
            sum_to(|e: int| self.out_term(v, e), 2 * pairs) == sum_to(
                |e: int| self.outgoing_term(v, e),
                2 * pairs,
            ) - sum_to(|e: int| self.incoming_term(v, e), 2 * pairs),
        decreases pairs,
    {
        if pairs > 0 {
            self.lemma_net_out_by_pairs(v, pairs - 1);
            let a = 2 * pairs - 2;
            let b = 2 * pairs - 1;
            let net = |e: int| self.out_term(v, e);
            let out = |e: int| self.outgoing_term(v, e);
            let inn = |e: int| self.incoming_term(v, e);
            assert(sum_to(net, 2 * pairs) == sum_to(net, b) + net(b));
            assert(sum_to(net, b) == sum_to(net, a) + net(a));
            assert(sum_to(out, 2 * pairs) == sum_to(out, b) + out(b));
            assert(sum_to(out, b) == sum_to(out, a) + out(a));
            assert(sum_to(inn, 2 * pairs) == sum_to(inn, b) + inn(b));
            assert(sum_to(inn, b) == sum_to(inn, a) + inn(a));
            assert(self.flow_ok(a));
            assert(FlowGraph::mate(a) == b);
            assert(FlowGraph::mate(b) == a);
        }
    }

    /// The net flow out of a vertex is the flow on the arcs that leave it
    /// minus the flow on the arcs that enter it.
    pub proof fn lemma_net_out_is_out_minus_in(self, v: int)
        requires
            self.wf(),
            self.flow_wf(),
        ensures
            self.net_out(v) == self.outgoing(v) - self.incoming(v),
    {
        self.lemma_net_out_by_pairs(v, self.edges.len() as int / 2);
    }

    /// Flow conservation: under a feasible flow, at every vertex other than
    /// the source and the sink, as much flows in as flows out.
    pub proof fn lemma_flow_conservation(self, source: int, sink: int, v: int)
        requires
            self.is_feasible(source, sink),
            0 <= v < self.vertices,
            v != source,
            v != sink,
        ensures
            self.incoming(v) == self.outgoing(v),
    {
        self.lemma_net_out_is_out_minus_in(v);
    }

    /// The capacity bound: under a well-formed flow every arc carries at
    /// least nothing and at most its capacity, and its reverse edge carries
    /// the negation of that.
    pub proof fn lemma_capacity_bound(self, e: int)
        requires
            self.wf(),
            self.flow_wf(),
            0 <= e < self.edges.len(),
            e % 2 == 0,
        ensures
            0 <= self.edges[e].flow <= self.edges[e].capacity,
            -self.edges[e].capacity <= self.edges[e + 1].flow <= 0,
    {
        assert(self.flow_ok(e));
        assert(self.flow_ok(e + 1));
        assert(self.edge_wf(e + 1));
    }

    /// Skew symmetry: under a well-formed flow the two edges of every pair
    /// carry opposite flows.
    pub proof fn lemma_skew_symmetry(self, e: int)
        requires
            self.flow_wf(),
            0 <= e < self.edges.len(),
        ensures
            self.edges[e].flow == -self.edges[Self::mate(e)].flow,
    {
        assert(self.flow_ok(e));
    }
}

} // verus!
