//! Maximum flow from a source to a sink of a capacitated network, by two
//! solvers that share the [`ResidualNetwork`]: Edmonds-Karp, which augments
//! along shortest paths found breadth first, and Dinic, which saturates one
//! level graph after another.
//!
//! Both are proved to leave a maximum flow on the network and to return its
//! value: the flow is feasible, and the vertices that the last search
//! reached form a cut that the flow saturates.

pub use crate::graphs::dinic::DinicMaxFlow;
pub use crate::graphs::edmonds_karp::EdmondsKarpMaxFlow;
pub use crate::graphs::residual_network::{Edge, FlowError, FlowGraph, ResidualNetwork};
use vstd::prelude::*;

verus! {

/// A flow network that arcs with an `i32` capacity can be inserted into.
pub trait AddEdge {
    /// The network is in a state in which arcs can be inserted.
    spec fn ready(&self) -> bool;

    /// The network with the flow it holds.
    spec fn graph(&self) -> FlowGraph;

    /// Inserts an arc from `from` to `to` of the given capacity, as a forward
    /// edge and a reverse edge of capacity zero, neither carrying flow. An
    /// index that is not a vertex is refused and leaves the network as it
    /// was.
    fn add_edge(&mut self, from: usize, to: usize, capacity: i32) -> (added: Result<
        (),
        FlowError,
    >)
        requires
            old(self).ready(),
            capacity >= 0,
        ensures
            final(self).ready(),
            final(self).graph().vertices == old(self).graph().vertices,
            from < old(self).graph().vertices && to < old(self).graph().vertices ==> {
                &&& added is Ok
                &&& final(self).graph().edges == old(self).graph().edges.push(
                    Edge { to, capacity: capacity as i64, flow: 0 },
                ).push(Edge { to: from, capacity: 0, flow: 0 })
            },
            !(from < old(self).graph().vertices && to < old(self).graph().vertices) ==> {
                &&& added == Err::<(), FlowError>(FlowError::OutOfBounds)
                &&& final(self).graph() == old(self).graph()
            },
    ;
}

impl AddEdge for EdmondsKarpMaxFlow {
    open spec fn ready(&self) -> bool {
        self.wf()
    }

    open spec fn graph(&self) -> FlowGraph {
        self@
    }

    fn add_edge(&mut self, from: usize, to: usize, capacity: i32) -> (added: Result<
        (),
        FlowError,
    >) {
        EdmondsKarpMaxFlow::add_edge(self, from, to, capacity as i64)
    }
}

impl AddEdge for DinicMaxFlow {
    open spec fn ready(&self) -> bool {
        self.wf()
    }

    open spec fn graph(&self) -> FlowGraph {
        self@
    }

    fn add_edge(&mut self, from: usize, to: usize, capacity: i32) -> (added: Result<
        (),
        FlowError,
    >) {
        DinicMaxFlow::add_edge(self, from, to, capacity as i64)
    }
}

} // verus!
