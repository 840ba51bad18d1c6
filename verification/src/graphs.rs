//! Graph algorithms.

pub mod articulation_point;
pub mod bellman_ford;
pub mod cycle_check;
pub mod dinic;
pub mod edmonds_karp;
pub mod graph_matching;
pub mod hungarian_max_matching;
pub mod kuhn;
pub mod level_graph;
pub mod maximum_flow;
pub mod min_cut;
pub mod min_spanning_tree;
pub mod prim;
pub mod reachability;
pub mod residual_network;
pub mod search;
pub mod separation;
pub mod spanning;
pub mod strongly_connected_components;
pub mod tarjans;
pub mod topological_sort;
