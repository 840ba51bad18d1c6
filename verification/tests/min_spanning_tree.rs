use cp_rust::graphs::min_spanning_tree::{Kruskal, SpanningTreeError};

#[test]
fn star_of_light_edges_spans_the_complete_graph() {
    let mut kruskal = Kruskal::new(5);

    kruskal.add_edge(0, 1, 1).unwrap();
    kruskal.add_edge(0, 2, 2).unwrap();
    kruskal.add_edge(0, 3, 3).unwrap();
    kruskal.add_edge(0, 4, 4).unwrap();
    kruskal.add_edge(1, 2, 5).unwrap();
    kruskal.add_edge(1, 3, 6).unwrap();
    kruskal.add_edge(1, 4, 7).unwrap();
    kruskal.add_edge(2, 3, 8).unwrap();
    kruskal.add_edge(2, 4, 9).unwrap();
    kruskal.add_edge(3, 4, 10).unwrap();

    let (cost, mst) = kruskal.min_spanning_tree().unwrap();

    assert_eq!(cost, 10);
    assert_eq!(mst.len(), 4);
    assert_eq!(ends(&mst), vec![(0, 1, 1), (0, 2, 2), (0, 3, 3), (0, 4, 4)]);
}

fn ends(mst: &[cp_rust::graphs::min_spanning_tree::Edge]) -> Vec<(usize, usize, i32)> {
    mst.iter().map(|e| (e.from, e.to, e.weight)).collect()
}

#[test]
fn edges_are_taken_in_order_of_weight() {
    let mut kruskal = Kruskal::new(4);
    kruskal.add_edge(0, 1, 9).unwrap();
    kruskal.add_edge(1, 2, 3).unwrap();
    kruskal.add_edge(2, 3, 5).unwrap();
    kruskal.add_edge(0, 3, 1).unwrap();
    kruskal.add_edge(0, 2, 4).unwrap();
    let (cost, mst) = kruskal.min_spanning_tree().unwrap();
    assert_eq!(cost, 8);
    assert_eq!(ends(&mst), vec![(0, 3, 1), (1, 2, 3), (0, 2, 4)]);
}

#[test]
fn equal_weights_keep_their_order() {
    let mut kruskal = Kruskal::new(3);
    kruskal.add_edge(0, 1, 2).unwrap();
    kruskal.add_edge(1, 2, 2).unwrap();
    kruskal.add_edge(0, 2, 2).unwrap();
    kruskal.add_edge(2, 1, 1).unwrap();
    let (cost, mst) = kruskal.min_spanning_tree().unwrap();
    assert_eq!(cost, 3);
    assert_eq!(ends(&mst), vec![(2, 1, 1), (0, 1, 2)]);
}

#[test]
fn forests_loops_and_empty_graphs() {
    let mut kruskal = Kruskal::new(5);
    kruskal.add_edge(0, 1, 4).unwrap();
    kruskal.add_edge(3, 4, -2).unwrap();
    kruskal.add_edge(1, 1, -9).unwrap();
    kruskal.add_edge(1, 0, 6).unwrap();
    let (cost, mst) = kruskal.min_spanning_tree().unwrap();
    assert_eq!(cost, 2);
    assert_eq!(ends(&mst), vec![(3, 4, -2), (0, 1, 4)]);

    let empty = Kruskal::new(0);
    let (cost, mst) = empty.min_spanning_tree().unwrap();
    assert_eq!(cost, 0);
    assert!(mst.is_empty());
}

#[test]
fn invalid_nodes_are_refused() {
    let mut kruskal = Kruskal::new(2);
    assert_eq!(kruskal.add_edge(0, 2, 1), Err(SpanningTreeError::InvalidNode));
    assert_eq!(kruskal.add_edge(2, 0, 1), Err(SpanningTreeError::InvalidNode));
    assert_eq!(SpanningTreeError::InvalidNode.message(), "Invalid node index");
    let (cost, mst) = kruskal.min_spanning_tree().unwrap();
    assert_eq!(cost, 0);
    assert!(mst.is_empty());
}

#[test]
fn prim_grows_the_tree_by_the_heaviest_edge_that_leaves_it() {
    let mut prim = cp_rust::graphs::min_spanning_tree::Prim::new(5);
    prim.add_edge(0, 1, 1).unwrap();
    prim.add_edge(0, 2, 2).unwrap();
    prim.add_edge(0, 3, 3).unwrap();
    prim.add_edge(0, 4, 4).unwrap();
    prim.add_edge(1, 2, 5).unwrap();
    prim.add_edge(1, 3, 6).unwrap();
    prim.add_edge(1, 4, 7).unwrap();
    prim.add_edge(2, 3, 8).unwrap();
    prim.add_edge(2, 4, 9).unwrap();
    prim.add_edge(3, 4, 10).unwrap();
    let (cost, mst) = prim.min_spanning_tree().unwrap();
    assert_eq!(cost, 30);
    assert_eq!(ends(&mst), vec![(0, 4, 4), (4, 3, 10), (4, 2, 9), (4, 1, 7)]);
}

#[test]
fn prim_takes_the_greater_vertex_among_equal_weights() {
    let mut prim = cp_rust::graphs::prim::Prim::new(3);
    prim.add_edge(0, 1, 5).unwrap();
    prim.add_edge(0, 2, 5).unwrap();
    let (cost, mst) = prim.min_spanning_tree().unwrap();
    assert_eq!(cost, 10);
    assert_eq!(ends(&mst), vec![(0, 2, 5), (0, 1, 5)]);
}

#[test]
fn prim_on_a_single_vertex_finds_no_edge() {
    let prim = cp_rust::graphs::prim::Prim::new(1);
    let (cost, mst) = prim.min_spanning_tree().unwrap();
    assert_eq!(cost, 0);
    assert!(mst.is_empty());
}

#[test]
fn prim_spans_only_what_vertex_zero_reaches() {
    let mut prim = cp_rust::graphs::prim::Prim::new(5);
    prim.add_edge(0, 1, -2).unwrap();
    prim.add_edge(1, 2, 3).unwrap();
    prim.add_edge(3, 4, 50).unwrap();
    let (cost, mst) = prim.min_spanning_tree().unwrap();
    assert_eq!(cost, 1);
    assert_eq!(ends(&mst), vec![(0, 1, -2), (1, 2, 3)]);
}

#[test]
fn prim_refuses_an_edge_to_a_missing_vertex() {
    let mut prim = cp_rust::graphs::prim::Prim::new(2);
    assert_eq!(prim.add_edge(0, 2, 1), Err(SpanningTreeError::InvalidNode));
    assert_eq!(prim.add_edge(2, 0, 1), Err(SpanningTreeError::InvalidNode));
    let (cost, mst) = prim.min_spanning_tree().unwrap();
    assert_eq!(cost, 0);
    assert!(mst.is_empty());
}

#[test]
fn prim_ignores_a_loop_and_the_lighter_of_two_parallel_edges() {
    let mut prim = cp_rust::graphs::prim::Prim::new(2);
    prim.add_edge(0, 0, 9).unwrap();
    prim.add_edge(0, 1, 2).unwrap();
    prim.add_edge(0, 1, 6).unwrap();
    let (cost, mst) = prim.min_spanning_tree().unwrap();
    assert_eq!(cost, 6);
    assert_eq!(ends(&mst), vec![(0, 1, 6)]);
}
