use cp_rust::graphs::bellman_ford::{bellman_ford, ShortestPathError};

fn table(vertices: usize, edges: &[(usize, usize, i64)]) -> Vec<Vec<Option<i64>>> {
    let mut graph = vec![vec![None; vertices]; vertices];
    for &(u, v, w) in edges {
        graph[u][v] = Some(w);
    }
    graph
}

#[test]
#[should_panic]
fn bellman_ford_test_bellman_ford() {
    let graph = vec![
        vec![None, Some(5), None, None, None, None],
        vec![None, None, Some(1), Some(2), None, None],
        vec![None, None, None, None, Some(1), None],
        vec![None, None, None, None, None, Some(2)],
        vec![None, None, None, Some(-1), None, None],
        vec![None, None, None, None, Some(-3), None],
    ];
    let _ = bellman_ford(graph, 0, 6).unwrap();
}

#[test]
#[should_panic]
fn test_bellman_ford_test_bellman_ford() {
    let graph = vec![
        vec![None, Some(5), None, None, None, None],
        vec![None, None, Some(1), Some(2), None, None],
        vec![None, None, None, None, Some(1), None],
        vec![None, None, None, None, None, Some(2)],
        vec![None, None, None, Some(-1), None, None],
        vec![None, None, None, None, Some(-3), None],
    ];
    let _ = bellman_ford(graph, 0, 6).unwrap();
}

#[test]
fn negative_cycle_is_reported() {
    let graph = table(3, &[(0, 1, 1), (1, 2, -2), (2, 1, 1)]);
    assert_eq!(bellman_ford(graph, 0, 3), Err(ShortestPathError::NegativeCycle));
    assert_eq!(
        ShortestPathError::NegativeCycle.message(),
        "Graph contains negative weight cycle"
    );
}

#[test]
fn distances_take_the_lighter_detour() {
    let graph = table(4, &[(0, 1, 1), (1, 2, 2), (0, 2, 5), (2, 3, 1)]);
    assert_eq!(bellman_ford(graph, 0, 4), Ok(vec![0, 1, 3, 4]));
}

#[test]
fn negative_edge_without_a_cycle_shortens_the_way() {
    let graph = table(3, &[(0, 1, 4), (0, 2, 5), (2, 1, -3)]);
    assert_eq!(bellman_ford(graph, 0, 3), Ok(vec![0, 2, 5]));
}

#[test]
fn vertex_out_of_reach_keeps_the_largest_value() {
    let graph = table(4, &[(0, 1, 7), (3, 2, 1)]);
    assert_eq!(bellman_ford(graph, 0, 4), Ok(vec![0, 7, i64::MAX, i64::MAX]));
}

#[test]
fn entries_on_the_diagonal_are_no_edges() {
    let graph = table(3, &[(0, 0, -5), (0, 1, 2), (1, 1, -1), (1, 2, 2)]);
    assert_eq!(bellman_ford(graph, 0, 3), Ok(vec![0, 2, 4]));
}

#[test]
fn single_vertex_is_at_distance_zero() {
    assert_eq!(bellman_ford(table(1, &[]), 0, 1), Ok(vec![0]));
}

#[test]
fn two_vertices_are_never_relaxed() {
    let graph = table(2, &[(0, 1, 5)]);
    assert_eq!(bellman_ford(graph, 0, 2), Ok(vec![0, i64::MAX]));
}

#[test]
fn search_gives_up_where_the_rounds_do_not_suffice() {
    let graph = table(3, &[(2, 1, 1), (1, 0, 1)]);
    assert_eq!(bellman_ford(graph, 2, 3), Err(ShortestPathError::NegativeCycle));
}

#[test]
fn chain_against_the_order_of_the_rows_is_followed() {
    let graph = table(5, &[(0, 4, 1), (4, 3, 1), (3, 2, 1), (2, 1, 1)]);
    assert_eq!(bellman_ford(graph, 0, 5), Ok(vec![0, 4, 3, 2, 1]));
}
