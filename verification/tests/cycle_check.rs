use cp_rust::graphs::cycle_check::{cycle_check, CycleCheckResult};

#[test]
fn test_cycle_check() {
    let al = vec![vec![1], vec![2], vec![3], vec![1, 4], vec![]];
    let res = cycle_check(&al);

    assert_eq!(res, CycleCheckResult::BackEdge);

    let al = vec![vec![1], vec![2, 3], vec![3], vec![4], vec![]];
    let res = cycle_check(&al);

    assert_eq!(res, CycleCheckResult::CrossEdge);

    let al = vec![vec![1], vec![2], vec![3], vec![4], vec![]];
    let res = cycle_check(&al);

    assert_eq!(res, CycleCheckResult::NoCycle);
}

#[test]
fn empty_graph_has_no_cycle() {
    let al: Vec<Vec<usize>> = Vec::new();
    assert_eq!(cycle_check(&al), CycleCheckResult::NoCycle);
}

#[test]
fn loop_at_a_vertex_is_a_back_edge() {
    let al = vec![vec![0]];
    assert_eq!(cycle_check(&al), CycleCheckResult::BackEdge);
}

#[test]
fn edge_into_an_earlier_tree_is_a_cross_edge() {
    let al = vec![vec![], vec![0]];
    assert_eq!(cycle_check(&al), CycleCheckResult::CrossEdge);
}

#[test]
fn cross_edge_found_first_hides_a_later_cycle() {
    let al = vec![vec![1, 2], vec![], vec![1, 3], vec![2]];
    assert_eq!(cycle_check(&al), CycleCheckResult::CrossEdge);
}

#[test]
fn two_vertices_pointing_at_each_other_make_a_back_edge() {
    let al = vec![vec![1], vec![0]];
    assert_eq!(cycle_check(&al), CycleCheckResult::BackEdge);
}

#[test]
fn out_tree_has_no_cycle() {
    let al = vec![vec![1, 2], vec![3, 4], vec![5], vec![], vec![], vec![]];
    assert_eq!(cycle_check(&al), CycleCheckResult::NoCycle);
}
