use cp_rust::graphs::articulation_point::ArticulationPointAndBridge;

#[test]
fn test_articulation_point_and_bridge() {
    let al = vec![vec![1, 2], vec![0, 2], vec![0, 1, 3], vec![2, 4], vec![3]];
    let mut apb = ArticulationPointAndBridge::new();
    let res = apb.articulation_point_and_bridge(&al);

    assert_eq!(res, vec![2, 3]);
}

#[test]
fn cycle_has_no_articulation_point() {
    let al = vec![vec![1, 3], vec![0, 2], vec![1, 3], vec![2, 0]];
    let mut apb = ArticulationPointAndBridge::new();
    assert_eq!(apb.articulation_point_and_bridge(&al), Vec::<usize>::new());
}

#[test]
fn middle_of_a_path_is_an_articulation_point() {
    let al = vec![vec![1], vec![0, 2], vec![1]];
    let mut apb = ArticulationPointAndBridge::new();
    assert_eq!(apb.articulation_point_and_bridge(&al), vec![1]);
}

#[test]
fn centre_of_a_star_is_an_articulation_point() {
    let al = vec![vec![1, 2, 3], vec![0], vec![0], vec![0]];
    let mut apb = ArticulationPointAndBridge::new();
    assert_eq!(apb.articulation_point_and_bridge(&al), vec![0]);
}

#[test]
fn search_can_be_used_again() {
    let mut apb = ArticulationPointAndBridge::new();
    let first = vec![vec![1], vec![0, 2], vec![1]];
    assert_eq!(apb.articulation_point_and_bridge(&first), vec![1]);
    let second = vec![vec![1, 2], vec![0, 2], vec![0, 1]];
    assert_eq!(apb.articulation_point_and_bridge(&second), Vec::<usize>::new());
    let third = vec![vec![1], vec![0], vec![3], vec![2, 4], vec![3]];
    assert_eq!(apb.articulation_point_and_bridge(&third), vec![3]);
}

#[test]
fn graph_without_vertices_has_no_articulation_point() {
    let al: Vec<Vec<usize>> = Vec::new();
    let mut apb = ArticulationPointAndBridge::new();
    assert_eq!(apb.articulation_point_and_bridge(&al), Vec::<usize>::new());
}

#[test]
fn doubled_edge_to_the_parent_is_taken_as_one() {
    let al = vec![vec![1, 1], vec![0, 0, 2], vec![1]];
    let mut apb = ArticulationPointAndBridge::new();
    assert_eq!(apb.articulation_point_and_bridge(&al), vec![1]);
}
