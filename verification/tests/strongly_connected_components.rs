use cp_rust::graphs::strongly_connected_components::Kosarajus;

#[test]
fn test_kosarajus() {
    let al = vec![vec![1], vec![2], vec![0], vec![4], vec![3]];
    let mut kosarajus = Kosarajus::new();
    let res = kosarajus.kosarajus(al.as_slice()).unwrap();
    assert_eq!(2, res.len());

    let al = vec![
        vec![1],
        vec![3],
        vec![1],
        vec![2, 4],
        vec![5],
        vec![7],
        vec![4],
        vec![6],
    ];

    let res = kosarajus.kosarajus(al.as_slice()).unwrap();
    assert_eq!(res.len(), 3);
}

fn as_sets(mut components: Vec<Vec<usize>>) -> Vec<Vec<usize>> {
    for c in components.iter_mut() {
        c.sort();
    }
    components.sort();
    components
}

#[test]
fn components_are_the_classes_of_mutual_reachability() {
    let al = vec![
        vec![1],
        vec![3],
        vec![1],
        vec![2, 4],
        vec![5],
        vec![7],
        vec![4],
        vec![6],
    ];
    let mut kosarajus = Kosarajus::new();
    let res = kosarajus.kosarajus(al.as_slice()).unwrap();
    assert_eq!(as_sets(res), vec![vec![0], vec![1, 2, 3], vec![4, 5, 6, 7]]);
}

#[test]
fn components_come_in_the_order_of_the_search() {
    let al = vec![vec![1], vec![2], vec![0], vec![4], vec![3]];
    let mut kosarajus = Kosarajus::new();
    let res = kosarajus.kosarajus(al.as_slice()).unwrap();
    assert_eq!(res, vec![vec![4, 3], vec![1, 2, 0]]);
}

#[test]
fn loops_isolated_vertices_and_the_empty_graph() {
    let mut kosarajus = Kosarajus::new();
    let al: Vec<Vec<usize>> = vec![vec![0], vec![], vec![1, 1]];
    let res = kosarajus.kosarajus(al.as_slice()).unwrap();
    assert_eq!(as_sets(res), vec![vec![0], vec![1], vec![2]]);
    let none: Vec<Vec<usize>> = Vec::new();
    assert_eq!(kosarajus.kosarajus(none.as_slice()).unwrap(), Vec::<Vec<usize>>::new());
}

#[test]
fn tarjans_groups_are_taken_off_the_stack_in_turn() {
    let al = vec![vec![1], vec![2], vec![0], vec![4], vec![3]];
    let mut tarjans = cp_rust::graphs::strongly_connected_components::Tarjans::new();
    let res = tarjans.tarjans(al.as_slice()).unwrap();
    assert_eq!(res, vec![vec![2, 1], vec![0], vec![4, 3]]);
}

#[test]
fn tarjans_leaves_a_vertex_on_the_stack_in_no_group() {
    let al = vec![vec![], vec![0]];
    let mut tarjans = cp_rust::graphs::tarjans::Tarjans::new();
    let res = tarjans.tarjans(al.as_slice()).unwrap();
    assert_eq!(res, vec![vec![0]]);
}

#[test]
fn tarjans_on_a_graph_without_edges_groups_every_vertex_alone() {
    let al: Vec<Vec<usize>> = vec![vec![], vec![], vec![]];
    let mut tarjans = cp_rust::graphs::tarjans::Tarjans::new();
    let res = tarjans.tarjans(al.as_slice()).unwrap();
    assert_eq!(res, vec![vec![0], vec![1], vec![2]]);
}

#[test]
fn tarjans_can_be_used_again() {
    let mut tarjans = cp_rust::graphs::tarjans::Tarjans::new();
    let first = vec![vec![1], vec![0]];
    assert_eq!(tarjans.tarjans(first.as_slice()).unwrap(), vec![vec![1, 0]]);
    let empty: Vec<Vec<usize>> = Vec::new();
    assert_eq!(tarjans.tarjans(empty.as_slice()).unwrap(), Vec::<Vec<usize>>::new());
}
