use cp_rust::graphs::graph_matching::{is_bipartite, kuhn_algorithm, MatchingError};

#[test]
fn test_graph_matching_should_succeed() {
    let al: Vec<Vec<usize>> = vec![
        vec![3, 4, 5],
        vec![3, 4, 5],
        vec![3, 4, 5],
        vec![0, 1, 2],
        vec![0, 1, 2],
        vec![0, 1, 2],
    ];

    let res = is_bipartite(&al.iter().collect()).unwrap();
    assert_eq!(res, true);
}

#[test]
fn test_graph_matching_should_not_succeed() {
    let al: Vec<Vec<usize>> = vec![
        vec![1, 4, 5],
        vec![3, 4, 5],
        vec![3, 4, 5],
        vec![0, 1, 2],
        vec![0, 1, 2],
        vec![0, 1, 2],
    ];

    let res = is_bipartite(&al.iter().collect()).unwrap();
    assert_eq!(res, false);
}

#[test]
fn odd_cycles_and_loops_are_refused() {
    let triangle: Vec<Vec<usize>> = vec![vec![1], vec![2], vec![0]];
    assert_eq!(is_bipartite(&triangle.iter().collect()), Ok(false));
    let square: Vec<Vec<usize>> = vec![vec![1], vec![2], vec![3], vec![0]];
    assert_eq!(is_bipartite(&square.iter().collect()), Ok(true));
    let with_loop: Vec<Vec<usize>> = vec![vec![1], vec![1]];
    assert_eq!(is_bipartite(&with_loop.iter().collect()), Ok(false));
    let single: Vec<Vec<usize>> = vec![vec![]];
    assert_eq!(is_bipartite(&single.iter().collect()), Ok(true));
}

#[test]
fn only_the_part_reached_from_zero_counts() {
    // The triangle 1, 2, 3 cannot be reached from vertex 0.
    let al: Vec<Vec<usize>> = vec![vec![4], vec![2], vec![3], vec![1], vec![0]];
    assert_eq!(is_bipartite(&al.iter().collect()), Ok(true));
    // Now it can.
    let al: Vec<Vec<usize>> = vec![vec![4, 1], vec![2], vec![3], vec![1], vec![0]];
    assert_eq!(is_bipartite(&al.iter().collect()), Ok(false));
}

#[test]
fn test_kuhn_algorithm_min_example() {
    let al: Vec<Vec<usize>> = vec![vec![2, 3], vec![2], vec![0, 1], vec![0]];

    let u = vec![0, 1];
    let v = vec![2, 3];

    let res = kuhn_algorithm(&al.iter().collect(), u, v).unwrap();

    let vertex2_matching = res.get(&2);
    let vertex3_matching = res.get(&3);

    assert_eq!(vertex2_matching, Some(&1));
    assert_eq!(vertex3_matching, Some(&0));
}

#[test]
fn test_kuhn_algorithm() {
    let al: Vec<Vec<usize>> = vec![
        vec![3, 4, 5],
        vec![3, 4, 5],
        vec![3, 4, 5],
        vec![0, 1, 2],
        vec![0, 1, 2],
        vec![0, 1, 2],
    ];

    let u = vec![0, 1, 2];
    let v = vec![3, 4, 5];

    let res = kuhn_algorithm(&al.iter().collect(), u, v);

    println!("{:?}", res);
}

#[test]
fn test_kuhn_algorithm2() {
    let al: Vec<Vec<usize>> = vec![
        vec![4, 5, 6],
        vec![4],
        vec![6, 7],
        vec![5],
        vec![0, 1],
        vec![0, 3],
        vec![0, 2],
        vec![2],
    ];

    let u = vec![0, 1, 2, 3];
    let v = vec![4, 5, 6, 7];

    let res = kuhn_algorithm(&al.iter().collect(), u, v).unwrap();

    let vertex4_matching = res.get(&4);
    let vertex5_matching = res.get(&5);
    let vertex6_matching = res.get(&6);
    let vertex7_matching = res.get(&7);

    assert_eq!(vertex4_matching, Some(&1));
    assert_eq!(vertex5_matching, Some(&3));
    assert_eq!(vertex6_matching, Some(&0));
    assert_eq!(vertex7_matching, Some(&2));

    println!("{:?}", res);
}

#[test]
fn complete_sides_are_matched_in_turn() {
    let al: Vec<Vec<usize>> = vec![
        vec![3, 4, 5],
        vec![3, 4, 5],
        vec![3, 4, 5],
        vec![0, 1, 2],
        vec![0, 1, 2],
        vec![0, 1, 2],
    ];
    let res = kuhn_algorithm(&al.iter().collect(), vec![0, 1, 2], vec![3, 4, 5]).unwrap();
    assert_eq!(res.len(), 3);
    assert_eq!(res.get(&3), Some(&2));
    assert_eq!(res.get(&4), Some(&1));
    assert_eq!(res.get(&5), Some(&0));
}

#[test]
fn sides_of_the_wrong_size_are_refused() {
    let al: Vec<Vec<usize>> = vec![vec![1], vec![0], vec![]];
    let res = kuhn_algorithm(&al.iter().collect(), vec![0], vec![1]);
    assert_eq!(res.err(), Some(MatchingError::SizeMismatch));
}

#[test]
fn right_vertex_without_a_suitor_stays_free() {
    let al: Vec<Vec<usize>> = vec![vec![2], vec![2], vec![0, 1], vec![]];
    let res = kuhn_algorithm(&al.iter().collect(), vec![0, 1], vec![2, 3]).unwrap();
    assert_eq!(res.get(&2), Some(&0));
    assert_eq!(res.get(&3), Some(&-1));
    assert_eq!(res.get(&0), None);
}

#[test]
fn empty_graph_has_an_empty_matching() {
    let al: Vec<Vec<usize>> = Vec::new();
    let res = kuhn_algorithm(&al.iter().collect(), Vec::new(), Vec::new()).unwrap();
    assert!(res.is_empty());
}
