use cp_rust::graphs::topological_sort::{dfs, topological_sort};

#[test]
fn topological_sort_test_topological_sort() {
    let graph = vec![vec![], vec![], vec![3], vec![1], vec![0, 1], vec![2, 0]];
    let res = topological_sort(graph).unwrap();

    println!("{:?}", res);

    assert_eq!(res, vec![5, 4, 2, 3, 1, 0]);
}

#[test]
fn test_topological_sort_test_topological_sort() {
    let graph = vec![vec![], vec![], vec![3], vec![1], vec![0, 1], vec![2, 0]];
    let res = topological_sort(graph).unwrap();

    println!("{:?}", res);

    assert_eq!(res, vec![5, 4, 2, 3, 1, 0]);
}

fn position(order: &[i32], v: i32) -> usize {
    order.iter().position(|&x| x == v).unwrap()
}

#[test]
fn every_edge_of_a_dag_points_forward() {
    let graph: Vec<Vec<i32>> = vec![
        vec![1, 2],
        vec![3],
        vec![3, 4],
        vec![5],
        vec![5],
        vec![],
        vec![0, 4],
        vec![],
    ];
    let order = topological_sort(graph.clone()).unwrap();
    let mut seen = order.clone();
    seen.sort();
    assert_eq!(seen, (0..8).collect::<Vec<i32>>());
    for (u, targets) in graph.iter().enumerate() {
        for &v in targets {
            assert!(position(&order, u as i32) < position(&order, v));
        }
    }
}

#[test]
fn cycles_and_loops_are_sorted_too() {
    let graph: Vec<Vec<i32>> = vec![vec![1], vec![2], vec![0, 3], vec![3], vec![]];
    let order = topological_sort(graph).unwrap();
    assert_eq!(order, vec![4, 0, 1, 2, 3]);
    assert_eq!(topological_sort(Vec::new()).unwrap(), Vec::<i32>::new());
}

#[test]
fn dfs_pushes_in_postorder() {
    let graph: Vec<Vec<i32>> = vec![vec![1, 2], vec![2], vec![], vec![0]];
    let mut visited = vec![false; 4];
    let mut stack: Vec<i32> = Vec::new();
    dfs(&graph, 0, &mut visited, &mut stack);
    assert_eq!(stack, vec![2, 1, 0]);
    assert_eq!(visited, vec![true, true, true, false]);
    dfs(&graph, 3, &mut visited, &mut stack);
    assert_eq!(stack, vec![2, 1, 0, 3]);
}
