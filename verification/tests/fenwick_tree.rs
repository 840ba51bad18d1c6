use cp_rust::data_structures::fenwick_tree::{
    FenwickTree, FenwickTree2D, FenwictTree2D, MinFenwickTree,
};
use rand::{thread_rng, Rng};
use std::cmp::min;

#[test]
fn fenwick_tree_test_fenwick_tree() {
    let n = 1000;
    let mut rng = thread_rng();
    let mut nums: Vec<i64> = vec![0; n];

    let mut fenwick_tree = FenwickTree::new(n, 0);
    let mut sum = 0;

    for i in 0..n {
        nums[i] = rng.gen_range(0..1000);
        fenwick_tree.add(i, nums[i]);

        sum += nums[i];
        assert_eq!(fenwick_tree.sum(i as i64), sum);
    }
}

#[test]
fn test_fenwick_tree_ranges() {
    let n = 1000;
    let mut rng = thread_rng();
    let mut prefix_sum: Vec<i64> = vec![0; n];

    let mut fenwick_tree = FenwickTree::new(n, 0);

    for i in 1..n {
        let val = rng.gen_range(0..1000);
        prefix_sum[i] = prefix_sum[i - 1] + val;
        fenwick_tree.add(i, val);
    }

    for _ in 0..1000 {
        let v1 = rng.gen_range(1..n);
        let v2 = rng.gen_range(1..n);

        let l = v1.min(v2);
        let r = v1.max(v2);

        let sum = fenwick_tree.range_sum(l as i64, r as i64);
        let expected = prefix_sum[r] - prefix_sum[l - 1];

        assert_eq!(sum, expected);
    }
}

#[test]
fn test_min_fenwick_tree() {
    let n = 1000;
    let mut rng = thread_rng();
    let mut nums: Vec<i64> = vec![0; n];

    let mut min_fenwick_tree = MinFenwickTree::new(n);

    for i in 0..n {
        nums[i] = rng.gen_range(0..1000);
        min_fenwick_tree.update(i, nums[i]);
    }

    let mut min_val = i64::MAX;
    for i in 0..n {
        min_val = min(nums[i], min_val);
        assert_eq!(min_fenwick_tree.get_min(i as i32), min_val);
    }
}

#[test]
fn test_fenwick_tree_2_d() {
    let n = 100;
    let m = 100;
    let mut rng = thread_rng();
    let mut matrix: Vec<Vec<i64>> = vec![vec![0; n]; m];

    let mut fenwick_tree_2d = FenwickTree2D::new(n, m);

    for i in 0..m {
        for j in 0..n {
            matrix[i][j] = rng.gen_range(0..10);
            fenwick_tree_2d.add(j, i, matrix[i][j]);
        }
    }

    for i in 0..m {
        for j in 0..n {
            let sum = fenwick_tree_2d.sum(i as i32, j as i32);
            let expected = matrix[0..=i]
                .iter()
                .map(|row| row[0..=j].iter().sum::<i64>())
                .sum::<i64>();

            assert_eq!(sum, expected);
        }
    }
}

#[test]
fn test_fenwick_tree_2_d_ranges() {
    let n = 5;
    let m = 5;
    let mut rng = thread_rng();
    let mut matrix: Vec<Vec<i64>> = vec![vec![0; n]; m];

    let mut fenwick_tree_2d = FenwickTree2D::new(n, m);

    for i in 0..m {
        for j in 0..n {
            matrix[i][j] = rng.gen_range(0..10);
            fenwick_tree_2d.add(j, i, matrix[i][j]);
        }
    }

    for _ in 0..1000 {
        let xx1 = rng.gen_range(0..n);
        let yy1 = rng.gen_range(0..m);
        let xx2 = rng.gen_range(0..n);
        let yy2 = rng.gen_range(0..m);

        let x1 = xx1.min(xx2);
        let y1 = yy1.min(yy2);
        let x2 = xx1.max(xx2);
        let y2 = yy1.max(yy2);

        let sum = fenwick_tree_2d.range_sum(y1 as i32, x1 as i32, y2 as i32, x2 as i32);
        let expected = matrix[y1..=y2]
            .iter()
            .map(|row| row[x1..=x2].iter().sum::<i64>())
            .sum::<i64>();
        assert_eq!(sum, expected);
    }
}

#[test]
fn fenwick_tree_exact_values() {
    let mut tree = FenwickTree::new(6, 0);
    for (i, v) in [5i64, -3, 8, 0, 7, -2].iter().enumerate() {
        tree.add(i, *v);
    }
    assert_eq!(tree.sum(-1), 0);
    assert_eq!(tree.sum(-7), 0);
    assert_eq!(tree.sum(0), 5);
    assert_eq!(tree.sum(2), 10);
    assert_eq!(tree.sum(5), 15);
    assert_eq!(tree.range_sum(1, 4), 12);
    assert_eq!(tree.range_sum(3, 3), 0);
    assert_eq!(tree.range_sum(3, 2), 0);
    tree.add(9, 100);
    assert_eq!(tree.sum(5), 15);
    tree.add(1, 3);
    assert_eq!(tree.range_sum(0, 1), 5);
}

#[test]
fn fenwick_tree_with_a_default() {
    // Every node starts as 2: sum(r) adds up the nodes on the way down.
    let tree = FenwickTree::new(4, 2);
    assert_eq!(tree.sum(0), 2);
    assert_eq!(tree.sum(1), 2);
    assert_eq!(tree.sum(2), 4);
    assert_eq!(tree.sum(3), 2);
}

#[test]
fn min_fenwick_tree_exact_values() {
    let mut tree = MinFenwickTree::new(5);
    assert_eq!(tree.get_min(4), i64::MAX);
    assert_eq!(tree.get_min(-1), i64::MAX);
    tree.update(3, 7);
    assert_eq!(tree.get_min(2), i64::MAX);
    assert_eq!(tree.get_min(3), 7);
    tree.update(1, 9);
    tree.update(3, 8);
    assert_eq!(tree.get_min(1), 9);
    assert_eq!(tree.get_min(4), 7);
    tree.update(0, -4);
    assert_eq!(tree.get_min(0), -4);
    assert_eq!(tree.get_min(4), -4);
    tree.update(11, -100);
    assert_eq!(tree.get_min(4), -4);
}

#[test]
fn fenwick_tree_2d_exact_values() {
    let mut tree = FenwickTree2D::new(3, 2);
    tree.add(0, 0, 1);
    tree.add(1, 0, 2);
    tree.add(2, 0, 3);
    tree.add(0, 1, 10);
    tree.add(2, 1, -30);
    assert_eq!(tree.sum(0, 2), 6);
    assert_eq!(tree.sum(1, 0), 11);
    assert_eq!(tree.sum(1, 2), -14);
    assert_eq!(tree.sum(-1, 2), 0);
    assert_eq!(tree.sum(1, -1), 0);
    assert_eq!(tree.range_sum(1, 1, 1, 2), -30);
    assert_eq!(tree.range_sum(0, 1, 1, 1), 2);
    tree.add(3, 0, 99);
    tree.add(0, 2, 99);
    assert_eq!(tree.sum(1, 2), -14);
}

#[test]
fn row_wise_table_keeps_rows_apart() {
    let mut table = FenwictTree2D::new(3, 2);
    table.add(0, 0, 1);
    table.add(2, 0, 3);
    table.add(1, 1, 10);
    assert_eq!(table.sum(0, 2), 4);
    assert_eq!(table.sum(0, 1), 1);
    assert_eq!(table.sum(1, 2), 10);
    assert_eq!(table.sum(1, 0), 0);
    assert_eq!(table.sum(-1, 2), 0);
    assert_eq!(table.range_sum(1, 1, 1, 2), 9);
    assert_eq!(table.range_sum(0, 0, 1, 2), 10);
    table.add(5, 0, 7);
    table.add(0, 5, 7);
    assert_eq!(table.sum(0, 2), 4);
}
