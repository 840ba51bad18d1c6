use cp_rust::graphs::hungarian_max_matching::hungarian_alg;

fn cost_of(a: &[Vec<i32>], ans: &[i32]) -> i64 {
    let mut total: i64 = 0;
    for row in 1..ans.len() {
        total += a[row - 1][ans[row] as usize - 1] as i64;
    }
    total
}

fn least_cost(a: &[Vec<i32>], row: usize, taken: &mut Vec<bool>) -> i64 {
    if row == a.len() {
        return 0;
    }
    let mut best = i64::MAX;
    for col in 0..taken.len() {
        if !taken[col] {
            taken[col] = true;
            let rest = least_cost(a, row + 1, taken);
            taken[col] = false;
            if rest != i64::MAX && rest + (a[row][col] as i64) < best {
                best = rest + a[row][col] as i64;
            }
        }
    }
    best
}

#[test]
fn test_hangurian_alg() {
    let a: Vec<Vec<i32>> = [
        [108, 125, 150].to_vec(),
        [150, 135, 175].to_vec(),
        [122, 148, 250].to_vec(),
    ]
    .to_vec();
    let res = hungarian_alg(a, 3, 3);
    println!("{:?}", res);
    assert_eq!(res, vec![0, 3, 2, 1]);
}

#[test]
fn cheapest_assignment_costs_the_sum_of_its_places() {
    let a: Vec<Vec<i32>> = vec![vec![108, 125, 150], vec![150, 135, 175], vec![122, 148, 250]];
    let res = hungarian_alg(a.clone(), 3, 3);
    assert_eq!(cost_of(&a, &res), 150 + 135 + 122);
}

#[test]
fn single_row_takes_its_cheapest_column() {
    let res = hungarian_alg(vec![vec![7, 3, 9]], 1, 3);
    assert_eq!(res[1], 2);
    assert_eq!(res[0], 3);
}

#[test]
fn empty_table_has_an_empty_assignment() {
    let res = hungarian_alg(Vec::new(), 0, 0);
    assert_eq!(res, vec![0]);
}

#[test]
fn no_rows_leave_every_column_free() {
    let res = hungarian_alg(Vec::new(), 0, 4);
    assert_eq!(res, vec![4]);
}

#[test]
fn negative_costs_are_assigned_too() {
    let a: Vec<Vec<i32>> = vec![vec![-5, 4], vec![2, -6]];
    let res = hungarian_alg(a, 2, 2);
    assert_eq!(res, vec![0, 1, 2]);
}

#[test]
fn rows_compete_for_one_cheap_column() {
    let a: Vec<Vec<i32>> = vec![vec![1, 10, 10], vec![1, 2, 10], vec![1, 10, 3]];
    let res = hungarian_alg(a, 3, 3);
    assert_eq!(res, vec![0, 1, 2, 3]);
}

#[test]
fn more_columns_than_rows_leave_the_dear_ones_free() {
    let a: Vec<Vec<i32>> = vec![vec![9, 1, 9, 9], vec![9, 9, 9, 2]];
    let res = hungarian_alg(a, 2, 4);
    assert_eq!(res[1], 2);
    assert_eq!(res[2], 4);
    assert_eq!(res[0], 3);
}

#[test]
fn answer_is_as_cheap_as_exhaustive_search() {
    let mut seed: u64 = 12345;
    for round in 0..40 {
        let n = 1 + round % 4;
        let m = n + round % 3;
        let mut a: Vec<Vec<i32>> = Vec::new();
        for _ in 0..n {
            let mut row = Vec::new();
            for _ in 0..m {
                seed = seed.wrapping_mul(6364136223846793005).wrapping_add(1442695040888963407);
                row.push(((seed >> 33) % 201) as i32 - 100);
            }
            a.push(row);
        }
        let res = hungarian_alg(a.clone(), n, m);
        assert_eq!(res.len(), n + 1);
        let mut seen = vec![false; m];
        for row in 1..=n {
            let col = res[row] as usize;
            assert!(1 <= col && col <= m);
            assert!(!seen[col - 1]);
            seen[col - 1] = true;
        }
        let mut taken = vec![false; m];
        assert_eq!(cost_of(&a, &res), least_cost(&a, 0, &mut taken));
    }
}
