use cp_rust::data_structures::sparse_table::{
    floor_log2, get_sparse_table, SparseTable, SparseTableType,
};

#[test]
fn sparse_table_test_sparse_table_sum() {
    let nums = vec![1, 2, 3, 4, 5, 6, 7, 8];
    let st = SparseTable::new(nums, SparseTableType::SUM);
    let res = st.sum_query(0, 7);
    println!("Sum query result: {}", res);
    assert_eq!(res, 36);
}

#[test]
fn sparse_table_test_sparse_table_min() {
    let nums = vec![1, 2, 3, 4, 5, 6, 7, 8];
    let st = SparseTable::new(nums, SparseTableType::MIN);
    let res = st.min_query(4, 7);
    println!("Min query result: {}", res);
    assert_eq!(res, 5);
}

#[test]
fn sparse_table_test_sparse_table_max() {
    let nums = vec![1, 2, 20, 4, 5, 6, 7, 8];
    let st = SparseTable::new(nums, SparseTableType::MAX);
    let res = st.max_query(0, 7);
    println!("Max query result: {}", res);
    assert_eq!(res, 20);
}

#[test]
fn test_sparse_table_test_sparse_table_sum() {
    let nums = vec![1, 2, 3, 4, 5, 6, 7, 8];
    let st = get_sparse_table(nums, SparseTableType::SUM);
    let res = st.sum_query(0, 7);
    println!("Sum query result: {}", res);
    assert_eq!(res, 36);
}

#[test]
fn test_sparse_table_test_sparse_table_min() {
    let nums = vec![1, 2, 3, 4, 5, 6, 7, 8];
    let st = get_sparse_table(nums, SparseTableType::MIN);
    let res = st.min_query(4, 7);
    println!("Min query result: {}", res);
    assert_eq!(res, 5);
}

#[test]
fn test_sparse_table_test_sparse_table_max() {
    let nums = vec![1, 2, 20, 4, 5, 6, 7, 8];
    let st = get_sparse_table(nums, SparseTableType::MAX);
    let res = st.max_query(0, 7);
    println!("Max query result: {}", res);
    assert_eq!(res, 20);
}

#[test]
fn floor_log2_is_the_highest_bit() {
    assert_eq!(floor_log2(0), 0);
    assert_eq!(floor_log2(1), 0);
    assert_eq!(floor_log2(2), 1);
    assert_eq!(floor_log2(3), 1);
    assert_eq!(floor_log2(4), 2);
    assert_eq!(floor_log2(1023), 9);
    assert_eq!(floor_log2(1024), 10);
    assert_eq!(floor_log2(usize::MAX), usize::BITS as usize - 1);
}

#[test]
fn every_range_is_answered() {
    let nums: Vec<i32> = vec![5, -3, 8, 8, -7, 0, 12, 4, -1, 9, 2];
    let sums = SparseTable::new(nums.clone(), SparseTableType::SUM);
    let mins = SparseTable::new(nums.clone(), SparseTableType::MIN);
    let maxs = SparseTable::new(nums.clone(), SparseTableType::MAX);
    for l in 0..nums.len() {
        for r in l..nums.len() {
            let window = &nums[l..=r];
            assert_eq!(sums.sum_query(l, r), window.iter().sum::<i32>());
            assert_eq!(mins.min_query(l, r), *window.iter().min().unwrap());
            assert_eq!(maxs.max_query(l, r), *window.iter().max().unwrap());
        }
    }
    assert_eq!(sums.sum_query(3, 2), 0);
}

#[test]
fn tables_over_nothing_and_one_number() {
    let empty = SparseTable::new(Vec::new(), SparseTableType::MIN);
    assert_eq!(empty.k, 0);
    assert_eq!(empty.st.len(), 1);
    let one = SparseTable::new(vec![7], SparseTableType::SUM);
    assert_eq!(one.sum_query(0, 0), 7);
    assert_eq!(one.min_query(0, 0), 7);
    assert_eq!(one.max_query(0, 0), 7);
}
