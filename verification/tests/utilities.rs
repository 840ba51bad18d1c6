use cp_rust::binary_exponentiation::{bipow, bipow_rec};
use cp_rust::utils::bitmasks::{
    ctz, enumerate_subsets, is_on, is_power_of_two, lsone, modulo, popcount, toggle, turn_off,
    turn_on,
};

#[test]
fn bipow_rec_ignores_the_base() {
    assert_eq!(bipow_rec(3, 0), 1);
    assert_eq!(bipow_rec(3, 1), 2);
    assert_eq!(bipow_rec(3, 5), 32);
    assert_eq!(bipow_rec(-7, 10), 1024);
    assert_eq!(bipow_rec(0, 62), 1i64 << 62);
    assert_eq!(bipow_rec(5, -1), 1);
    assert_eq!(bipow_rec(5, -9), 1);
}

#[test]
fn lsone_is_the_lowest_set_bit() {
    assert_eq!(lsone(0), 0);
    assert_eq!(lsone(1), 1);
    assert_eq!(lsone(12), 4);
    assert_eq!(lsone(-12), 4);
    assert_eq!(lsone(i32::MAX), 1);
    assert_eq!(lsone(i32::MIN + 1), 1);
    assert_eq!(lsone(1 << 30), 1 << 30);
}

#[test]
fn enumerate_subsets_lists_submasks_downwards() {
    assert_eq!(enumerate_subsets(0), Vec::<i32>::new());
    assert_eq!(enumerate_subsets(-5), Vec::<i32>::new());
    assert_eq!(enumerate_subsets(1), vec![1]);
    assert_eq!(enumerate_subsets(5), vec![5, 4, 1]);
    assert_eq!(enumerate_subsets(7), vec![7, 6, 5, 4, 3, 2, 1]);
    assert_eq!(enumerate_subsets(10), vec![10, 8, 2]);
}

#[test]
fn popcount_counts_ones_of_positive_numbers() {
    assert_eq!(popcount(0), 0);
    assert_eq!(popcount(-1), 0);
    assert_eq!(popcount(1), 1);
    assert_eq!(popcount(7), 3);
    assert_eq!(popcount(8), 1);
    assert_eq!(popcount(i32::MAX), 31);
    assert_eq!(popcount(0b1011_0010), 4);
}

#[test]
fn is_on_tests_one_bit() {
    assert!(is_on(5, 0));
    assert!(!is_on(5, 1));
    assert!(is_on(5, 2));
    assert!(!is_on(0, 7));
    assert!(is_on(1 << 30, 30));
    assert!(!is_on(-1, 31));
}

#[test]
fn ctz_counts_trailing_zeros() {
    assert_eq!(ctz(1), 0);
    assert_eq!(ctz(8), 3);
    assert_eq!(ctz(12), 2);
    assert_eq!(ctz(-8), 3);
    assert_eq!(ctz(i32::MIN), 31);
    assert_eq!(ctz(-1), 0);
}

#[test]
fn single_bit_updates() {
    assert_eq!(turn_on(0, 3), 8);
    assert_eq!(turn_on(8, 3), 8);
    assert_eq!(turn_on(0, 31), i32::MIN);
    assert_eq!(turn_off(15, 0), 14);
    assert_eq!(turn_off(14, 0), 14);
    assert_eq!(turn_off(-1, 31), i32::MAX);
    assert_eq!(toggle(5, 1), 7);
    assert_eq!(toggle(7, 1), 5);
}

#[test]
fn modulo_keeps_the_low_bits() {
    assert_eq!(modulo(13, 2), 1);
    assert_eq!(modulo(13, 3), 5);
    assert_eq!(modulo(13, 0), 0);
    assert_eq!(modulo(-1, 4), 15);
    assert_eq!(modulo(i32::MAX, 30), (1 << 30) - 1);
}

#[test]
fn is_power_of_two_accepts_zero_and_single_bits() {
    assert!(is_power_of_two(0));
    assert!(is_power_of_two(1));
    assert!(is_power_of_two(64));
    assert!(!is_power_of_two(6));
    assert!(!is_power_of_two(-4));
    assert!(is_power_of_two(1 << 30));
}

#[test]
fn bipow_raises_to_a_power() {
    assert_eq!(bipow(2, 10), 1024);
    assert_eq!(bipow(3, 0), 1);
    assert_eq!(bipow(3, 1), 3);
    assert_eq!(bipow(-3, 3), -27);
    assert_eq!(bipow(-2, 4), 16);
    assert_eq!(bipow(7, -2), 1);
    assert_eq!(bipow(0, 5), 0);
    assert_eq!(bipow(0, 0), 1);
    assert_eq!(bipow(3, 19), 1_162_261_467);
    assert_eq!(bipow(2, 31), 1i64 << 31);
    assert_eq!(bipow(1, i64::MAX), 1);
    assert_eq!(bipow(-1, i64::MAX), -1);
}
