use cp_rust::algebra::gcd::{ext_euclid, gcd, quotient};
use cp_rust::algebra::lcm::lcm;

#[test]
fn gcd_test_gcd() {
    let result = gcd(8, 12);
    assert_eq!(result, 4);
}

#[test]
fn test_gcd_negative() {
    let result = gcd(-8, 12);
    assert_eq!(result, 4);
}

#[test]
fn test_gcd_zero() {
    let result = gcd(0, 12);
    assert_eq!(result, 12);
}

#[test]
fn test_gcd_zero_both() {
    let result = gcd(0, 0);
    assert_eq!(result, 0);
}

#[test]
fn test_gcd_negative_both() {
    let result = gcd(-8, -12);
    assert_eq!(result, -4);
}

#[test]
fn test_gcd_large() {
    let result = gcd(1_000_000_000, 1_000_000_000);
    assert_eq!(result, 1_000_000_000);
}

#[test]
fn gcd_sign_follows_the_truncating_remainder() {
    assert_eq!(gcd(8, -12), -4);
    assert_eq!(gcd(12, 0), 12);
    assert_eq!(gcd(-12, 0), -12);
    assert_eq!(gcd(i64::MIN, 2), 2);
    assert_eq!(gcd(17, 5), 1);
}

#[test]
fn quotient_truncates_towards_zero() {
    assert_eq!(quotient(7, 2), 3);
    assert_eq!(quotient(-7, 2), -3);
    assert_eq!(quotient(7, -2), -3);
    assert_eq!(quotient(-7, -2), 3);
    assert_eq!(quotient(i64::MIN, 1), i64::MIN);
    assert_eq!(quotient(i64::MIN, i64::MIN), 1);
}

#[test]
fn lcm_of_small_numbers() {
    assert_eq!(lcm(4, 6), 12);
    assert_eq!(lcm(21, 6), 42);
    assert_eq!(lcm(-4, 6), -12);
    assert_eq!(lcm(0, 5), 0);
    assert_eq!(lcm(7, 7), 7);
}

#[test]
fn test_gcd() {
    let result = gcd(8, 12);
    assert_eq!(result, 4);
}

#[test]
fn test_ext_euclid() {
    let result = ext_euclid(25, 18);
    assert_eq!(result, (1, -5, 7));
}

#[test]
fn test_ext_euclid_negative() {
    let result = ext_euclid(-25, 18);
    assert_eq!(result, (1, 5, 7));
}

#[test]
fn test_ext_euclid_zero() {
    let result = ext_euclid(0, 18);
    assert_eq!(result, (18, 0, 1));
}

#[test]
fn test_ext_euclid_zero_both() {
    let result = ext_euclid(0, 0);
    assert_eq!(result, (0, 1, 0));
}

#[test]
fn test_ext_euclid_negative_both() {
    let result = ext_euclid(-25, -18);
    assert_eq!(result, (-1, -5, 7));
}

#[test]
fn ext_euclid_satisfies_bezout() {
    let cases: [(i64, i64); 8] = [
        (240, 46),
        (46, 240),
        (-240, 46),
        (17, 0),
        (1, 1),
        (i64::MAX, 2),
        (i64::MAX, i64::MAX - 1),
        (-i64::MAX, i64::MAX - 2),
    ];
    for (a, b) in cases {
        let (g, x, y) = ext_euclid(a, b);
        assert_eq!(g, gcd(a, b));
        assert_eq!((a as i128) * (x as i128) + (b as i128) * (y as i128), g as i128);
    }
}
