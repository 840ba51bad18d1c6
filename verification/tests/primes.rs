use cp_rust::algebra::prime::{euler_phi, is_prime, prime_factors, sieve};
use std::time::Instant;

#[test]
fn test_euler_phi() {
    let res = euler_phi(10);
    assert_eq!(res, 4);

    let res = euler_phi(12);
    assert_eq!(res, 4);

    let res = euler_phi(13);
    assert_eq!(res, 12);

    let res = euler_phi(14);
    assert_eq!(res, 6);

    let res = euler_phi(15);
    assert_eq!(res, 8);

    let res = euler_phi(16);
    assert_eq!(res, 8);

    let res = euler_phi(17);
    assert_eq!(res, 16);

    let res = euler_phi(18);
    assert_eq!(res, 6);

    let res = euler_phi(19);
    assert_eq!(res, 18);

    let res = euler_phi(20);
    assert_eq!(res, 8);

    let res = euler_phi(36);
    assert_eq!(res, 12);
}

#[test]
fn test_prime_factors() {
    let res = prime_factors(210);
    assert_eq!(res, vec![2, 3, 5, 7]);

    let res = prime_factors(315);
    assert_eq!(res, vec![3, 3, 5, 7]);

    let res = prime_factors(100);
    assert_eq!(res, vec![2, 2, 5, 5]);

    let res = prime_factors(1);
    assert_eq!(res, vec![]);

    let res = prime_factors(2);
    assert_eq!(res, vec![2]);

    let res = prime_factors(3);
    assert_eq!(res, vec![3]);

    let res = prime_factors(4);
    assert_eq!(res, vec![2, 2]);
}

#[test]
fn test_sieve_number_of_primes() {
    let start = Instant::now();
    let result = sieve(i32::pow(10, 7) as usize);
    let duration = start.elapsed();
    println!("duration: {:?}", duration);
    assert_eq!(result.len(), 664579);
}

#[test]
fn test_sieve_lower_than_two() {
    let result = sieve(1);
    assert_eq!(result.len(), 0);
}

#[test]
fn test_sieve_for_two() {
    let result = sieve(2);
    assert_eq!(result.len(), 1);
}

#[test]
fn test_sieve_for_three() {
    let result = sieve(3);
    assert_eq!(result.len(), 2);
}

#[test]
fn sieve_lists_small_primes() {
    assert_eq!(sieve(0), Vec::<u64>::new());
    assert_eq!(sieve(10), vec![2, 3, 5, 7]);
    assert_eq!(sieve(30), vec![2, 3, 5, 7, 11, 13, 17, 19, 23, 29]);
    assert_eq!(sieve(13), vec![2, 3, 5, 7, 11, 13]);
}

#[test]
fn sieve_closes_with_an_odd_limit() {
    // Composites are marked below the limit only, so an odd limit is listed
    // whether it is prime or not.
    assert_eq!(sieve(9), vec![2, 3, 5, 7, 9]);
    assert_eq!(sieve(15), vec![2, 3, 5, 7, 11, 13, 15]);
    assert_eq!(sieve(25), vec![2, 3, 5, 7, 11, 13, 17, 19, 23, 25]);
    assert_eq!(sieve(26), vec![2, 3, 5, 7, 11, 13, 17, 19, 23]);
}

#[test]
fn is_prime_by_trial_division() {
    let primes: Vec<u64> = (0..60).filter(|&n| is_prime(n)).collect();
    assert_eq!(primes, vec![2, 3, 5, 7, 11, 13, 17, 19, 23, 29, 31, 37, 41, 43, 47, 53, 59]);
    assert!(is_prime(1_000_000_007));
    assert!(!is_prime(1_000_000_007 * 3));
    assert!(!is_prime(4_294_967_291 * 4_294_967_291));
    assert!(is_prime(4_294_967_291));
}

#[test]
fn prime_factors_edge_cases() {
    assert_eq!(prime_factors(0), vec![0]);
    assert_eq!(prime_factors(97), vec![97]);
    assert_eq!(prime_factors(1024), vec![2; 10]);
    assert_eq!(prime_factors(2 * 3 * 3 * 11 * 101), vec![2, 3, 3, 11, 101]);
    assert_eq!(prime_factors(49), vec![7, 7]);
}

#[test]
fn euler_phi_counts_coprime_residues() {
    fn gcd(a: u64, b: u64) -> u64 {
        if b == 0 {
            a
        } else {
            gcd(b, a % b)
        }
    }
    for n in 1..200u64 {
        let expected = (1..=n).filter(|&k| gcd(k, n) == 1).count() as u64;
        assert_eq!(euler_phi(n), expected);
    }
}
