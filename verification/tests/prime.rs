use competitive::prime::{factor, num_of_divisors, primes, sieve, sum_of_divisors};

#[test]
fn sieve_test() {
    let p = sieve(10);
    assert_eq!(
        &[false, false, true, true, false, true, false, true, false, false],
        &p[..]
    );
}

#[test]
fn primes_test() {
    assert_eq!(primes(20), &[2, 3, 5, 7, 11, 13, 17, 19]);
}

#[test]
fn factor_test() {
    assert_eq!(factor(1), &[]);
    assert_eq!(factor(2), &[(2, 1)]);
    assert_eq!(factor(4), &[(2, 2)]);
    assert_eq!(factor(8), &[(2, 3)]);
    assert_eq!(factor(6), &[(2, 1), (3, 1)]);
    assert_eq!(factor(57), &[(3, 1), (19, 1)]);
    assert_eq!(factor(60), &[(2, 2), (3, 1), (5, 1)]);
}

#[test]
fn num_of_divisors_test() {
    assert_eq!(num_of_divisors(&factor(1)), 1);
    assert_eq!(num_of_divisors(&factor(2)), 2);
    assert_eq!(num_of_divisors(&factor(4)), 3);
    assert_eq!(num_of_divisors(&factor(8)), 4);
    assert_eq!(num_of_divisors(&factor(6)), 4);
    assert_eq!(num_of_divisors(&factor(57)), 4);
    assert_eq!(num_of_divisors(&factor(60)), 12);
}

#[test]
fn sum_of_divisors_test() {
    assert_eq!(sum_of_divisors(&factor(1)), 1);
    assert_eq!(sum_of_divisors(&factor(2)), 3);
    assert_eq!(sum_of_divisors(&factor(4)), 7);
    assert_eq!(sum_of_divisors(&factor(8)), 15);
    assert_eq!(sum_of_divisors(&factor(6)), 12);
    assert_eq!(sum_of_divisors(&factor(60)), 168);
}

#[test]
fn factor_large_prime_leftover() {
    // a product of two primes beyond the trial bound on one side
    assert_eq!(factor(2 * 997), &[(2, 1), (997, 1)]);
    assert_eq!(factor(997), &[(997, 1)]);
}

#[test]
fn divisors_values() {
    let mut d = competitive::prime::divisors(60);
    d.sort();
    assert_eq!(d, vec![1, 2, 3, 4, 5, 6, 10, 12, 15, 20, 30, 60]);
    assert_eq!(competitive::prime::divisors(1), vec![1]);
    let mut d = competitive::prime::divisors(19);
    d.sort();
    assert_eq!(d, vec![1, 19]);
}
