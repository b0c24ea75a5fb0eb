use cp_library::math::prime_enumeration::enumerate_primes;

#[test]
fn enumerates_primes_up_to_upper_bound() {
    assert_eq!(
        enumerate_primes(30),
        vec![2, 3, 5, 7, 11, 13, 17, 19, 23, 29]
    );
}

#[test]
fn handles_small_upper_bounds() {
    assert_eq!(enumerate_primes(0), vec![]);
    assert_eq!(enumerate_primes(1), vec![]);
    assert_eq!(enumerate_primes(2), vec![2]);
}

#[test]
fn excludes_composite_upper_bound() {
    assert_eq!(enumerate_primes(49).last(), Some(&47));
}

#[test]
fn enumerate_primes_documented_examples() {
    assert_eq!(enumerate_primes(10), vec![2, 3, 5, 7]);
    assert!(enumerate_primes(1).is_empty());
}

#[test]
fn counts_primes_below_ten_thousand() {
    let primes = enumerate_primes(10_000);
    assert_eq!(primes.len(), 1229);
    assert_eq!(primes.last(), Some(&9973));
    assert!(enumerate_primes(3).contains(&3));
    assert_eq!(enumerate_primes(4), vec![2, 3]);
}
