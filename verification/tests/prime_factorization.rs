use cp_library::math::prime_factorization::prime_factorize;

fn trial_division(mut n: u64) -> Vec<(u64, u32)> {
    let mut result = Vec::new();
    let mut divisor = 2;
    while divisor * divisor <= n {
        let mut exponent = 0;
        while n % divisor == 0 {
            n /= divisor;
            exponent += 1;
        }
        if exponent > 0 {
            result.push((divisor, exponent));
        }
        divisor += 1;
    }
    if n > 1 {
        result.push((n, 1));
    }
    result
}

#[test]
fn factorizes_basic_values() {
    assert_eq!(prime_factorize(1), vec![]);
    assert_eq!(prime_factorize(2), vec![(2, 1)]);
    assert_eq!(prime_factorize(360), vec![(2, 3), (3, 2), (5, 1)]);
    assert_eq!(prime_factorize(3u64.pow(40)), vec![(3, 40)]);
}

#[test]
fn factorizes_large_prime() {
    assert_eq!(
        prime_factorize(18_446_744_073_709_551_557),
        vec![(18_446_744_073_709_551_557, 1)]
    );
}

#[test]
fn factorizes_large_semiprime() {
    let smaller_prime = 4_294_967_279u64;
    let larger_prime = 4_294_967_291u64;
    let n = smaller_prime * larger_prime;
    assert_eq!(
        prime_factorize(n),
        vec![(smaller_prime, 1), (larger_prime, 1)]
    );
}

#[test]
fn factorizes_largest_u64() {
    assert_eq!(
        prime_factorize(u64::MAX),
        vec![
            (3, 1),
            (5, 1),
            (17, 1),
            (257, 1),
            (641, 1),
            (65_537, 1),
            (6_700_417, 1),
        ]
    );
}

#[test]
fn matches_trial_division_for_small_values() {
    for n in 1..10_000 {
        assert_eq!(prime_factorize(n), trial_division(n), "n = {n}");
    }
}

#[test]
fn factorizes_powers_of_two_and_small_prime_products() {
    assert_eq!(prime_factorize(1u64 << 63), vec![(2, 63)]);
    assert_eq!(
        prime_factorize(2 * 3 * 5 * 7 * 11 * 13 * 17 * 19 * 23 * 29 * 31 * 37),
        vec![
            (2, 1),
            (3, 1),
            (5, 1),
            (7, 1),
            (11, 1),
            (13, 1),
            (17, 1),
            (19, 1),
            (23, 1),
            (29, 1),
            (31, 1),
            (37, 1),
        ]
    );
}

#[test]
fn factorizes_strong_pseudoprime_to_base_two() {
    // 3215031751 = 151 * 751 * 28351 passes the base-2 strong test alone.
    assert_eq!(
        prime_factorize(3_215_031_751),
        vec![(151, 1), (751, 1), (28_351, 1)]
    );
    // A square of a large prime.
    let p = 4_294_967_291u64;
    assert_eq!(prime_factorize(p * p), vec![(p, 2)]);
}

#[test]
fn factorizes_square_of_large_prime() {
    let p = 4_294_967_291u64;
    assert_eq!(prime_factorize(p * p), vec![(p, 2)]);
}
