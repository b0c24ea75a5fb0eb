use cp_library::math::combinations::Combination;

const MOD: u64 = 1_000_000_007;

#[test]
fn test_combination() {
    let comb = Combination::new(100, MOD);

    assert_eq!(comb.n_c_r(5, 2), 10);
    assert_eq!(comb.n_c_r(5, 0), 1);
    assert_eq!(comb.n_c_r(5, 5), 1);
    assert_eq!(comb.n_c_r(5, 6), 0);

    assert_eq!(comb.n_p_r(5, 2), 20);
    assert_eq!(comb.n_p_r(5, 0), 1);
    assert_eq!(comb.n_p_r(5, 5), 120);

    assert_eq!(comb.n_h_r(3, 2), 6);
    assert_eq!(comb.n_h_r(0, 0), 1);
}

#[test]
fn factorial_tables_are_inverse_modulo_a_prime() {
    let comb = Combination::new(50, MOD);
    assert_eq!(comb.fact(0), 1);
    assert_eq!(comb.fact(10), 3_628_800);
    for n in 0..=50 {
        assert_eq!(comb.fact(n) * comb.inv_fact(n) % MOD, 1);
    }
    assert_eq!(comb.n_h_r(0, 3), 0);
    assert_eq!(comb.n_c_r(50, 25), 605_552_882);
    assert_eq!(comb.n_p_r(3, 4), 0);
}

#[test]
fn small_prime_modulus() {
    let comb = Combination::new(6, 7);
    assert_eq!(comb.n_c_r(6, 3), 20 % 7);
    assert_eq!(comb.fact(6), 720 % 7);
    assert_eq!(comb.inv_fact(6) * comb.fact(6) % 7, 1);
}
