use cp_library::math::numeric::{gcd, lcm, GCD};

#[test]
fn test_gcd_u64() {
    assert_eq!(gcd(12u64, 18), 6);
    assert_eq!(gcd(18u64, 12), 6);
    assert_eq!(gcd(17u64, 13), 1);
    assert_eq!(gcd(12u64, 0), 12);
    assert_eq!(gcd(0u64, 12), 12);
    assert_eq!(gcd(0u64, 0), 0);
}

#[test]
fn test_lcm_u64() {
    assert_eq!(lcm(12u64, 18), 36);
    assert_eq!(lcm(3u64, 4), 12);
    assert_eq!(lcm(0u64, 5), 0);
    assert_eq!(lcm(5u64, 0), 0);
}

#[test]
fn test_gcd_u128() {
    let a: u128 = 12345678901234567890;
    let b: u128 = 98765432109876543210;
    let g = gcd(a, b);
    assert!(a % g == 0);
    assert!(b % g == 0);
}

#[test]
fn test_gcd_usize() {
    assert_eq!(gcd(100usize, 25), 25);
}

#[test]
fn test_gcd_signed() {
    assert_eq!(gcd(12i32, 18), 6);
    assert_eq!(gcd(-12i32, 18), 6);
}

#[test]
fn gcd_of_signed_values_is_nonnegative() {
    assert_eq!(gcd(12i64, -18), 6);
    assert_eq!(gcd(-12i8, -18), 6);
    assert_eq!(gcd(i8::MIN, 2), 2);
    assert_eq!(gcd(i8::MIN, -1), 1);
    assert_eq!(gcd(-1i64, i64::MIN), 1);
    assert_eq!(gcd(i16::MIN, 24), 8);
}

#[test]
fn gcd_that_does_not_fit_gives_least_value() {
    assert_eq!(gcd(i8::MIN, 0), i8::MIN);
    assert_eq!(gcd(0i16, i16::MIN), i16::MIN);
    assert_eq!(gcd(i128::MIN, i128::MIN), i128::MIN);
}

#[test]
fn gcd_methods_on_every_width() {
    assert_eq!(48u8.gcd(36), 12);
    assert_eq!(48u16.gcd(36), 12);
    assert_eq!(48u32.gcd(36), 12);
    assert_eq!(48i16.gcd(36), 12);
    assert_eq!(48isize.gcd(36), 12);
    assert_eq!(u128::MAX.gcd(u128::MAX - 1), 1);
    assert_eq!(4u8.lcm(6), 12);
    assert_eq!(4u16.lcm(6), 12);
    assert_eq!(4u32.lcm(6), 12);
    assert_eq!(4usize.lcm(6), 12);
    assert_eq!(4u128.lcm(6), 12);
}

#[test]
fn lcm_on_signed_values() {
    assert_eq!(lcm(-4i32, 6), 12);
    assert_eq!(lcm(4i64, -6), 12);
    assert_eq!(lcm(0i8, 0), 0);
    assert_eq!(lcm(-5i8, 0), 0);
    assert_eq!(lcm(16i8, 8), 16);
    assert_eq!(lcm(i64::MAX, 1), i64::MAX);
    assert_eq!(lcm(-7i128, -3), 21);
    assert_eq!(lcm(i128::MIN + 1, -1), i128::MAX);
}

#[test]
fn gcd_and_lcm_ignore_argument_order() {
    assert_eq!(gcd(-12i32, 12), 12);
    assert_eq!(gcd(12i32, -12), 12);
    assert_eq!(gcd(18u32, 12), gcd(12u32, 18));
    assert_eq!(lcm(-6i16, 4), lcm(4i16, -6));
}

#[test]
fn gcd_times_lcm_is_product_magnitude() {
    let (a, b) = (-84i64, 120i64);
    assert_eq!(gcd(a, b) * lcm(a, b), (a * b).abs());
    assert_eq!(gcd(84u32, 120) * lcm(84u32, 120), 84 * 120);
}
