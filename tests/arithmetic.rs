use tgcrypto::modarith::{gcd, mod_mul, mod_pow, u128_to_u64};

#[test]
fn mod_mul_near_max() {
    assert_eq!(mod_mul(u64::MAX, u64::MAX, 1000000007), ((u64::MAX as u128 * u64::MAX as u128) % 1000000007) as u64);
    assert_eq!(mod_mul(7, 6, 5), 2);
}

#[test]
fn mod_pow_values() {
    assert_eq!(mod_pow(2, 10, 1000), 24);
    assert_eq!(mod_pow(3, 0, 7), 1);
    assert_eq!(mod_pow(3, 0, 1), 0);
    assert_eq!(mod_pow(2, 340, 341), 1);
    assert_eq!(mod_pow(5, 117, 19), 1);
}

#[test]
fn gcd_values() {
    assert_eq!(gcd(12, 18), 6);
    assert_eq!(gcd(0, 9), 9);
    assert_eq!(gcd(9, 0), 9);
    assert_eq!(gcd(17, 5), 1);
}

#[test]
fn u128_low_bits() {
    assert_eq!(u128_to_u64((1u128 << 64) + 5), 5);
    assert_eq!(u128_to_u64(42), 42);
}

#[test]
fn gcd_common_divisors() {
    let g = gcd(84, 120);
    assert_eq!(g, 12);
    for d in 1u64..=12 {
        if 84 % d == 0 && 120 % d == 0 {
            assert_eq!(g % d, 0);
        }
    }
}
