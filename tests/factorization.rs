use tgcrypto::factorizator::{factor, pollard_brent};
use tgcrypto::primality::{is_prime, SMALL_PRIMES};
use tgcrypto::splitmix::SplitMix64;
use tgcrypto::tg_factorize;

#[test]
fn factor_two_large_primes() {
    assert_eq!(factor(1000000007u64 * 998244353u64), vec![998244353, 1000000007]);
}

#[test]
fn factor_smooth_number() {
    assert_eq!(factor(2 * 2 * 3 * 3 * 3 * 997), vec![2, 2, 3, 3, 3, 997]);
}

#[test]
fn factor_strong_pseudoprime_base_two() {
    assert_eq!(factor(341), vec![11, 31]);
}

#[test]
fn factor_large_prime_near_max() {
    assert_eq!(factor(18446744073709551557), vec![18446744073709551557]);
}

#[test]
fn factor_empty_cases() {
    assert_eq!(factor(0), Vec::<u64>::new());
    assert_eq!(factor(1), Vec::<u64>::new());
}

#[test]
fn factor_is_deterministic() {
    for n in [1000000007u64 * 998244353, 600851475143, 18446744073709551615, 341, 4] {
        assert_eq!(factor(n), factor(n));
    }
}

#[test]
fn factor_products_and_order() {
    let inputs = [
        2u64,
        4,
        1024,
        999983 * 999979,
        600851475143,
        18446744073709551615,
        9223372036854775783,
        4294967291 * 4294967279,
        1000003 * 1000003 * 17,
        997 * 997 * 991,
    ];
    for n in inputs {
        let f = factor(n);
        let mut prod: u128 = 1;
        for &p in &f {
            assert!(is_prime(p));
            prod *= p as u128;
        }
        assert_eq!(prod, n as u128);
        for w in f.windows(2) {
            assert!(w[0] <= w[1]);
        }
    }
}

#[test]
fn factor_all_ones() {
    assert_eq!(factor(18446744073709551615), vec![3, 5, 17, 257, 641, 65537, 6700417]);
}

#[test]
fn factor_square_of_large_prime() {
    assert_eq!(factor(4294967291 * 4294967291), vec![4294967291, 4294967291]);
}

#[test]
fn tg_factorize_matches_factor() {
    assert_eq!(tg_factorize(1000000007u64 * 998244353u64), vec![998244353, 1000000007]);
    assert_eq!(tg_factorize(1), Vec::<u64>::new());
}

#[test]
fn oracle_accepts_table() {
    assert_eq!(SMALL_PRIMES.len(), 168);
    for &p in SMALL_PRIMES.iter() {
        assert!(is_prime(p));
    }
}

#[test]
fn oracle_large_primes() {
    assert!(is_prime(9223372036854775783));
    assert!(is_prime(9223372036854775837));
    assert!(is_prime(18446744073709551557));
    assert!(is_prime(1000000007));
    assert!(is_prime(998244353));
}

#[test]
fn oracle_rejects_composites() {
    for n in [0u64, 1, 4, 9, 341, 561, 3215031751, 1000000007 * 998244353, 4294967291 * 4294967279] {
        assert!(!is_prime(n), "{}", n);
    }
}

#[test]
fn splitmix_known_outputs() {
    let mut rng = SplitMix64::new(0);
    assert_eq!(rng.next_u64(), 0xE220A8397B1DCDAF);
    assert_eq!(rng.next_u64(), 0x6E789E6AA1B965F4);
    assert_eq!(rng.next_u64(), 0x06C45D188009454F);
}

#[test]
fn splitmix_range() {
    let mut rng = SplitMix64::new(42);
    assert_eq!(rng.gen_range_1_to_n_minus_1(2), 1);
    assert_eq!(rng.gen_range_1_to_n_minus_1(0), 1);
    let mut a = SplitMix64::new(42);
    let mut b = SplitMix64::new(42);
    let x = a.next_u64();
    assert_eq!(b.gen_range_1_to_n_minus_1(100), x % 99 + 1);
    for _ in 0..100 {
        let r = a.gen_range_1_to_n_minus_1(10);
        assert!((1..=9).contains(&r));
    }
}

#[test]
fn pollard_brent_finds_divisors() {
    let mut rng = SplitMix64::new(7);
    assert_eq!(pollard_brent(1000, &mut rng), 2);
    assert_eq!(pollard_brent(1005, &mut rng), 3);
    let n = 1000000007u64 * 998244353;
    let d = pollard_brent(n, &mut rng);
    assert!(d == 0 || n % d == 0);
}

#[test]
fn factor_small_prime_times_large_prime() {
    assert_eq!(factor(2 * 9223372036854775783), vec![2, 9223372036854775783]);
    assert_eq!(factor(2), vec![2]);
    assert_eq!(factor(1024), vec![2; 10]);
}

#[test]
fn oracle_small_values() {
    assert!(!is_prime(1000));
    assert!(is_prime(1009));
    assert!(!is_prime(1001));
    assert!(is_prime(2));
    assert!(!is_prime(994009));
}

#[test]
fn pollard_brent_splits_semiprime() {
    let n = 1000000007u64 * 998244353;
    for seed in [1u64, 2, 3, 0x9E3779B97f4A7C15 ^ n] {
        let mut rng = SplitMix64::new(seed);
        let d = pollard_brent(n, &mut rng);
        assert!(d == 1000000007 || d == 998244353, "{}", d);
    }
}
