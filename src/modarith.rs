use vstd::arithmetic::div_mod::{
    lemma_fundamental_div_mod, lemma_mod_multiples_basic, lemma_small_mod, lemma_mul_mod_noop_left,
    lemma_mul_mod_noop_right,
};
use vstd::arithmetic::power::{lemma_pow_mod_noop, lemma_pow_multiplies, pow};
use vstd::prelude::*;

verus! {

/// Greatest common divisor by Euclid's rule.
pub open spec fn gcd_spec(a: nat, b: nat) -> nat
    decreases b,
{
    if b == 0 {
        a
    } else {
        gcd_spec(b, a % b)
    }
}

/// The gcd of two numbers, not both zero, is positive and divides both.
pub proof fn lemma_gcd_divides(a: nat, b: nat)
    requires
        a > 0 || b > 0,
    ensures
        gcd_spec(a, b) > 0,
        a % gcd_spec(a, b) == 0,
        b % gcd_spec(a, b) == 0,
    decreases b,
{
    if b > 0 {
        let r = a % b;
        lemma_gcd_divides(b, r);
        let g = gcd_spec(b, r);
        assert(gcd_spec(a, b) == g);
        lemma_fundamental_div_mod(a as int, b as int);
        lemma_fundamental_div_mod(b as int, g as int);
        lemma_fundamental_div_mod(r as int, g as int);
        let k = (a / b) * (b / g) + r / g;
        assert(a == k * g) by (nonlinear_arith)
            requires
                a == b * (a / b) + r,
                b == g * (b / g),
                r == g * (r / g),
                k == (a / b) * (b / g) + r / g,
        ;
        lemma_mod_multiples_basic(k as int, g as int);
    }
}

/// Every common divisor of `a` and `b` divides their gcd.
pub proof fn lemma_gcd_greatest(a: nat, b: nat, d: nat)
    requires
        d > 0,
        a % d == 0,
        b % d == 0,
    ensures
        gcd_spec(a, b) % d == 0,
    decreases b,
{
    if b > 0 {
        let r = a % b;
        lemma_fundamental_div_mod(a as int, b as int);
        lemma_fundamental_div_mod(a as int, d as int);
        lemma_fundamental_div_mod(b as int, d as int);
        let k = (a / d) as int - (b / d) as int * (a / b) as int;
        assert(r == k * d) by (nonlinear_arith)
            requires
                a == b * (a / b) + r,
                a == d * (a / d),
                b == d * (b / d),
                k == (a / d) as int - (b / d) as int * (a / b) as int,
        ;
        lemma_mod_multiples_basic(k, d as int);
        lemma_gcd_greatest(b, r, d);
    }
}

/// `(x mod m) * (y mod m)^k` and `x * y^k` agree modulo m.
proof fn lemma_mul_pow_mod(x: int, y: int, k: nat, m: int)
    requires
        m > 0,
    ensures
        ((x % m) * pow(y % m, k)) % m == (x * pow(y, k)) % m,
{
    lemma_mul_mod_noop_left(x, pow(y % m, k), m);
    lemma_mul_mod_noop_right(x, pow(y % m, k), m);
    lemma_pow_mod_noop(y, k, m);
    lemma_mul_mod_noop_right(x, pow(y, k), m);
}

/// `a * b mod m`, with the product formed in 128 bits.
pub fn mod_mul(a: u64, b: u64, m: u64) -> (r: u64)
    requires
        m > 0,
    ensures
        r as int == (a as int * b as int) % (m as int),
        r < m,
{
    assert((a as int) * (b as int) <= u64::MAX as int * u64::MAX as int) by (nonlinear_arith);
    ((a as u128 * b as u128) % (m as u128)) as u64
}

/// `base ^ exp mod m` by binary exponentiation.
pub fn mod_pow(base: u64, exp: u64, m: u64) -> (r: u64)
    requires
        m > 0,
    ensures
        r as int == pow(base as int, exp as nat) % (m as int),
        r < m,
{
    let mut res: u64 = 1 % m;
    let mut b: u64 = base % m;
    let mut e: u64 = exp;
    proof {
        lemma_mul_pow_mod(1, base as int, exp as nat, m as int);
    }
    while e > 0
        invariant
            m > 0,
            res < m,
            b < m,
            (res as int * pow(b as int, e as nat)) % (m as int) == pow(base as int, exp as nat)
                % (m as int),
        decreases e,
    {
        let ghost r0 = res as int;
        let ghost b0 = b as int;
        let ghost e0 = e as nat;
        let odd = (e & 1) != 0;
        assert((e & 1) != 0 <==> e % 2 == 1) by (bit_vector);
        if odd {
            res = mod_mul(res, b, m);
        }
        b = mod_mul(b, b, m);
        assert(e >> 1 == e / 2) by (bit_vector);
        e = e >> 1;
        proof {
            let mi = m as int;
            let h = (e0 / 2) as nat;
            lemma_pow_multiplies(b0, 2, h);
            assert(pow(b0, 2) == b0 * b0) by {
                reveal_with_fuel(pow, 3);
            }
            lemma_mul_pow_mod(res as int, b0 * b0, h, mi);
            if odd {
                assert(e0 == 2 * h + 1);
                assert(pow(b0, e0) == b0 * pow(b0, 2 * h)) by {
                    reveal_with_fuel(pow, 1);
                }
                lemma_mul_pow_mod(r0 * b0, b0 * b0, h, mi);
                assert(r0 * pow(b0, e0) == (r0 * b0) * pow(b0 * b0, h)) by (nonlinear_arith)
                    requires
                        pow(b0, e0) == b0 * pow(b0, 2 * h),
                        pow(b0, 2 * h) == pow(b0 * b0, h),
                ;
            } else {
                assert(e0 == 2 * h);
                lemma_small_mod(r0 as nat, m as nat);
            }
        }
    }
    proof {
        assert(pow(b as int, 0) == 1) by {
            reveal_with_fuel(pow, 1);
        }
        lemma_small_mod(res as nat, m as nat);
    }
    res
}

/// The low 64 bits of a 128-bit value.
pub fn u128_to_u64(x: u128) -> (r: u64)
    ensures
        r as int == x as int % 0x1_0000_0000_0000_0000,
{
    (x % (u64::MAX as u128 + 1)) as u64
}

/// Greatest common divisor by Euclid's algorithm.
pub fn gcd(a: u64, b: u64) -> (r: u64)
    ensures
        r as nat == gcd_spec(a as nat, b as nat),
        a > 0 || b > 0 ==> r > 0 && a % r == 0 && b % r == 0,
        forall|d: nat|
            d > 0 && (a as nat) % d == 0 && (b as nat) % d == 0 ==> #[trigger] ((r as nat) % d)
                == 0,
{
    proof {
        if a > 0 || b > 0 {
            lemma_gcd_divides(a as nat, b as nat);
        }
        assert forall|d: nat| d > 0 && (a as nat) % d == 0 && (b as nat) % d == 0 implies #[trigger] (gcd_spec(
            a as nat,
            b as nat,
        ) % d) == 0 by {
            lemma_gcd_greatest(a as nat, b as nat, d);
        }
    }
    let ghost target = gcd_spec(a as nat, b as nat);
    let mut a = a;
    let mut b = b;
    while b != 0
        invariant
            gcd_spec(a as nat, b as nat) == target,
        decreases b,
    {
        let t = a % b;
        a = b;
        b = t;
    }
    a
}

} // verus!
