//! Euclid's lemma and Fermat's little theorem.
use crate::primality::is_prime_spec;
use vstd::arithmetic::div_mod::{
    lemma_fundamental_div_mod, lemma_mod_multiples_basic, lemma_mul_mod_noop_left,
    lemma_small_mod, lemma_sub_mod_noop,
};
use vstd::arithmetic::power::{lemma_pow0, lemma_pow1, pow};
use vstd::prelude::*;

verus! {

/// Euclid's lemma, for `0 < a < p`: a prime dividing `a * y` divides `y`.
proof fn lemma_euclid_below(p: int, a: int, y: int)
    requires
        is_prime_spec(p),
        0 < a < p,
        (a * y) % p == 0,
    ensures
        y % p == 0,
    decreases a,
{
    if a > 1 {
        let r = p % a;
        let q = p / a;
        lemma_fundamental_div_mod(p, a);
        assert(r != 0);
        lemma_fundamental_div_mod(a * y, p);
        let t = (a * y) / p;
        assert(r * y == p * (y - q * t)) by (nonlinear_arith)
            requires
                p == a * q + r,
                a * y == p * t,
        ;
        lemma_mod_multiples_basic(y - q * t, p);
        assert(r * y == (y - q * t) * p) by (nonlinear_arith)
            requires
                r * y == p * (y - q * t),
        ;
        lemma_euclid_below(p, r, y);
    } else {
        assert(a * y == y) by (nonlinear_arith)
            requires
                a == 1,
        ;
    }
}

/// Euclid's lemma: a prime dividing a product divides one of the factors.
pub proof fn lemma_euclid(p: int, x: int, y: int)
    requires
        is_prime_spec(p),
        (x * y) % p == 0,
    ensures
        x % p == 0 || y % p == 0,
{
    let a = x % p;
    if a != 0 {
        lemma_mul_mod_noop_left(x, y, p);
        assert((a * y) % p == 0);
        lemma_euclid_below(p, a, y);
    }
}

/// Binomial coefficients by Pascal's rule.
pub open spec fn binom(n: nat, k: nat) -> nat
    decreases n,
{
    if k == 0 {
        1
    } else if n == 0 {
        0
    } else {
        binom((n - 1) as nat, (k - 1) as nat) + binom((n - 1) as nat, k)
    }
}

/// `sum of binom(n, k) * x^k` over `k` in `0..=m`.
pub open spec fn binom_sum(x: int, n: nat, m: nat) -> int
    decreases m,
{
    if m == 0 {
        1
    } else {
        binom_sum(x, n, (m - 1) as nat) + binom(n, m) * pow(x, m)
    }
}

/// Coefficients beyond the row vanish.
proof fn lemma_binom_above(n: nat, k: nat)
    requires
        k > n,
    ensures
        binom(n, k) == 0,
    decreases n,
{
    if n > 0 {
        lemma_binom_above((n - 1) as nat, (k - 1) as nat);
        lemma_binom_above((n - 1) as nat, k);
    }
}

/// The last coefficient of a row is 1.
proof fn lemma_binom_diag(n: nat)
    ensures
        binom(n, n) == 1,
    decreases n,
{
    if n > 0 {
        lemma_binom_diag((n - 1) as nat);
        lemma_binom_above((n - 1) as nat, n);
    }
}

/// `binom(n, 1) == n`.
proof fn lemma_binom_one(n: nat)
    ensures
        binom(n, 1) == n,
    decreases n,
{
    if n > 0 {
        lemma_binom_one((n - 1) as nat);
        assert(binom((n - 1) as nat, 0) == 1);
    }
}

/// `binom_sum` over `n + 1` splits by Pascal's rule.
proof fn lemma_binom_sum_pascal(x: int, n: nat, m: nat)
    requires
        m >= 1,
    ensures
        binom_sum(x, n + 1, m) == binom_sum(x, n, m) + x * binom_sum(x, n, (m - 1) as nat),
    decreases m,
{
    lemma_pow1(x);
    reveal(pow);
    if m == 1 {
        assert(binom_sum(x, n + 1, 0) == 1);
        assert(binom_sum(x, n, 0) == 1);
        lemma_binom_one(n);
        lemma_binom_one(n + 1);
        assert(binom_sum(x, n + 1, 1) == 1 + (n + 1) * x);
        assert(binom_sum(x, n, 1) == 1 + n * x);
        assert(1 + (n + 1) * x == (1 + n * x) + x * 1) by (nonlinear_arith);
    } else {
        lemma_binom_sum_pascal(x, n, (m - 1) as nat);
        let a = binom_sum(x, n, (m - 1) as nat);
        let b = binom_sum(x, n, (m - 2) as nat);
        let c1 = binom(n, (m - 1) as nat);
        let c2 = binom(n, m);
        let pm = pow(x, m);
        let pm1 = pow(x, (m - 1) as nat);
        assert(binom(n + 1, m) == c1 + c2);
        assert(pm == x * pm1);
        assert(binom_sum(x, n + 1, m) == (a + x * b) + (c1 + c2) * pm);
        assert(binom_sum(x, n, m) == a + c2 * pm);
        assert(a == b + c1 * pm1);
        assert((a + x * b) + (c1 + c2) * pm == (a + c2 * pm) + x * a) by (nonlinear_arith)
            requires
                pm == x * pm1,
                a == b + c1 * pm1,
        ;
    }
}

/// The binomial theorem: `(x + 1)^n == sum of binom(n, k) * x^k`.
pub proof fn lemma_binomial(x: int, n: nat)
    ensures
        pow(x + 1, n) == binom_sum(x, n, n),
    decreases n,
{
    lemma_pow0(x + 1);
    reveal(pow);
    if n > 0 {
        let k = (n - 1) as nat;
        lemma_binomial(x, k);
        lemma_binom_sum_pascal(x, k, n);
        lemma_binom_above(k, n);
        assert(binom_sum(x, k, n) == binom_sum(x, k, k));
        assert(pow(x + 1, n) == (x + 1) * pow(x + 1, k));
        assert((x + 1) * binom_sum(x, k, k) == binom_sum(x, k, k) + x * binom_sum(x, k, k))
            by (nonlinear_arith);
    }
}

/// `k * binom(n, k) == n * binom(n - 1, k - 1)`.
proof fn lemma_binom_absorb(n: nat, k: nat)
    requires
        n >= 1,
        k >= 1,
    ensures
        k * binom(n, k) == n * binom((n - 1) as nat, (k - 1) as nat),
    decreases n,
{
    if k == 1 {
        lemma_binom_one(n);
        assert(binom((n - 1) as nat, 0) == 1);
    } else if n == 1 {
        lemma_binom_above(1, k);
        lemma_binom_above(0, (k - 1) as nat);
    } else {
        lemma_binom_absorb((n - 1) as nat, (k - 1) as nat);
        lemma_binom_absorb((n - 1) as nat, k);
        let a = binom((n - 1) as nat, (k - 1) as nat);
        let b = binom((n - 1) as nat, k);
        let c = binom((n - 2) as nat, (k - 2) as nat);
        let d = binom((n - 2) as nat, (k - 1) as nat);
        assert(binom(n, k) == a + b);
        assert(a == c + d);
        assert(k * (a + b) == n * a) by (nonlinear_arith)
            requires
                (k - 1) * a == (n - 1) * c,
                k * b == (n - 1) * d,
                a == c + d,
        ;
    }
}

/// A prime divides every inner binomial coefficient of its row.
proof fn lemma_prime_divides_binom(p: int, k: nat)
    requires
        is_prime_spec(p),
        0 < k < p,
    ensures
        (binom(p as nat, k) as int) % p == 0,
{
    lemma_binom_absorb(p as nat, k);
    let c = binom((p - 1) as nat, (k - 1) as nat);
    assert(k * binom(p as nat, k) == c * p) by (nonlinear_arith)
        requires
            k * binom(p as nat, k) == p * c,
    ;
    lemma_mod_multiples_basic(c as int, p);
    lemma_euclid(p, k as int, binom(p as nat, k) as int);
    lemma_small_mod(k, p as nat);
}

/// Two multiples of `p` add up to a multiple of `p`.
proof fn lemma_multiples_add(a: int, b: int, p: int)
    requires
        p > 0,
        a % p == 0,
        b % p == 0,
    ensures
        (a + b) % p == 0,
{
    lemma_fundamental_div_mod(a, p);
    lemma_fundamental_div_mod(b, p);
    assert(a + b == (a / p + b / p) * p) by (nonlinear_arith)
        requires
            a == p * (a / p),
            b == p * (b / p),
    ;
    lemma_mod_multiples_basic(a / p + b / p, p);
}

/// `u` and `v` agree modulo `p` exactly when `p` divides `u - v`.
proof fn lemma_congruent(u: int, v: int, p: int)
    requires
        p > 0,
    ensures
        (u - v) % p == 0 <==> u % p == v % p,
{
    lemma_sub_mod_noop(u, v, p);
    let d = u % p - v % p;
    lemma_fundamental_div_mod(d, p);
    if d % p == 0 && d != 0 {
        assert(d == p * (d / p));
        assert(false) by (nonlinear_arith)
            requires
                d == p * (d / p),
                -p < d < p,
                d != 0,
                p > 0,
        ;
    }
    if d == 0 {
        assert(0int % p == 0);
    }
}

/// Below the top term, the binomial sum of a prime row is 1 modulo `p`.
proof fn lemma_binom_sum_low(x: int, p: int, m: nat)
    requires
        is_prime_spec(p),
        m < p,
    ensures
        (binom_sum(x, p as nat, m) - 1) % p == 0,
    decreases m,
{
    if m == 0 {
        assert(0int % p == 0);
    } else {
        lemma_binom_sum_low(x, p, (m - 1) as nat);
        lemma_prime_divides_binom(p, m);
        let c = binom(p as nat, m);
        lemma_fundamental_div_mod(c as int, p);
        let t = (c as int / p) * pow(x, m);
        assert(c * pow(x, m) == t * p) by (nonlinear_arith)
            requires
                c == p * (c as int / p),
                t == (c as int / p) * pow(x, m),
        ;
        lemma_mod_multiples_basic(t, p);
        lemma_multiples_add(binom_sum(x, p as nat, (m - 1) as nat) - 1, c * pow(x, m), p);
    }
}

/// `(x + 1)^p == x^p + 1` modulo a prime `p`.
proof fn lemma_freshman(x: int, p: int)
    requires
        is_prime_spec(p),
    ensures
        (pow(x + 1, p as nat) - pow(x, p as nat) - 1) % p == 0,
{
    lemma_binomial(x, p as nat);
    lemma_binom_diag(p as nat);
    lemma_binom_sum_low(x, p, (p - 1) as nat);
    assert(binom_sum(x, p as nat, p as nat) == binom_sum(x, p as nat, (p - 1) as nat) + pow(
        x,
        p as nat,
    ));
}

/// `a^p == a` modulo a prime `p`.
proof fn lemma_pow_prime_self(a: nat, p: int)
    requires
        is_prime_spec(p),
    ensures
        pow(a as int, p as nat) % p == (a as int) % p,
    decreases a,
{
    reveal(pow);
    if a == 0 {
        assert(pow(0, p as nat) == 0 * pow(0, (p - 1) as nat));
    } else {
        let b = (a - 1) as nat;
        lemma_pow_prime_self(b, p);
        lemma_freshman(b as int, p);
        lemma_congruent(pow(b as int, p as nat), b as int, p);
        lemma_multiples_add(
            pow(b + 1int, p as nat) - pow(b as int, p as nat) - 1,
            pow(b as int, p as nat) - b,
            p,
        );
        assert(b + 1 == a);
        lemma_congruent(pow(a as int, p as nat), a as int, p);
    }
}

/// Fermat's little theorem: `a^(p-1) == 1` modulo a prime `p`, for `0 < a < p`.
pub proof fn lemma_fermat(a: int, p: int)
    requires
        is_prime_spec(p),
        0 < a < p,
    ensures
        pow(a, (p - 1) as nat) % p == 1,
{
    lemma_pow_prime_self(a as nat, p);
    lemma_congruent(pow(a, p as nat), a, p);
    let q = pow(a, (p - 1) as nat);
    assert(pow(a, p as nat) == a * q) by {
        reveal(pow);
    }
    assert(pow(a, p as nat) - a == a * (q - 1)) by (nonlinear_arith)
        requires
            pow(a, p as nat) == a * q,
    ;
    lemma_euclid(p, a, q - 1);
    lemma_small_mod(a as nat, p as nat);
    lemma_congruent(q, 1, p);
    lemma_small_mod(1, p as nat);
}

} // verus!
