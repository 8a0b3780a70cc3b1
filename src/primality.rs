use crate::fermat::{lemma_euclid, lemma_fermat};
use crate::modarith::{mod_mul, mod_pow};
use vstd::arithmetic::div_mod::{
    lemma_fundamental_div_mod, lemma_mod_multiples_basic, lemma_mul_mod_noop, lemma_small_mod,
};
use vstd::arithmetic::power::{lemma_pow_adds, pow};
use vstd::prelude::*;

verus! {

/// Number of entries in the small-prime table.
pub const SMALL_PRIME_COUNT: usize = 168;

/// The primes below 1000, ascending, used for trial division.
pub const SMALL_PRIMES: [u64; 168] = [
    2, 3, 5, 7, 11, 13, 17, 19, 23, 29, 31, 37, 41, 43, 47, 53,
    59, 61, 67, 71, 73, 79, 83, 89, 97, 101, 103, 107, 109, 113, 127, 131,
    137, 139, 149, 151, 157, 163, 167, 173, 179, 181, 191, 193, 197, 199, 211, 223,
    227, 229, 233, 239, 241, 251, 257, 263, 269, 271, 277, 281, 283, 293, 307, 311,
    313, 317, 331, 337, 347, 349, 353, 359, 367, 373, 379, 383, 389, 397, 401, 409,
    419, 421, 431, 433, 439, 443, 449, 457, 461, 463, 467, 479, 487, 491, 499, 503,
    509, 521, 523, 541, 547, 557, 563, 569, 571, 577, 587, 593, 599, 601, 607, 613,
    617, 619, 631, 641, 643, 647, 653, 659, 661, 673, 677, 683, 691, 701, 709, 719,
    727, 733, 739, 743, 751, 757, 761, 769, 773, 787, 797, 809, 811, 821, 823, 827,
    829, 839, 853, 857, 859, 863, 877, 881, 883, 887, 907, 911, 919, 929, 937, 941,
    947, 953, 967, 971, 977, 983, 991, 997,];

/// Number of Miller-Rabin witnesses.
pub const WITNESS_COUNT: usize = 7;

/// Bases that make the strong-probable-prime test exact below 2^64.
pub const WITNESSES: [u64; 7] = [2, 325, 9375, 28178, 450775, 9780504, 1795265022];

/// The table entry at index `i`.
#[verifier::opaque]
pub open spec fn small_prime(i: int) -> u64 {
    SMALL_PRIMES@[i]
}

/// The odd part of `x`: `x` with every factor 2 divided out (0 stays 0).
pub open spec fn odd_part(x: nat) -> nat
    decreases x,
{
    if x > 0 && x % 2 == 0 {
        odd_part(x / 2)
    } else {
        x
    }
}

/// The number of factors 2 in `x` (0 for `x == 0`).
pub open spec fn twos(x: nat) -> nat
    decreases x,
{
    if x > 0 && x % 2 == 0 {
        1 + twos(x / 2)
    } else {
        0
    }
}

/// `x0` squared `j` times modulo `n`.
pub open spec fn square_chain(x0: int, n: int, j: nat) -> int
    decreases j,
{
    if j == 0 {
        x0
    } else {
        let p = square_chain(x0, n, (j - 1) as nat);
        (p * p) % n
    }
}

/// `n` is a strong probable prime to base `a` (or `a` vanishes modulo `n`):
/// with `n - 1 == d * 2^s`, `d` odd, either `a^d` is 1 or `n - 1`, or some
/// `a^(d*2^j) == n - 1` for `j < s`, all modulo `n`.
pub open spec fn passes_witness(n: u64, a: u64) -> bool {
    let am = a % n;
    let d = odd_part((n - 1) as nat);
    let s = twos((n - 1) as nat);
    let x0 = pow(am as int, d) % (n as int);
    am == 0 || x0 == 1 || x0 == n - 1 || exists|j: nat| j < s && square_chain(x0, n as int, j) == n - 1
}

/// `n` passes the strong-probable-prime test for every witness.
pub open spec fn passes_all_witnesses(n: u64) -> bool {
    forall|k: int| 0 <= k < WITNESS_COUNT ==> passes_witness(n, #[trigger] WITNESSES@[k])
}

/// The verdict of the trial-division scan from table index `i` on: a table
/// entry equal to `n` accepts, one dividing `n` rejects, and past the table the
/// witnesses decide.
pub open spec fn table_scan(n: u64, i: int) -> bool
    decreases SMALL_PRIME_COUNT - i,
{
    if i < 0 || i >= SMALL_PRIME_COUNT {
        passes_all_witnesses(n)
    } else if n == small_prime(i) {
        true
    } else if n % small_prime(i) == 0 {
        false
    } else {
        table_scan(n, i + 1)
    }
}

/// What the primality oracle answers for `n`.
pub open spec fn prime_oracle(n: u64) -> bool {
    n >= 2 && table_scan(n, 0)
}

/// `n` is prime in the mathematical sense.
pub open spec fn is_prime_spec(n: int) -> bool {
    n >= 2 && forall|d: int| 2 <= d < n ==> #[trigger] (n % d) != 0
}

/// Every table entry lies in `2..=997`.
pub proof fn lemma_table_entries_at_least_two()
    ensures
        forall|i: int| 0 <= i < SMALL_PRIME_COUNT ==> 2 <= #[trigger] small_prime(i) <= 997,
{
    reveal(small_prime);
    assert(forall|i: int| 0 <= i < SMALL_PRIME_COUNT ==> 2 <= #[trigger] small_prime(i) <= 997);
}

/// `x` has no divisor `d` with `2 <= d <= 31` and `d * d <= x`.
pub open spec fn no_small_divisor(x: int) -> bool {
    (4 > x || x % 2 != 0) && (9 > x || x % 3 != 0) && (16 > x || x % 4 != 0) && (25 > x || x % 5 != 0) && (36 > x || x % 6 != 0) && (49 > x || x % 7 != 0) && (64 > x || x % 8 != 0) && (81 > x || x % 9 != 0) && (100 > x || x % 10 != 0) && (121 > x || x % 11 != 0) && (144 > x || x % 12 != 0) && (169 > x || x % 13 != 0) && (196 > x || x % 14 != 0) && (225 > x || x % 15 != 0) && (256 > x || x % 16 != 0) && (289 > x || x % 17 != 0) && (324 > x || x % 18 != 0) && (361 > x || x % 19 != 0) && (400 > x || x % 20 != 0) && (441 > x || x % 21 != 0) && (484 > x || x % 22 != 0) && (529 > x || x % 23 != 0) && (576 > x || x % 24 != 0) && (625 > x || x % 25 != 0) && (676 > x || x % 26 != 0) && (729 > x || x % 27 != 0) && (784 > x || x % 28 != 0) && (841 > x || x % 29 != 0) && (900 > x || x % 30 != 0) && (961 > x || x % 31 != 0)
}

/// The table ascends.
proof fn lemma_table_ascends()
    ensures
        forall|k: int| 0 <= k < SMALL_PRIME_COUNT - 1 ==> #[trigger] small_prime(k) < small_prime(k + 1),
{
    reveal(small_prime);
    assert(forall|k: int| 0 <= k < SMALL_PRIME_COUNT - 1 ==> #[trigger] small_prime(k) < small_prime(k + 1));
}

/// No table entry has a small divisor.
proof fn lemma_table_small_divisors()
    ensures
        forall|k: int| 0 <= k < SMALL_PRIME_COUNT ==> no_small_divisor(#[trigger] small_prime(k) as int),
{
    reveal(small_prime);
    assert(forall|k: int| 0 <= k < SMALL_PRIME_COUNT ==> no_small_divisor(#[trigger] small_prime(k) as int));
}

/// A proper divisor `d` of `x` gives a divisor `sm` of `x` with `sm * sm <= x`.
pub proof fn lemma_small_factor(x: int, d: int) -> (sm: int)
    requires
        2 <= d < x,
        x % d == 0,
    ensures
        2 <= sm,
        sm * sm <= x,
        x % sm == 0,
{
    lemma_fundamental_div_mod(x, d);
    let e = x / d;
    assert(x == d * e);
    assert(e >= 2) by (nonlinear_arith)
        requires
            x == d * e,
            2 <= d < x,
    ;
    let sm = if d <= e {
        d
    } else {
        e
    };
    assert(sm * sm <= x) by (nonlinear_arith)
        requires
            x == d * e,
            sm == d || sm == e,
            sm <= d,
            sm <= e,
            sm >= 2,
    ;
    lemma_mod_multiples_basic(d, e);
    sm
}

/// A number below 1024 without a small divisor is prime.
proof fn lemma_no_small_divisor_prime(x: int)
    requires
        2 <= x < 1024,
        no_small_divisor(x),
    ensures
        is_prime_spec(x),
{
    assert forall|d: int| 2 <= d < x implies #[trigger] (x % d) != 0 by {
        if x % d == 0 {
            let sm = lemma_small_factor(x, d);
            assert(sm <= 31) by (nonlinear_arith)
                requires
                    sm * sm <= x,
                    x < 1024,
                    sm >= 2,
            ;
            if sm == 2 {
                assert(x % 2 != 0);
            } else if sm == 3 {
                assert(x % 3 != 0);
            } else if sm == 4 {
                assert(x % 4 != 0);
            } else if sm == 5 {
                assert(x % 5 != 0);
            } else if sm == 6 {
                assert(x % 6 != 0);
            } else if sm == 7 {
                assert(x % 7 != 0);
            } else if sm == 8 {
                assert(x % 8 != 0);
            } else if sm == 9 {
                assert(x % 9 != 0);
            } else if sm == 10 {
                assert(x % 10 != 0);
            } else if sm == 11 {
                assert(x % 11 != 0);
            } else if sm == 12 {
                assert(x % 12 != 0);
            } else if sm == 13 {
                assert(x % 13 != 0);
            } else if sm == 14 {
                assert(x % 14 != 0);
            } else if sm == 15 {
                assert(x % 15 != 0);
            } else if sm == 16 {
                assert(x % 16 != 0);
            } else if sm == 17 {
                assert(x % 17 != 0);
            } else if sm == 18 {
                assert(x % 18 != 0);
            } else if sm == 19 {
                assert(x % 19 != 0);
            } else if sm == 20 {
                assert(x % 20 != 0);
            } else if sm == 21 {
                assert(x % 21 != 0);
            } else if sm == 22 {
                assert(x % 22 != 0);
            } else if sm == 23 {
                assert(x % 23 != 0);
            } else if sm == 24 {
                assert(x % 24 != 0);
            } else if sm == 25 {
                assert(x % 25 != 0);
            } else if sm == 26 {
                assert(x % 26 != 0);
            } else if sm == 27 {
                assert(x % 27 != 0);
            } else if sm == 28 {
                assert(x % 28 != 0);
            } else if sm == 29 {
                assert(x % 29 != 0);
            } else if sm == 30 {
                assert(x % 30 != 0);
            } else if sm == 31 {
                assert(x % 31 != 0);
            }
        }
    }
}

/// Every table entry is prime, the table ascends, and no entry divides a
/// later one.
pub proof fn lemma_table_primes()
    ensures
        forall|k: int| 0 <= k < SMALL_PRIME_COUNT ==> is_prime_spec(#[trigger] small_prime(k) as int),
        forall|j: int, k: int|
            0 <= j < k < SMALL_PRIME_COUNT ==> #[trigger] small_prime(j) < #[trigger] small_prime(k),
        forall|j: int, k: int|
            0 <= j < k < SMALL_PRIME_COUNT ==> (#[trigger] small_prime(k) % #[trigger] small_prime(j)) != 0,
{
    lemma_table_ascends();
    lemma_table_small_divisors();
    lemma_table_entries_at_least_two();
    assert forall|k: int| 0 <= k < SMALL_PRIME_COUNT implies is_prime_spec(#[trigger] small_prime(k) as int) by {
        lemma_no_small_divisor_prime(small_prime(k) as int);
    }
    assert forall|j: int, k: int| 0 <= j < k < SMALL_PRIME_COUNT implies #[trigger] small_prime(j) < #[trigger] small_prime(k) by {
        lemma_table_ascends_from(j, k);
    }
}

/// Table entries ascend between any two indices.
proof fn lemma_table_ascends_from(j: int, k: int)
    requires
        0 <= j < k < SMALL_PRIME_COUNT,
        forall|i: int| 0 <= i < SMALL_PRIME_COUNT - 1 ==> #[trigger] small_prime(i) < small_prime(i + 1),
    ensures
        small_prime(j) < small_prime(k),
    decreases k - j,
{
    assert(small_prime(k - 1) < small_prime(k));
    if j < k - 1 {
        lemma_table_ascends_from(j, k - 1);
    }
}

/// The scan from index `i` accepts the table entry at index `k >= i`.
proof fn lemma_scan_accepts_entry(k: int, i: int)
    requires
        0 <= i <= k < SMALL_PRIME_COUNT,
        forall|j: int, k2: int|
            0 <= j < k2 < SMALL_PRIME_COUNT ==> #[trigger] small_prime(j) < #[trigger] small_prime(k2),
        forall|j: int, k2: int|
            0 <= j < k2 < SMALL_PRIME_COUNT ==> (#[trigger] small_prime(k2) % #[trigger] small_prime(j)) != 0,
    ensures
        table_scan(small_prime(k), i),
    decreases k - i,
{
    if i < k {
        assert(small_prime(i) < small_prime(k));
        assert(small_prime(k) % small_prime(i) != 0);
        lemma_scan_accepts_entry(k, i + 1);
    }
}

/// The oracle accepts every entry of the small-prime table.
pub proof fn lemma_oracle_accepts_table()
    ensures
        forall|k: int| 0 <= k < SMALL_PRIME_COUNT ==> prime_oracle(#[trigger] small_prime(k)),
{
    lemma_table_primes();
    assert forall|k: int| 0 <= k < SMALL_PRIME_COUNT implies prime_oracle(#[trigger] small_prime(k)) by {
        lemma_scan_accepts_entry(k, 0);
    }
}

/// The scan from index `i` rejects `n` when the table entry at index `k >= i`
/// is smaller than `n` and divides it.
proof fn lemma_scan_rejects_multiple(n: u64, k: int, i: int)
    requires
        0 <= i <= k < SMALL_PRIME_COUNT,
        small_prime(k) < n,
        n % small_prime(k) == 0,
        forall|j: int, k2: int|
            0 <= j < k2 < SMALL_PRIME_COUNT ==> #[trigger] small_prime(j) < #[trigger] small_prime(k2),
    ensures
        !table_scan(n, i),
    decreases k - i,
{
    if i < k {
        assert(small_prime(i) < small_prime(k));
        if n % small_prime(i) != 0 {
            lemma_scan_rejects_multiple(n, k, i + 1);
        }
    }
}

/// The oracle rejects every multiple of a table entry other than the entry
/// itself.
pub proof fn lemma_oracle_rejects_table_multiples(n: u64, k: int)
    requires
        0 <= k < SMALL_PRIME_COUNT,
        small_prime(k) < n,
        n % small_prime(k) == 0,
    ensures
        !prime_oracle(n),
{
    lemma_table_primes();
    lemma_scan_rejects_multiple(n, k, 0);
}

/// `x` has no more factors 2 than it is large.
proof fn lemma_twos_le(x: nat)
    ensures
        twos(x) <= x,
    decreases x,
{
    if x > 0 && x % 2 == 0 {
        lemma_twos_le(x / 2);
    }
}

/// Decides primality: trial division by the small-prime table, then the
/// strong-probable-prime test for each witness.
pub fn is_prime(n: u64) -> (r: bool)
    ensures
        r == prime_oracle(n),
{
    if n < 2 {
        return false;
    }
    proof {
        lemma_table_entries_at_least_two();
    }
    let mut i: usize = 0;
    while i < SMALL_PRIME_COUNT
        invariant
            n >= 2,
            i <= SMALL_PRIME_COUNT,
            table_scan(n, 0) == table_scan(n, i as int),
            forall|k: int| 0 <= k < SMALL_PRIME_COUNT ==> #[trigger] small_prime(k) >= 2,
        decreases SMALL_PRIME_COUNT - i,
    {
        let p = SMALL_PRIMES[i];
        assert(p == small_prime(i as int)) by {
            reveal(small_prime);
        }
        if n == p {
            return true;
        }
        if n % p == 0 {
            return false;
        }
        i = i + 1;
    }
    assert(table_scan(n, 0) == passes_all_witnesses(n));

    let mut d: u64 = n - 1;
    let mut s: u64 = 0;
    proof {
        lemma_twos_le((n - 1) as nat);
    }
    while (d & 1) == 0
        invariant
            d > 0,
            odd_part(d as nat) == odd_part((n - 1) as nat),
            s + twos(d as nat) == twos((n - 1) as nat),
            twos((n - 1) as nat) <= n - 1,
        decreases d,
    {
        assert((d & 1) == 0 ==> d % 2 == 0) by (bit_vector);
        assert(d >> 1 == d / 2) by (bit_vector);
        d = d >> 1;
        s = s + 1;
    }
    assert((d & 1) != 0 ==> d % 2 == 1) by (bit_vector);
    assert(d == odd_part((n - 1) as nat));
    assert(s == twos((n - 1) as nat));

    let mut k: usize = 0;
    while k < WITNESS_COUNT
        invariant
            n >= 2,
            k <= WITNESS_COUNT,
            table_scan(n, 0) == passes_all_witnesses(n),
            d == odd_part((n - 1) as nat),
            s == twos((n - 1) as nat),
            forall|k2: int| 0 <= k2 < k ==> passes_witness(n, #[trigger] WITNESSES@[k2]),
        decreases WITNESS_COUNT - k,
    {
        let a = WITNESSES[k];
        if a % n != 0 {
            let ghost x0 = pow((a % n) as int, d as nat) % (n as int);
            let mut x = mod_pow(a % n, d, n);
            assert(square_chain(x0, n as int, 0) == x0);
            if !(x == 1 || x == n - 1) {
                let mut passed = false;
                let mut j: u64 = 1;
                while j < s && !passed
                    invariant
                        n >= 2,
                        1 <= j,
                        x < n,
                        x as int == square_chain(x0, n as int, (j - 1) as nat),
                        passed ==> j - 1 < s && x == n - 1,
                        !passed ==> forall|t: nat|
                            t < j ==> #[trigger] square_chain(x0, n as int, t) != n - 1,
                    decreases s - j,
                {
                    x = mod_mul(x, x, n);
                    if x == n - 1 {
                        passed = true;
                    }
                    j = j + 1;
                }
                if !passed {
                    assert(!passes_witness(n, a));
                    return false;
                }
                assert(square_chain(x0, n as int, (j - 1) as nat) == n - 1);
            }
        }
        assert(passes_witness(n, a));
        k = k + 1;
    }
    true
}

/// `x` is its odd part times a power of two, and the odd part of a positive
/// number is odd.
proof fn lemma_odd_part_twos(x: nat)
    requires
        x > 0,
    ensures
        odd_part(x) * pow(2, twos(x)) == x,
        odd_part(x) % 2 == 1,
    decreases x,
{
    reveal(pow);
    if x % 2 == 0 {
        lemma_odd_part_twos(x / 2);
        let o = odd_part(x / 2);
        let t = twos(x / 2);
        assert(pow(2, t + 1) == 2 * pow(2, t));
        assert(o * (2 * pow(2, t)) == 2 * (o * pow(2, t))) by (nonlinear_arith);
    } else {
        assert(pow(2, 0) == 1);
    }
}

/// Squaring `j` times from `a^d mod n` gives `a^(d * 2^j) mod n`.
proof fn lemma_square_chain_pow(a: int, d: nat, n: int, j: nat)
    requires
        n > 0,
    ensures
        d * pow(2, j) >= 0,
        square_chain(pow(a, d) % n, n, j) == pow(a, (d * pow(2, j)) as nat) % n,
    decreases j,
{
    reveal(pow);
    vstd::arithmetic::power::lemma_pow_positive(2, j);
    if j > 0 {
        let i = (j - 1) as nat;
        lemma_square_chain_pow(a, d, n, i);
        vstd::arithmetic::power::lemma_pow_positive(2, i);
        let e = (d * pow(2, i)) as nat;
        let c = pow(a, e) % n;
        lemma_mul_mod_noop(pow(a, e), pow(a, e), n);
        lemma_small_mod(c as nat, n as nat);
        assert((c * c) % n == (pow(a, e) * pow(a, e)) % n);
        lemma_pow_adds(a, e, e);
        assert(pow(2, j) == 2 * pow(2, i));
        assert(d * pow(2, j) == e + e) by (nonlinear_arith)
            requires
                pow(2, j) == 2 * pow(2, i),
                e == d * pow(2, i),
        ;
    }
}

/// The only square roots of 1 modulo a prime are 1 and -1.
proof fn lemma_square_root_of_one(p: int, c: int)
    requires
        is_prime_spec(p),
        0 <= c < p,
        (c * c) % p == 1,
    ensures
        c == 1 || c == p - 1,
{
    assert((c - 1) * (c + 1) == c * c - 1) by (nonlinear_arith);
    vstd::arithmetic::div_mod::lemma_sub_mod_noop(c * c, 1, p);
    lemma_small_mod(1, p as nat);
    assert((c * c) % p - 1int % p == 0);
    assert(0int % p == 0);
    assert((c * c - 1) % p == 0);
    lemma_euclid(p, c - 1, c + 1);
    if c == 0 {
        assert(c * c == 0);
        assert(0int % p == 0);
    } else if (c - 1) % p == 0 {
        lemma_small_mod((c - 1) as nat, p as nat);
    }
    if (c + 1) % p == 0 && c != p - 1 {
        lemma_small_mod((c + 1) as nat, p as nat);
    }
}

/// A chain of squarings that reaches 1 modulo a prime starts at 1 or passes
/// through -1.
proof fn lemma_chain_reaches_one(x0: int, n: int, j: nat)
    requires
        is_prime_spec(n),
        0 <= x0 < n,
        square_chain(x0, n, j) == 1,
    ensures
        x0 == 1 || exists|i: nat| i < j && square_chain(x0, n, i) == n - 1,
    decreases j,
{
    if j > 0 {
        let i = (j - 1) as nat;
        let c = square_chain(x0, n, i);
        if i > 0 {
            let b = square_chain(x0, n, (i - 1) as nat);
            vstd::arithmetic::div_mod::lemma_mod_bound(b * b, n);
        }
        lemma_square_root_of_one(n, c);
        if c == 1 {
            lemma_chain_reaches_one(x0, n, i);
        }
    }
}

/// An odd prime passes the strong-probable-prime test for every base.
pub proof fn lemma_prime_passes_witness(n: u64, a: u64)
    requires
        is_prime_spec(n as int),
        n > 2,
    ensures
        passes_witness(n, a),
{
    let am = a % n;
    if am != 0 {
        let nm1 = (n - 1) as nat;
        let d = odd_part(nm1);
        let s = twos(nm1);
        lemma_odd_part_twos(nm1);
        let x0 = pow(am as int, d) % (n as int);
        vstd::arithmetic::div_mod::lemma_mod_bound(pow(am as int, d), n as int);
        lemma_square_chain_pow(am as int, d, n as int, s);
        lemma_fermat(am as int, n as int);
        assert(square_chain(x0, n as int, s) == 1);
        lemma_chain_reaches_one(x0, n as int, s);
    }
}

/// The scan accepts a prime that it has not passed yet.
proof fn lemma_scan_accepts_prime(n: u64, i: int)
    requires
        is_prime_spec(n as int),
        0 <= i <= SMALL_PRIME_COUNT,
        i > 0 ==> n != 2,
        forall|k: int| 0 <= k < SMALL_PRIME_COUNT ==> 2 <= #[trigger] small_prime(k) <= 997,
    ensures
        table_scan(n, i),
    decreases SMALL_PRIME_COUNT - i,
{
    if i == SMALL_PRIME_COUNT {
        assert(n % 2 != 0);
        assert forall|k: int| 0 <= k < WITNESS_COUNT implies passes_witness(
            n,
            #[trigger] WITNESSES@[k],
        ) by {
            lemma_prime_passes_witness(n, WITNESSES@[k]);
        }
    } else if n != small_prime(i) {
        let p = small_prime(i);
        if p > n {
            lemma_small_mod(n as nat, p as nat);
        }
        if i == 0 {
            assert(small_prime(0) == 2) by {
                reveal(small_prime);
            }
        }
        lemma_scan_accepts_prime(n, i + 1);
    }
}

/// The oracle accepts every prime.
pub proof fn lemma_oracle_accepts_primes(n: u64)
    requires
        is_prime_spec(n as int),
    ensures
        prime_oracle(n),
{
    lemma_table_entries_at_least_two();
    lemma_scan_accepts_prime(n, 0);
}

} // verus!
