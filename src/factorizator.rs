use crate::fermat::lemma_euclid;
use crate::modarith::{gcd, gcd_spec, lemma_gcd_divides, mod_mul, u128_to_u64};
use crate::primality::{
    is_prime, is_prime_spec, lemma_oracle_accepts_primes, lemma_oracle_accepts_table,
    lemma_table_entries_at_least_two, prime_oracle, small_prime, SMALL_PRIMES, SMALL_PRIME_COUNT,
};
use crate::splitmix::{advance, mix, SplitMix64};
use vstd::arithmetic::div_mod::{
    lemma_add_mod_noop_right, lemma_fundamental_div_mod, lemma_mod_multiples_basic, lemma_small_mod,
};
use vstd::prelude::*;

verus! {

/// Largest number of iterations between two gcd computations.
pub const BATCH: u64 = 128;

/// The rho iteration `x * x + c mod n`.
pub open spec fn rho_map(x: int, c: int, n: int) -> int {
    (x * x + c) % n
}

/// One step of the rho iteration, with the square formed in 128 bits.
fn rho_step(x: u64, c: u64, n: u64) -> (r: u64)
    requires
        n > 0,
    ensures
        r as int == rho_map(x as int, c as int, n as int),
        r == rho_u(x, c, n),
{
    let sq = mod_mul(x, x, n);
    proof {
        lemma_add_mod_noop_right(c as int, x as int * x as int, n as int);
    }
    ((sq as u128 + c as u128) % (n as u128)) as u64
}

/// `|a - b|`.
fn abs_diff(a: u64, b: u64) -> (r: u64)
    ensures
        r == abs_diff_spec(a, b),
{
    if a > b {
        a - b
    } else {
        b - a
    }
}

/// One rho step on 64-bit values.
pub open spec fn rho_u(x: u64, c: u64, n: u64) -> u64 {
    rho_map(x as int, c as int, n as int) as u64
}

/// `y` after `k` rho steps.
pub open spec fn rho_iter(y: u64, c: u64, n: u64, k: nat) -> u64
    decreases k,
{
    if k == 0 {
        y
    } else {
        rho_u(rho_iter(y, c, n, (k - 1) as nat), c, n)
    }
}

/// `|a - b|` on 64-bit values.
pub open spec fn abs_diff_spec(a: u64, b: u64) -> u64 {
    if a > b {
        (a - b) as u64
    } else {
        (b - a) as u64
    }
}

/// The gcd accumulator after `t` steps of a batch that starts at `y`: each
/// nonzero `|x - y_i|` is multiplied in modulo `n`.
pub open spec fn batch_q(x: u64, y: u64, c: u64, n: u64, q: u64, t: nat) -> u64
    decreases t,
{
    if t == 0 {
        q
    } else {
        let qp = batch_q(x, y, c, n, q, (t - 1) as nat);
        let d = abs_diff_spec(x, rho_iter(y, c, n, t));
        if d != 0 {
            ((qp as int * d as int) % (n as int)) as u64
        } else {
            qp
        }
    }
}

/// The state of Brent's search: the last gcd, the fixed point `x`, the moving
/// point `y`, the checkpoint `ys` at the start of the last batch, the
/// accumulator `q` and the length of the last batch.
pub struct BrentState {
    pub g: u64,
    pub x: u64,
    pub y: u64,
    pub ys: u64,
    pub q: u64,
    pub last_limit: u64,
}

/// Length of the batch that starts `k` steps into a round of length `r`.
pub open spec fn batch_len(r: u64, k: u64) -> u64 {
    if BATCH < r - k {
        BATCH
    } else {
        (r - k) as u64
    }
}

/// The batches of a round of length `r` from step `k` on, each ending with a
/// gcd; they stop at the end of the round or at the first gcd other than 1.
pub open spec fn round_batches(r: u64, k: u64, n: u64, c: u64, s: BrentState) -> BrentState
    decreases r - k,
{
    if k < r && s.g == 1 {
        let limit = batch_len(r, k);
        let q2 = batch_q(s.x, s.y, c, n, s.q, limit as nat);
        let y2 = rho_iter(s.y, c, n, limit as nat);
        let g2 = gcd_spec(q2 as nat, n as nat) as u64;
        round_batches(
            r,
            (k + limit) as u64,
            n,
            c,
            BrentState { g: g2, x: s.x, y: y2, ys: s.y, q: q2, last_limit: limit },
        )
    } else {
        s
    }
}

/// The round length after `r`: doubled, or 0 once doubling would leave 64 bits.
pub open spec fn next_round(r: u64) -> u64 {
    if r <= u64::MAX / 2 {
        (r * 2) as u64
    } else {
        0
    }
}

/// Rounds of length `r`, `2r`, `4r`, ...: each fixes `x` at the current `y`,
/// advances `y` by the round length and runs the round's batches. They stop at
/// the first gcd other than 1, or when the round length runs out of 64 bits.
pub open spec fn brent_rounds(r: u64, n: u64, c: u64, s: BrentState) -> BrentState
    decreases (if r == 0 {
        0
    } else {
        u64::MAX - r + 1
    }),
{
    if s.g == 1 && r != 0 {
        let s1 = BrentState {
            g: s.g,
            x: s.y,
            y: rho_iter(s.y, c, n, r as nat),
            ys: s.ys,
            q: s.q,
            last_limit: s.last_limit,
        };
        brent_rounds(next_round(r), n, c, round_batches(r, 0, n, c, s1))
    } else {
        s
    }
}

/// Replays up to `left` steps from the checkpoint `ys`, returning the first
/// `gcd(|x - ys|, n)` above 1, or 0 if none comes.
pub open spec fn replay(x: u64, ys: u64, c: u64, n: u64, left: nat) -> u64
    decreases left,
{
    if left == 0 {
        0
    } else {
        let ys2 = rho_u(ys, c, n);
        let g = gcd_spec(abs_diff_spec(x, ys2) as nat, n as nat);
        if g > 1 {
            g as u64
        } else {
            replay(x, ys2, c, n, (left - 1) as nat)
        }
    }
}

/// The result of Brent's search on `n` from start value `y0` with constant
/// `c`: 0 when the rounds run out with every gcd 1; the step-by-step replay of
/// the last batch (0 if it finds nothing) when the batch gcd is `n`; otherwise
/// the batch gcd.
pub open spec fn brent_result(n: u64, y0: u64, c: u64) -> u64 {
    let s = brent_rounds(
        1,
        n,
        c,
        BrentState { g: 1, x: 0, y: y0, ys: 0, q: 1, last_limit: 0 },
    );
    if s.g == 1 {
        0
    } else if s.g == n {
        replay(s.x, s.ys, c, n, s.last_limit as nat)
    } else {
        s.g
    }
}

/// The draw from `1..=n-1` that a stream in state `state` makes next, `n > 2`.
pub open spec fn draw_below(state: u64, n: u64) -> u64 {
    (mix(advance(state)) as int % (n - 1) + 1) as u64
}

/// Searches for a divisor of `n` by Pollard's rho with Brent's cycle detection,
/// drawing the start value and then the additive constant from `rng`.
/// Multiples of 2 and 3 are answered directly. Otherwise the result is
/// `brent_result` on the two draws: a divisor of `n` that is at least 2
/// (possibly `n` itself), or 0 when the search gives up, that is when the
/// doubling round length would leave 64 bits, or when replaying a collapsed
/// batch step by step meets no common factor.
pub fn pollard_brent(n: u64, rng: &mut SplitMix64) -> (r: u64)
    requires
        n > 1,
    ensures
        r == 0 || (2 <= r && n % r == 0),
        n % 2 == 0 ==> r == 2,
        n % 2 != 0 && n % 3 == 0 ==> r == 3,
        n % 2 != 0 && n % 3 != 0 ==> r == brent_result(
            n,
            draw_below(old(rng).state(), n),
            draw_below(advance(old(rng).state()), n),
        ),
        n % 2 == 0 || n % 3 == 0 ==> final(rng).state() == old(rng).state(),
        n % 2 != 0 && n % 3 != 0 ==> final(rng).state() == advance(advance(old(rng).state())),
{
    if n % 2 == 0 {
        return 2;
    }
    if n % 3 == 0 {
        return 3;
    }
    let mut y = rng.gen_range_1_to_n_minus_1(n);
    let c = rng.gen_range_1_to_n_minus_1(n);
    let m: u64 = BATCH;
    let mut g: u64 = 1;
    let mut r: u64 = 1;
    let mut q: u64 = 1;
    let mut x: u64 = 0;
    let mut ys: u64 = 0;
    let mut last_limit: u64 = 0;
    let ghost target = brent_rounds(
        1,
        n,
        c,
        BrentState { g: 1, x: 0, y: y, ys: 0, q: 1, last_limit: 0 },
    );

    while g == 1 && r != 0
        invariant
            n > 1,
            m == BATCH,
            g == 1 || (2 <= g && n % g == 0),
            target == brent_rounds(
                r,
                n,
                c,
                BrentState { g: g, x: x, y: y, ys: ys, q: q, last_limit: last_limit },
            ),
        decreases (if r == 0 {
            0
        } else {
            u64::MAX - r + 1
        }),
    {
        x = y;
        let mut i: u64 = 0;
        while i < r
            invariant
                n > 1,
                i <= r,
                y == rho_iter(x, c, n, i as nat),
            decreases r - i,
        {
            y = rho_step(y, c, n);
            i = i + 1;
        }
        let ghost after_round = round_batches(
            r,
            0,
            n,
            c,
            BrentState { g: g, x: x, y: y, ys: ys, q: q, last_limit: last_limit },
        );
        assert(target == brent_rounds(next_round(r), n, c, after_round));
        let mut k: u64 = 0;
        while k < r && g == 1
            invariant
                n > 1,
                m == BATCH,
                k <= r,
                g == 1 || (2 <= g && n % g == 0),
                after_round == round_batches(
                    r,
                    k,
                    n,
                    c,
                    BrentState { g: g, x: x, y: y, ys: ys, q: q, last_limit: last_limit },
                ),
            decreases r - k,
        {
            ys = y;
            let limit = if m < r - k {
                m
            } else {
                r - k
            };
            assert(limit == batch_len(r, k));
            let ghost q0 = q;
            let mut t: u64 = 0;
            while t < limit
                invariant
                    n > 1,
                    t <= limit,
                    y == rho_iter(ys, c, n, t as nat),
                    q == batch_q(x, ys, c, n, q0, t as nat),
                decreases limit - t,
            {
                y = rho_step(y, c, n);
                let diff = abs_diff(x, y);
                if diff != 0 {
                    q = mod_mul(q, diff, n);
                }
                t = t + 1;
            }
            g = gcd(u128_to_u64(q as u128), n);
            proof {
                lemma_gcd_divides(q as nat, n as nat);
            }
            k = k + limit;
            last_limit = limit;
        }
        r = if r <= u64::MAX / 2 {
            r * 2
        } else {
            0
        };
    }
    if g == 1 {
        return 0;
    }
    if g == n {
        // The batch that ended at `g == n` is replayed one step at a time from
        // its checkpoint; one of its steps shares a proper factor with `n`.
        let ghost answer = replay(x, ys, c, n, last_limit as nat);
        let mut found = false;
        let mut t: u64 = 0;
        while !found && t < last_limit
            invariant
                n > 1,
                t <= last_limit,
                found ==> 2 <= g && n % g == 0 && g == answer,
                !found ==> answer == replay(x, ys, c, n, (last_limit - t) as nat),
            decreases last_limit - t + (if found {
                0int
            } else {
                1int
            }),
        {
            ys = rho_step(ys, c, n);
            let diff = abs_diff(x, ys);
            g = gcd(diff, n);
            proof {
                lemma_gcd_divides(diff as nat, n as nat);
            }
            if g > 1 {
                found = true;
            }
            t = t + 1;
        }
        if !found {
            return 0;
        }
    }
    g
}

/// The product of the entries of `s`.
pub open spec fn product(s: Seq<u64>) -> int
    decreases s.len(),
{
    if s.len() == 0 {
        1
    } else {
        product(s.drop_last()) * s.last()
    }
}

/// `s` is in ascending order.
pub open spec fn ascending(s: Seq<u64>) -> bool {
    forall|i: int, j: int| 0 <= i <= j < s.len() ==> s[i] <= s[j]
}

/// Sum of `2 * x - 1` over the entries: shrinks whenever a candidate is
/// resolved or split.
pub open spec fn stack_weight(s: Seq<u64>) -> nat
    decreases s.len(),
{
    if s.len() == 0 {
        0
    } else {
        stack_weight(s.drop_last()) + (2 * s.last() - 1) as nat
    }
}

/// Seed of the stream, mixed with the value to factor.
pub const SEED_BASE: u64 = 0x9E3779B97f4A7C15;

/// Number of randomized attempts after which trial division backs them up.
pub const MAX_TRIES: u32 = 8;

/// Appending `x` multiplies the product by `x` and adds `2 * x - 1` to the weight.
proof fn lemma_product_push(s: Seq<u64>, x: u64)
    ensures
        product(s.push(x)) == product(s) * x,
        stack_weight(s.push(x)) == stack_weight(s) + (2 * x - 1) as nat,
{
    assert(s.push(x).drop_last() =~= s);
}

/// Inserting `x` anywhere multiplies the product by `x`.
proof fn lemma_product_insert(s: Seq<u64>, j: int, x: u64)
    requires
        0 <= j <= s.len(),
    ensures
        product(s.insert(j, x)) == product(s) * x,
    decreases s.len(),
{
    if j == s.len() {
        assert(s.insert(j, x) =~= s.push(x));
        lemma_product_push(s, x);
    } else {
        let t = s.insert(j, x);
        assert(t.drop_last() =~= s.drop_last().insert(j, x));
        assert(t.last() == s.last());
        lemma_product_insert(s.drop_last(), j, x);
        let a = product(s.drop_last());
        assert(product(t) == (a * x) * s.last());
        assert((a * x) * s.last() == (a * s.last()) * x) by (nonlinear_arith);
    }
}

/// An odd `m >= 2` with no odd divisor `c` in `3..cand` and `cand * cand > m`
/// is prime.
proof fn lemma_trial_division_prime(m: int, cand: int)
    requires
        m >= 2,
        m % 2 == 1,
        cand >= 3,
        cand * cand > m,
        forall|c: int| 3 <= c < cand && c % 2 == 1 ==> #[trigger] (m % c) != 0,
    ensures
        is_prime_spec(m),
{
    assert forall|d: int| 2 <= d < m implies #[trigger] (m % d) != 0 by {
        if m % d == 0 {
            let sm = crate::primality::lemma_small_factor(m, d);
            if sm % 2 == 0 {
                lemma_fundamental_div_mod(m, sm);
                lemma_fundamental_div_mod(sm, 2);
                let k = (sm / 2) * (m / sm);
                assert(m == 2 * k) by (nonlinear_arith)
                    requires
                        m == sm * (m / sm),
                        sm == 2 * (sm / 2),
                        k == (sm / 2) * (m / sm),
                ;
                lemma_mod_multiples_basic(k, 2);
            } else {
                if sm >= cand {
                    assert(sm * sm >= cand * cand) by (nonlinear_arith)
                        requires
                            sm >= cand,
                            cand >= 3,
                    ;
                }
            }
        }
    }
}

/// Sorts by insertion into a fresh vector.
fn sort_ascending(v: &Vec<u64>) -> (r: Vec<u64>)
    ensures
        ascending(r@),
        r@.len() == v@.len(),
        product(r@) == product(v@),
        forall|i: int| 0 <= i < r@.len() ==> v@.contains(#[trigger] r@[i]),
{
    let mut out: Vec<u64> = Vec::new();
    let mut i: usize = 0;
    while i < v.len()
        invariant
            i <= v@.len(),
            out@.len() == i,
            ascending(out@),
            product(out@) == product(v@.subrange(0, i as int)),
            forall|k: int| 0 <= k < out@.len() ==> v@.contains(#[trigger] out@[k]),
        decreases v@.len() - i,
    {
        let x = v[i];
        let mut j: usize = 0;
        while j < out.len() && out[j] <= x
            invariant
                j <= out@.len(),
                forall|k: int| 0 <= k < j ==> out@[k] <= x,
            decreases out@.len() - j,
        {
            j = j + 1;
        }
        proof {
            lemma_product_insert(out@, j as int, x);
            let pre = v@.subrange(0, i as int);
            assert(v@.subrange(0, i + 1) =~= pre.push(x));
            lemma_product_push(pre, x);
            assert(v@.contains(x));
        }
        let ghost before = out@;
        out.insert(j, x);
        assert(out@ == before.insert(j as int, x));
        assert forall|a: int, b: int| 0 <= a <= b < out@.len() implies out@[a] <= out@[b] by {
            if a < j as int && b > j as int {
                assert(out@[a] == before[a]);
                assert(out@[b] == before[b - 1]);
            }
        }
        assert forall|k: int| 0 <= k < out@.len() implies v@.contains(#[trigger] out@[k]) by {
            if k < j as int {
                assert(out@[k] == before[k]);
            } else if k > j as int {
                assert(out@[k] == before[k - 1]);
            }
        }
        i = i + 1;
    }
    assert(v@.subrange(0, v@.len() as int) =~= v@);
    out
}

/// The prime factors of `n` with multiplicity, ascending; empty for `n <= 1`.
///
/// Small primes are divided out first; what remains is split by Pollard's rho
/// on an explicit work stack, each piece going to the result once the oracle
/// accepts it. A piece that the randomized search fails to split
/// `MAX_TRIES + 1` times in a row is trial-divided by odd numbers; when that
/// finds no divisor either, the piece is prime and goes to the result as it is.
pub fn factor(n: u64) -> (r: Vec<u64>)
    ensures
        n <= 1 ==> r@ == Seq::<u64>::empty(),
        n > 1 ==> product(r@) == n,
        ascending(r@),
        forall|i: int| 0 <= i < r@.len() ==> prime_oracle(#[trigger] r@[i]),
{
    if n <= 1 {
        return Vec::new();
    }
    let ghost n0 = n as int;
    let mut n = n;
    let mut res: Vec<u64> = Vec::new();
    proof {
        lemma_table_entries_at_least_two();
        lemma_oracle_accepts_table();
    }

    let mut i: usize = 0;
    while i < SMALL_PRIME_COUNT
        invariant
            n >= 1,
            i <= SMALL_PRIME_COUNT,
            product(res@) * n == n0,
            forall|k: int| 0 <= k < res@.len() ==> prime_oracle(#[trigger] res@[k]),
            forall|k: int| 0 <= k < SMALL_PRIME_COUNT ==> 2 <= #[trigger] small_prime(k) <= 997,
            forall|k: int| 0 <= k < SMALL_PRIME_COUNT ==> prime_oracle(#[trigger] small_prime(k)),
        decreases SMALL_PRIME_COUNT - i,
    {
        let p = SMALL_PRIMES[i];
        assert(p == small_prime(i as int)) by {
            reveal(small_prime);
        }
        assert((p as int) * (p as int) <= 997 * 997) by (nonlinear_arith)
            requires
                2 <= p <= 997,
        ;
        if (p as u128) * (p as u128) > n as u128 {
            break;
        }
        while n % p == 0
            invariant
                n >= 1,
                2 <= p,
                prime_oracle(p),
                product(res@) * n == n0,
                forall|k: int| 0 <= k < res@.len() ==> prime_oracle(#[trigger] res@[k]),
            decreases n,
        {
            proof {
                lemma_fundamental_div_mod(n as int, p as int);
                lemma_product_push(res@, p);
                let a = product(res@);
                assert(a * p * (n / p) == a * n) by (nonlinear_arith)
                    requires
                        n == p * (n / p),
                ;
                assert(n / p < n) by (nonlinear_arith)
                    requires
                        n == p * (n / p),
                        n >= 1,
                        p >= 2,
                ;
                assert(n / p >= 1) by (nonlinear_arith)
                    requires
                        n == p * (n / p),
                        n >= 1,
                        p >= 2,
                ;
            }
            res.push(p);
            n = n / p;
        }
        i = i + 1;
    }

    if n == 1 {
        let sorted = sort_ascending(&res);
        return sorted;
    }

    let mut stack: Vec<u64> = Vec::new();
    stack.push(n);
    proof {
        lemma_product_push(Seq::<u64>::empty(), n);
        assert(Seq::<u64>::empty().push(n) =~= stack@);
    }
    let mut rng = SplitMix64::new(SEED_BASE ^ n);

    while stack.len() > 0
        invariant
            product(res@) * product(stack@) == n0,
            forall|k: int| 0 <= k < res@.len() ==> prime_oracle(#[trigger] res@[k]),
            forall|k: int| 0 <= k < stack@.len() ==> #[trigger] stack@[k] >= 1,
        decreases stack_weight(stack@),
    {
        let ghost before = stack@;
        let m = stack.pop().unwrap();
        proof {
            assert(before =~= stack@.push(m));
            lemma_product_push(stack@, m);
            assert(product(res@) * product(stack@) * m == n0) by (nonlinear_arith)
                requires
                    product(res@) * product(before) == n0,
                    product(before) == product(stack@) * m,
            ;
        }
        if m == 1 {
            assert(product(res@) * product(stack@) == n0) by (nonlinear_arith)
                requires
                    product(res@) * product(stack@) * m == n0,
                    m == 1,
            ;
            continue;
        }
        if is_prime(m) {
            proof {
                lemma_product_push(res@, m);
                assert(product(res@) * m * product(stack@) == n0) by (nonlinear_arith)
                    requires
                        product(res@) * product(stack@) * m == n0,
                ;
            }
            res.push(m);
            continue;
        }
        let ghost res_before = res@;
        let mut d = pollard_brent(m, &mut rng);
        proof {
            if d > m {
                lemma_small_mod(m as nat, d as nat);
            }
        }
        let mut tries: u32 = 0;
        while d == 0 || d == 1 || d == m
            invariant_except_break
                res@ == res_before,
                d == 0 || (2 <= d && d <= m && m % d == 0),
            invariant
                m >= 2,
                tries <= MAX_TRIES + 1,
                tries > MAX_TRIES ==> d != 0 && d != m,
            ensures
                (d == 1 && res@ == res_before.push(m) && prime_oracle(m)) || (res@
                    == res_before && 2 <= d < m && m % d == 0),
            decreases MAX_TRIES + 1 - tries,
        {
            rng.next_u64();
            d = pollard_brent(m, &mut rng);
            proof {
                if d > m {
                    lemma_small_mod(m as nat, d as nat);
                }
            }
            let ghost drawn = d;
            tries = tries + 1;
            if tries > MAX_TRIES {
                let mut candidate: u64 = 3;
                let mut found = false;
                assert(candidate as int * candidate as int <= 0x1_0000_0002_0000_0001);
                while !found && (candidate as u128) * (candidate as u128) <= m as u128
                    invariant
                        m >= 2,
                        candidate >= 3,
                        candidate % 2 == 1,
                        candidate <= 0x1_0000_0001,
                        candidate as int * candidate as int <= 0x1_0000_0002_0000_0001,
                        !found ==> d == drawn,
                        found ==> 3 <= d < m && m % d == 0,
                        forall|c: int| 3 <= c < candidate && c % 2 == 1 ==> #[trigger] ((m as int) % c) != 0,
                    decreases 2 * (0x1_0000_0001 - candidate) + (if found {
                        0int
                    } else {
                        1int
                    }),
                {
                    assert(candidate < 0x1_0000_0000) by (nonlinear_arith)
                        requires
                            candidate as int * candidate as int <= m as int,
                            m < 0x1_0000_0000_0000_0000,
                            candidate >= 3,
                    ;
                    if m % candidate == 0 {
                        assert(candidate < m) by (nonlinear_arith)
                            requires
                                candidate as int * candidate as int <= m,
                                candidate >= 3,
                        ;
                        d = candidate;
                        found = true;
                    } else {
                        candidate = candidate + 2;
                        assert(candidate as int * candidate as int <= 0x1_0000_0002_0000_0001)
                            by (nonlinear_arith)
                            requires
                                candidate <= 0x1_0000_0001,
                                candidate >= 0,
                        ;
                    }
                }
                if d == m || d == 0 {
                    proof {
                        if m % 2 == 0 {
                            assert(m == 2);
                        } else {
                            lemma_trial_division_prime(m as int, candidate as int);
                        }
                        lemma_oracle_accepts_primes(m);
                    }
                    res.push(m);
                    d = 1;
                    break;
                }
            }
        }
        if d == 1 {
            proof {
                lemma_product_push(res_before, m);
                assert(product(res_before) * m * product(stack@) == n0) by (nonlinear_arith)
                    requires
                        product(res_before) * product(stack@) * m == n0,
                ;
            }
            continue;
        }
        let other = m / d;
        proof {
            lemma_fundamental_div_mod(m as int, d as int);
            assert(other >= 2) by (nonlinear_arith)
                requires
                    m == d * other,
                    d < m,
                    d >= 2,
            ;
        }
        let big = if d > other {
            d
        } else {
            other
        };
        let small = if d > other {
            other
        } else {
            d
        };
        let ghost popped = stack@;
        stack.push(big);
        stack.push(small);
        proof {
            lemma_product_push(popped, big);
            lemma_product_push(popped.push(big), small);
            assert(big * small == m) by (nonlinear_arith)
                requires
                    m == d * other,
                    (big == d && small == other) || (big == other && small == d),
            ;
            assert(product(res@) * product(stack@) == n0) by (nonlinear_arith)
                requires
                    product(stack@) == product(popped) * big * small,
                    big * small == m,
                    product(res@) * product(popped) * m == n0,
            ;
            assert(2 * big + 2 * small - 2 < 2 * m - 1) by (nonlinear_arith)
                requires
                    big * small == m,
                    big >= 2,
                    small >= 2,
            ;
        }
    }
    let sorted = sort_ascending(&res);
    sorted
}

/// A product of numbers that are at least 2 is at least 1, and more than 1
/// unless there are none.
proof fn lemma_product_lower(s: Seq<u64>)
    requires
        forall|i: int| 0 <= i < s.len() ==> #[trigger] s[i] >= 2,
    ensures
        product(s) >= 1,
        s.len() > 0 ==> product(s) >= 2,
    decreases s.len(),
{
    if s.len() > 0 {
        let t = s.drop_last();
        assert forall|i: int| 0 <= i < t.len() implies #[trigger] t[i] >= 2 by {
            assert(t[i] == s[i]);
        }
        lemma_product_lower(t);
        assert(product(t) * s.last() >= 2) by (nonlinear_arith)
            requires
                product(t) >= 1,
                s.last() >= 2,
        ;
    }
}

/// A prime dividing a product of primes is one of them.
proof fn lemma_prime_divides_product(p: int, s: Seq<u64>) -> (j: int)
    requires
        is_prime_spec(p),
        forall|i: int| 0 <= i < s.len() ==> is_prime_spec(#[trigger] s[i] as int),
        product(s) % p == 0,
    ensures
        0 <= j < s.len(),
        s[j] == p,
    decreases s.len(),
{
    let t = s.drop_last();
    if s.len() == 0 {
        vstd::arithmetic::div_mod::lemma_small_mod(1, p as nat);
        0
    } else {
        lemma_euclid(p, product(t), s.last() as int);
        if (s.last() as int) % p == 0 && s.last() != p {
            if (s.last() as int) < p {
                lemma_small_mod(s.last() as nat, p as nat);
            }
            assert(is_prime_spec(s[s.len() - 1] as int));
            assert((s.last() as int) % p != 0);
        }
        if s.last() == p {
            s.len() - 1
        } else {
            assert forall|i: int| 0 <= i < t.len() implies is_prime_spec(#[trigger] t[i] as int) by {
                assert(t[i] == s[i]);
            }
            lemma_prime_divides_product(p, t)
        }
    }
}

/// Factorization into primes is unique: two ascending sequences of primes
/// with the same product are equal.
pub proof fn lemma_prime_factorization_unique(s: Seq<u64>, t: Seq<u64>)
    requires
        ascending(s),
        ascending(t),
        product(s) == product(t),
        forall|i: int| 0 <= i < s.len() ==> is_prime_spec(#[trigger] s[i] as int),
        forall|i: int| 0 <= i < t.len() ==> is_prime_spec(#[trigger] t[i] as int),
    ensures
        s == t,
    decreases s.len(),
{
    assert forall|i: int| 0 <= i < s.len() implies #[trigger] s[i] >= 2 by {
        assert(is_prime_spec(s[i] as int));
    }
    assert forall|i: int| 0 <= i < t.len() implies #[trigger] t[i] >= 2 by {
        assert(is_prime_spec(t[i] as int));
    }
    lemma_product_lower(s);
    lemma_product_lower(t);
    if s.len() == 0 || t.len() == 0 {
        assert(s.len() == 0 && t.len() == 0);
        assert(s =~= t);
    } else {
        let p = s.last();
        let q = t.last();
        let s1 = s.drop_last();
        let t1 = t.drop_last();
        lemma_mod_multiples_basic(product(s1), p as int);
        lemma_mod_multiples_basic(product(t1), q as int);
        let j = lemma_prime_divides_product(p as int, t);
        let k = lemma_prime_divides_product(q as int, s);
        assert(t[j] <= q);
        assert(s[k] <= p);
        assert(p == q);
        assert(product(s1) == product(t1)) by (nonlinear_arith)
            requires
                product(s1) * p == product(t1) * q,
                p == q,
                p >= 2,
        ;
        assert forall|i: int| 0 <= i < s1.len() implies is_prime_spec(#[trigger] s1[i] as int) by {
            assert(s1[i] == s[i]);
        }
        assert forall|i: int| 0 <= i < t1.len() implies is_prime_spec(#[trigger] t1[i] as int) by {
            assert(t1[i] == t[i]);
        }
        lemma_prime_factorization_unique(s1, t1);
        assert(s =~= s1.push(p));
        assert(t =~= t1.push(q));
    }
}

} // verus!
