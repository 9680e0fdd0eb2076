//! The linear congruential generator that flavours the recommendation stream.

use vstd::prelude::*;
use vstd::arithmetic::div_mod::{
    lemma_fundamental_div_mod, lemma_fundamental_div_mod_converse_mod, lemma_mod_multiples_vanish,
    lemma_mul_mod_noop, lemma_small_mod,
};
use vstd::arithmetic::power2::{lemma2_to64, lemma_pow2_pos, lemma_pow2_unfold, pow2};

verus! {

/// Multiplier of the generator (Knuth's MMIX constant).
pub const LCG_MULTIPLIER: u64 = 6364136223846793005u64;

/// Increment of the generator.
pub const LCG_INCREMENT: u64 = 1442695040888963407u64;

/// One step of the generator: `s * A + C` modulo 2^64.
pub open spec fn lcg_step(s: u64) -> u64 {
    ((s as int * LCG_MULTIPLIER as int + LCG_INCREMENT as int) % 0x1_0000_0000_0000_0000int) as u64
}

/// The state after `n` steps from `s`.
pub open spec fn lcg_iterate(s: u64, n: nat) -> u64
    decreases n,
{
    if n == 0 {
        s
    } else {
        lcg_step(lcg_iterate(s, (n - 1) as nat))
    }
}

proof fn lemma_wrapping_step(s: u64)
    ensures
        vstd::wrapping::u64_specs::wrapping_add(
            vstd::wrapping::u64_specs::wrapping_mul(s, LCG_MULTIPLIER),
            LCG_INCREMENT,
        ) == lcg_step(s),
{
    let m: int = 0x1_0000_0000_0000_0000int;
    let p: int = s as int * LCG_MULTIPLIER as int;
    let q: int = p % m;
    let c: int = LCG_INCREMENT as int;
    assert(p >= 0) by (nonlinear_arith)
        requires
            p == s as int * LCG_MULTIPLIER as int,
    ;
    vstd::arithmetic::div_mod::lemma_add_mod_noop(p, c, m);
    vstd::arithmetic::div_mod::lemma_mod_twice(c, m);
    assert(0 <= q < m) by {
        vstd::arithmetic::div_mod::lemma_mod_bound(p, m);
    }
    assert(c % m == c) by {
        vstd::arithmetic::div_mod::lemma_small_mod(c as nat, m as nat);
    }
    if q + c >= m {
        vstd::arithmetic::div_mod::lemma_mod_sub_multiples_vanish(q + c, m);
        assert((q + c - m) % m == q + c - m) by {
            vstd::arithmetic::div_mod::lemma_small_mod((q + c - m) as nat, m as nat);
        }
    } else {
        assert((q + c) % m == q + c) by {
            vstd::arithmetic::div_mod::lemma_small_mod((q + c) as nat, m as nat);
        }
    }
}

/// Advances `seed` by one step of the generator and returns the new state.
/// The caller scales the state into `[0, 1]` by dividing by `u64::MAX`.
pub fn lightweight_random(seed: &mut u64) -> (r: u64)
    ensures
        *final(seed) == lcg_step(*old(seed)),
        r == *final(seed),
        r as int == (*old(seed) as int * 6364136223846793005 + 1442695040888963407) % 0x1_0000_0000_0000_0000int,
{
    proof {
        lemma_wrapping_step(*seed);
    }
    *seed = seed.wrapping_mul(LCG_MULTIPLIER).wrapping_add(LCG_INCREMENT);
    *seed
}

/// `a` raised to the power `k`.
pub open spec fn power(a: int, k: nat) -> int
    decreases k,
{
    if k == 0 {
        1
    } else {
        a * power(a, (k - 1) as nat)
    }
}

/// The geometric sum `1 + a + ... + a^(k-1)`.
pub open spec fn geometric(a: int, k: nat) -> int
    decreases k,
{
    if k == 0 {
        0
    } else {
        a * geometric(a, (k - 1) as nat) + 1
    }
}

proof fn lemma_geometric_split(a: int, m: nat, n: nat)
    ensures
        geometric(a, m + n) == power(a, n) * geometric(a, m) + geometric(a, n),
    decreases n,
{
    if n > 0 {
        lemma_geometric_split(a, m, (n - 1) as nat);
        let x = power(a, (n - 1) as nat);
        let y = geometric(a, m);
        let z = geometric(a, (n - 1) as nat);
        assert(geometric(a, (m + n - 1) as nat) == x * y + z);
        assert(a * (x * y + z) + 1 == (a * x) * y + (a * z + 1)) by (nonlinear_arith);
        assert((m + n - 1) as nat + 1 == m + n);
    }
}

proof fn lemma_power_minus_one(a: int, k: nat)
    ensures
        power(a, k) - 1 == (a - 1) * geometric(a, k),
    decreases k,
{
    if k > 0 {
        lemma_power_minus_one(a, (k - 1) as nat);
        let p = power(a, (k - 1) as nat);
        let g = geometric(a, (k - 1) as nat);
        assert(a * p - 1 == (a - 1) * (a * g + 1)) by (nonlinear_arith)
            requires
                p - 1 == (a - 1) * g,
        ;
    }
}

proof fn lemma_power_mod_four(a: int, k: nat)
    requires
        a % 4 == 1,
    ensures
        power(a, k) % 4 == 1,
    decreases k,
{
    if k > 0 {
        lemma_power_mod_four(a, (k - 1) as nat);
        lemma_mul_mod_noop(a, power(a, (k - 1) as nat), 4);
    }
}

proof fn lemma_geometric_parity(a: int, k: nat)
    requires
        a % 2 == 1,
    ensures
        geometric(a, k) % 2 == k % 2,
    decreases k,
{
    if k > 0 {
        let g = geometric(a, (k - 1) as nat);
        lemma_geometric_parity(a, (k - 1) as nat);
        lemma_mul_mod_noop(a, g, 2);
        lemma_fundamental_div_mod(a * g, 2);
        lemma_fundamental_div_mod(k - 1, 2);
        lemma_fundamental_div_mod_converse_mod(a * g + 1, 2, (a * g) / 2 + (g % 2 + 1) / 2, (g % 2 + 1) % 2);
        lemma_fundamental_div_mod_converse_mod(k as int, 2, (k - 1) / 2 + ((k - 1) % 2 + 1) / 2, ((k - 1) % 2 + 1) % 2);
    }
}

/// A multiple of `d` leaves no remainder when divided by `d`.
proof fn lemma_divides_multiple(x: int, d: int, q: int)
    requires
        d > 0,
        x == d * q,
    ensures
        x % d == 0,
{
    assert(x == q * d + 0) by (nonlinear_arith)
        requires
            x == d * q,
    ;
    lemma_fundamental_div_mod_converse_mod(x, d, q, 0);
}

proof fn lemma_divisible_gives_quotient(x: int, d: int)
    requires
        d > 0,
        x % d == 0,
    ensures
        x == d * (x / d),
{
    lemma_fundamental_div_mod(x, d);
}

proof fn lemma_double_divides(y: int, p: int)
    requires
        p > 0,
    ensures
        ((2 * y) % (2 * p) == 0) == (y % p == 0),
{
    lemma_fundamental_div_mod(y, p);
    let q = y / p;
    let r = y % p;
    assert(2 * y == (2 * p) * q + 2 * r) by (nonlinear_arith)
        requires
            y == p * q + r,
    ;
    lemma_fundamental_div_mod_converse_mod(2 * y, 2 * p, q, 2 * r);
}

proof fn lemma_odd_not_divisible(y: int, j: nat)
    requires
        y % 2 == 1,
        j > 0,
    ensures
        y % (pow2(j) as int) != 0,
{
    lemma_pow2_unfold(j);
    lemma_pow2_pos((j - 1) as nat);
    let big = pow2(j) as int;
    let small = pow2((j - 1) as nat) as int;
    if y % big == 0 {
        lemma_divisible_gives_quotient(y, big);
        let q = y / big;
        assert(y == 2 * (small * q)) by (nonlinear_arith)
            requires
                y == big * q,
                big == 2 * small,
        ;
        lemma_divides_multiple(y, 2, small * q);
    }
}

proof fn lemma_odd_factor(x: int, u: int, j: nat)
    requires
        u % 2 == 1,
    ensures
        ((x * u) % (pow2(j) as int) == 0) == (x % (pow2(j) as int) == 0),
    decreases j,
{
    lemma_pow2_pos(j);
    let big = pow2(j) as int;
    if j == 0 {
        assert(big == 1) by {
            vstd::arithmetic::power2::lemma_pow2(0);
            vstd::arithmetic::power::lemma_pow0(2);
        }
        lemma_divides_multiple(x * u, 1, x * u);
        lemma_divides_multiple(x, 1, x);
    } else {
        lemma_pow2_unfold(j);
        lemma_pow2_pos((j - 1) as nat);
        let small = pow2((j - 1) as nat) as int;
        if x % big == 0 {
            lemma_divisible_gives_quotient(x, big);
            let q = x / big;
            assert(x * u == big * (q * u)) by (nonlinear_arith)
                requires
                    x == big * q,
            ;
            lemma_divides_multiple(x * u, big, q * u);
        }
        if (x * u) % big == 0 {
            // `x * u` is even, so `x` is even.
            lemma_divisible_gives_quotient(x * u, big);
            let q = (x * u) / big;
            assert(x * u == 2 * (small * q)) by (nonlinear_arith)
                requires
                    x * u == big * q,
                    big == 2 * small,
            ;
            lemma_divides_multiple(x * u, 2, small * q);
            lemma_mul_mod_noop(x, u, 2);
            lemma_fundamental_div_mod(x, 2);
            assert(x % 2 == 0);
            let h = x / 2;
            assert(x == 2 * h);
            assert(x * u == 2 * (h * u)) by (nonlinear_arith)
                requires
                    x == 2 * h,
            ;
            lemma_double_divides(h * u, small);
            lemma_odd_factor(h, u, (j - 1) as nat);
            lemma_double_divides(h, small);
        }
    }
}

/// For `a` of the form `4q + 1`, the geometric sum of `k` terms is divisible
/// by `2^j` exactly when `k` is.
proof fn lemma_geometric_two_adic(a: int, k: nat, j: nat)
    requires
        a % 4 == 1,
    ensures
        (geometric(a, k) % (pow2(j) as int) == 0) == ((k as int) % (pow2(j) as int) == 0),
    decreases k,
{
    lemma_pow2_pos(j);
    let big = pow2(j) as int;
    assert(a % 2 == 1) by {
        lemma_fundamental_div_mod(a, 4);
        lemma_fundamental_div_mod_converse_mod(a, 2, 2 * (a / 4), 1);
    }
    if k == 0 {
        lemma_divides_multiple(0, big, 0);
    } else if j == 0 {
        assert(big == 1) by {
            vstd::arithmetic::power2::lemma_pow2(0);
            vstd::arithmetic::power::lemma_pow0(2);
        }
        lemma_divides_multiple(geometric(a, k), 1, geometric(a, k));
        lemma_divides_multiple(k as int, 1, k as int);
    } else if k % 2 == 1 {
        lemma_geometric_parity(a, k);
        lemma_odd_not_divisible(geometric(a, k), j);
        lemma_odd_not_divisible(k as int, j);
    } else {
        let m = (k / 2) as nat;
        lemma_fundamental_div_mod(k as int, 2);
        assert(k == m + m);
        lemma_geometric_split(a, m, m);
        let g = geometric(a, m);
        let p = power(a, m);
        lemma_power_mod_four(a, m);
        lemma_fundamental_div_mod(p, 4);
        let r = p / 4;
        let u = 2 * r + 1;
        assert(geometric(a, k) == 2 * (g * u)) by (nonlinear_arith)
            requires
                geometric(a, k) == p * g + g,
                p == 4 * r + 1,
                u == 2 * r + 1,
        ;
        lemma_fundamental_div_mod_converse_mod(u, 2, r, 1);
        lemma_pow2_unfold(j);
        lemma_pow2_pos((j - 1) as nat);
        let small = pow2((j - 1) as nat) as int;
        lemma_double_divides(g * u, small);
        lemma_odd_factor(g, u, (j - 1) as nat);
        lemma_geometric_two_adic(a, m, (j - 1) as nat);
        assert(k as int == 2 * (m as int));
        lemma_double_divides(m as int, small);
    }
}

/// The state after `k` steps in closed form:
/// `A^k s + C (1 + A + ... + A^(k-1))` modulo 2^64.
proof fn lemma_iterate_closed_form(s: u64, k: nat)
    ensures
        lcg_iterate(s, k) as int == (power(LCG_MULTIPLIER as int, k) * s + LCG_INCREMENT as int * geometric(
            LCG_MULTIPLIER as int,
            k,
        )) % 0x1_0000_0000_0000_0000int,
    decreases k,
{
    let m: int = 0x1_0000_0000_0000_0000int;
    let a: int = LCG_MULTIPLIER as int;
    let c: int = LCG_INCREMENT as int;
    if k == 0 {
        lemma_small_mod(s as nat, m as nat);
    } else {
        lemma_iterate_closed_form(s, (k - 1) as nat);
        let p = power(a, (k - 1) as nat);
        let g = geometric(a, (k - 1) as nat);
        let y = p * s + c * g;
        let x = lcg_iterate(s, (k - 1) as nat) as int;
        assert(x == y % m);
        lemma_fundamental_div_mod(y, m);
        let t = y / m;
        assert(x * a + c == m * (-(t * a)) + (y * a + c)) by (nonlinear_arith)
            requires
                y == m * t + x,
        ;
        lemma_mod_multiples_vanish(-(t * a), y * a + c, m);
        assert(y * a + c == (a * p) * s + c * (a * g + 1)) by (nonlinear_arith)
            requires
                y == p * s + c * g,
        ;
    }
}

proof fn lemma_iterate_compose(s: u64, i: nat, d: nat)
    ensures
        lcg_iterate(s, i + d) == lcg_iterate(lcg_iterate(s, i), d),
    decreases d,
{
    if d > 0 {
        lemma_iterate_compose(s, i, (d - 1) as nat);
        assert((i + d - 1) as nat + 1 == i + d);
    }
}

/// The generator has full period 2^64: starting from any seed, the seed
/// comes back after `k` steps exactly when `k` is a multiple of 2^64.
pub proof fn lemma_full_period(s: u64, k: nat)
    ensures
        (lcg_iterate(s, k) == s) == (k % 0x1_0000_0000_0000_0000nat == 0),
{
    let m: int = 0x1_0000_0000_0000_0000int;
    let a: int = LCG_MULTIPLIER as int;
    let c: int = LCG_INCREMENT as int;
    lemma2_to64();
    assert(pow2(64) as int == m);
    lemma_iterate_closed_form(s, k);
    let p = power(a, k);
    let g = geometric(a, k);
    let x = p * s + c * g;
    lemma_power_minus_one(a, k);
    let w = (a - 1) * s + c;
    assert(x - s == g * w) by (nonlinear_arith)
        requires
            p - 1 == (a - 1) * g,
            x == p * s + c * g,
            w == (a - 1) * s + c,
    ;
    assert(w % 2 == 1) by {
        assert(a == 6364136223846793005);
        assert(c == 1442695040888963407);
        assert(w == 2 * (3182068111923396502 * s + 721347520444481703) + 1) by (nonlinear_arith)
            requires
                w == (a - 1) * s + c,
                a == 6364136223846793005,
                c == 1442695040888963407,
        ;
        lemma_fundamental_div_mod_converse_mod(w, 2, 3182068111923396502 * s + 721347520444481703, 1);
    }
    // The seed comes back exactly when `x - s` is a multiple of 2^64.
    lemma_fundamental_div_mod(x, m);
    if lcg_iterate(s, k) == s {
        assert(x == m * (x / m) + s);
        lemma_divides_multiple(x - s, m, x / m);
    }
    if (x - s) % m == 0 {
        lemma_divisible_gives_quotient(x - s, m);
        lemma_fundamental_div_mod_converse_mod(x, m, (x - s) / m, s as int);
    }
    lemma_odd_factor(g, w, 64);
    assert(a % 4 == 1);
    lemma_geometric_two_adic(a, k, 64);
}

/// Within one period no state repeats: the 2^64 states reached from a seed
/// are pairwise distinct, so every `u64` occurs once per period.
pub proof fn lemma_no_repeat_within_period(s: u64, i: nat, j: nat)
    requires
        i < j < 0x1_0000_0000_0000_0000nat,
    ensures
        lcg_iterate(s, i) != lcg_iterate(s, j),
{
    let d = (j - i) as nat;
    lemma_iterate_compose(s, i, d);
    lemma_full_period(lcg_iterate(s, i), d);
    assert(d % 0x1_0000_0000_0000_0000nat == d);
}

} // verus!
