//! Modular binary exponentiation, in recursive and iterative form, plus a
//! variant that replaces the hardware modulo with Lemire reduction.

use vstd::prelude::*;
use vstd::arithmetic::power::{
    pow, lemma_pow_adds, lemma_pow_mod_noop, lemma_pow_multiplies, lemma_pow1,
};
use vstd::arithmetic::power2::pow2;
use vstd::arithmetic::div_mod::{
    lemma_fundamental_div_mod, lemma_mul_mod_noop_general, lemma_small_mod,
};
use vstd::arithmetic::mul::{lemma_mul_is_associative, lemma_mul_upper_bound};
use crate::arithmetic::{
    cal_lemire_reduction_magic_number, lemire_in_range, lemire_magic, lemire_reduction_mod,
    lemire_slack, w64,
};

verus! {

/// Products of two residues modulo `m` stay below `m * m`, hence below
/// `(m - 1)^2 + something`; this is the bound every squaring step needs.
proof fn lemma_residue_product_bound(a: int, b: int, m: int)
    requires
        2 <= m,
        0 <= a < m,
        0 <= b < m,
    ensures
        0 <= a * b <= (m - 1) * (m - 1),
{
    lemma_mul_upper_bound(a, m - 1, b, m - 1);
    assert(a * b >= 0) by (nonlinear_arith)
        requires
            a >= 0,
            b >= 0,
    ;
}

/// One halving step of binary exponentiation: absorbing the lowest
/// exponent bit into the accumulator and squaring the base preserves
/// `accumulator * base^exponent` modulo `m`.
pub(crate) proof fn lemma_binpow_step(r: int, b: int, e: nat, m: int)
    requires
        2 <= m,
        0 <= r,
        0 <= b,
        e > 0,
    ensures
        e % 2 == 1 ==> (((r * b) % m) * pow((b * b) % m, (e / 2) as nat)) % m == (r * pow(b, e))
            % m,
        e % 2 == 0 ==> (r * pow((b * b) % m, (e / 2) as nat)) % m == (r * pow(b, e)) % m,
{
    let h = (e / 2) as nat;
    let bb = b * b;
    // pow(bb % m, h) % m == pow(b, 2*h) % m
    lemma_pow_mod_noop(bb, h, m);
    lemma_pow_multiplies(b, 2, h);
    lemma_pow1(b);
    lemma_pow_adds(b, 1, 1);
    assert(pow(b, 2) == bb);
    assert(pow(bb % m, h) % m == pow(b, (2 * h) as nat) % m);
    if e % 2 == 1 {
        lemma_fundamental_div_mod(e as int, 2);
        assert(e == 2 * h + 1);
        lemma_pow_adds(b, 1, (2 * h) as nat);
        assert(pow(b, e) == b * pow(b, (2 * h) as nat));
        let p2h = pow(b, (2 * h) as nat);
        lemma_mul_mod_noop_general((r * b) % m, pow(bb % m, h), m);
        assert((((r * b) % m) * pow((bb % m), h)) % m == (((r * b) % m) * (p2h % m)) % m);
        lemma_mul_mod_noop_general(r * b, p2h, m);
        assert((((r * b) % m) * (p2h % m)) % m == ((r * b) * p2h) % m);
        lemma_mul_is_associative(r, b, p2h);
        assert((r * b) * p2h == r * (b * p2h));
        assert((r * pow(b, e)) % m == ((r * b) * p2h) % m);
    } else {
        lemma_fundamental_div_mod(e as int, 2);
        assert(e == 2 * h);
        let p2h = pow(b, (2 * h) as nat);
        lemma_mul_mod_noop_general(r, pow(bb % m, h), m);
        assert((r * pow((bb % m), h)) % m == ((r % m) * (p2h % m)) % m);
        lemma_mul_mod_noop_general(r, p2h, m);
        assert(((r % m) * (p2h % m)) % m == (r * p2h) % m);
    }
}

/// Recursive modular exponentiation: `base^exp % M`.
pub fn binpow_rec<const M: u64>(base: u64, exp: u64) -> (r: u64)
    requires
        2 <= M,
        (M - 1) * (M - 1) <= u64::MAX,
    ensures
        r as int == pow(base as int, exp as nat) % (M as int),
    decreases exp,
{
    let ghost m = M as int;
    let ghost b = base as int;
    if exp == 0 {
        proof {
            vstd::arithmetic::power::lemma_pow0(b);
            lemma_small_mod(1, M as nat);
        }
        1
    } else if exp % 2 == 0 {
        let half = binpow_rec::<M>(base, exp / 2);
        proof {
            lemma_residue_product_bound(half as int, half as int, m);
            let h = (exp / 2) as nat;
            lemma_mul_mod_noop_general(pow(b, h), pow(b, h), m);
            lemma_pow_adds(b, h, h);
            assert(h + h == exp as nat);
        }
        (half * half) % M
    } else {
        let rest = binpow_rec::<M>(base, exp - 1);
        proof {
            lemma_residue_product_bound(base as int % m, rest as int, m);
            lemma_mul_mod_noop_general(b, pow(b, (exp - 1) as nat), m);
            lemma_pow_adds(b, 1, (exp - 1) as nat);
            lemma_pow1(b);
            assert(pow(b, (1 + (exp - 1) as nat) as nat) == pow(b, 1) * pow(b, (exp - 1) as nat));
            assert(pow(b, exp as nat) == b * pow(b, (exp - 1) as nat));
        }
        (base % M * rest) % M
    }
}

/// Iterative modular exponentiation: `base^exp % M`.
pub fn binpow_iter<const M: u64>(base: u64, exp: u64) -> (r: u64)
    requires
        2 <= M,
        (M - 1) * (M - 1) <= u64::MAX,
    ensures
        r as int == pow(base as int, exp as nat) % (M as int),
{
    let mut b = base % M;
    let mut e = exp;
    let mut result: u64 = 1;
    proof {
        lemma_pow_mod_noop(base as int, exp as nat, M as int);
    }
    while e > 0
        invariant
            2 <= M,
            (M - 1) * (M - 1) <= u64::MAX,
            b < M,
            result < M,
            (result as int * pow(b as int, e as nat)) % (M as int) == pow(
                base as int,
                exp as nat,
            ) % (M as int),
        decreases e,
    {
        proof {
            lemma_binpow_step(result as int, b as int, e as nat, M as int);
            lemma_residue_product_bound(result as int, b as int, M as int);
            lemma_residue_product_bound(b as int, b as int, M as int);
        }
        if e % 2 == 1 {
            result = (result * b) % M;
        }
        b = (b * b) % M;
        e = e / 2;
    }
    proof {
        vstd::arithmetic::power::lemma_pow0(b as int);
        lemma_small_mod(result as nat, M as nat);
    }
    result
}

/// Iterative modular exponentiation with a runtime modulus, using Lemire
/// reduction instead of the hardware remainder: `base^exp % mod_val`.
///
/// The slack precondition keeps every intermediate product inside the
/// range on which Lemire reduction is exact; it holds in particular for
/// every modulus below `2^21`.
pub fn binpow_iter_with_mod(base: u64, exp: u64, mod_val: u32) -> (r: u32)
    requires
        2 <= mod_val,
        lemire_slack(mod_val) * ((mod_val - 1) * (mod_val - 1)) < w64(),
    ensures
        r as int == pow(base as int, exp as nat) % (mod_val as int),
{
    let m = mod_val as u64;
    let magic_number = cal_lemire_reduction_magic_number(mod_val);
    let mut b = base % m;
    let mut e = exp;
    let mut result: u32 = 1;
    proof {
        lemma_pow_mod_noop(base as int, exp as nat, mod_val as int);
    }
    while e > 0
        invariant
            2 <= mod_val,
            lemire_slack(mod_val) * ((mod_val - 1) * (mod_val - 1)) < w64(),
            m == mod_val as u64,
            magic_number as int == lemire_magic(mod_val),
            b < m,
            result < mod_val,
            (result as int * pow(b as int, e as nat)) % (mod_val as int) == pow(
                base as int,
                exp as nat,
            ) % (mod_val as int),
        decreases e,
    {
        proof {
            lemma_binpow_step(result as int, b as int, e as nat, mod_val as int);
            lemma_residue_product_bound(result as int, b as int, mod_val as int);
            lemma_residue_product_bound(b as int, b as int, mod_val as int);
            assert(lemire_slack(mod_val) >= 0) by {
                crate::arithmetic::lemma_lemire_magic(mod_val);
            }
            lemma_lemire_range_from_bound(
                result as int * b as int,
                (mod_val - 1) * (mod_val - 1),
                mod_val,
            );
            lemma_lemire_range_from_bound(
                b as int * b as int,
                (mod_val - 1) * (mod_val - 1),
                mod_val,
            );
            assert((mod_val - 1) * (mod_val - 1) <= u64::MAX) by (nonlinear_arith)
                requires
                    2 <= mod_val <= u32::MAX,
            ;
        }
        if e % 2 == 1 {
            result = lemire_reduction_mod(result as u64 * b, mod_val, magic_number);
        }
        b = lemire_reduction_mod(b * b, mod_val, magic_number) as u64;
        e = e / 2;
    }
    proof {
        vstd::arithmetic::power::lemma_pow0(b as int);
        lemma_small_mod(result as nat, mod_val as nat);
    }
    result
}

/// Any product bounded by the worst-case residue square stays inside the
/// exact range of Lemire reduction.
proof fn lemma_lemire_range_from_bound(n: int, cap: int, x: u32)
    requires
        2 <= x,
        0 <= n <= cap,
        0 <= lemire_slack(x),
        lemire_slack(x) * cap < w64(),
    ensures
        0 <= n <= u64::MAX ==> lemire_in_range(n as u64, x),
{
    assert(lemire_slack(x) * n <= lemire_slack(x) * cap) by (nonlinear_arith)
        requires
            0 <= lemire_slack(x),
            n <= cap,
    ;
}

/// Fixed-width modular exponentiation to the power `M - 2`, covering the
/// low 31 bits of the exponent; for a prime `M` below `2^31 + 2` and
/// `a` not divisible by `M` this yields the modular inverse of `a`.
pub fn inverse<const M: u64>(a: u64) -> (r: u64)
    requires
        2 <= M,
        a < M,
        (M - 1) * (M - 1) <= u64::MAX,
    ensures
        r as int == pow(a as int, ((M - 2) as nat % pow2(31))) % (M as int),
{
    let mut b = a;
    let mut e = M - 2;
    let mut result: u64 = 1;
    let ghost e_full = (M - 2) as nat;
    let mut n: u64 = 0;
    proof {
        assert(pow2(0) == 1 && pow2(1) == 2) by {
            vstd::arithmetic::power2::lemma2_to64();
        }
        assert(e_full % pow2(0) == 0);
        vstd::arithmetic::power::lemma_pow0(a as int);
        lemma_small_mod(1, M as nat);
        lemma_pow1(a as int);
        lemma_small_mod(a as nat, M as nat);
    }
    while n < 31
        invariant
            2 <= M,
            (M - 1) * (M - 1) <= u64::MAX,
            n <= 31,
            b < M,
            result < M,
            e_full == (M - 2) as nat,
            e as int == e_full as int / pow2(n as nat) as int,
            b as int == pow(a as int, pow2(n as nat)) % (M as int),
            result as int == pow(a as int, (e_full % pow2(n as nat)) as nat) % (M as int),
        decreases 31 - n,
    {
        let ghost m = M as int;
        let ghost ai = a as int;
        let ghost n0 = n as nat;
        let ghost p = pow2(n0) as int;
        let ghost r_n = (e_full % pow2(n0)) as nat;
        let ghost old_e = e;
        proof {
            vstd::arithmetic::power2::lemma_pow2_pos(n0);
            vstd::arithmetic::power2::lemma_pow2_adds(n0, 1);
            assert(pow2(1) == 2) by {
                vstd::arithmetic::power2::lemma2_to64();
            }
            assert(pow2((n0 + 1) as nat) == p * 2);
            vstd::arithmetic::div_mod::lemma_breakdown(e_full as int, p, 2);
            lemma_residue_product_bound(result as int, b as int, m);
            lemma_residue_product_bound(b as int, b as int, m);
            // squaring the base advances it one power of two
            lemma_mul_mod_noop_general(pow(ai, pow2(n0)), pow(ai, pow2(n0)), m);
            lemma_pow_adds(ai, pow2(n0), pow2(n0));
            // absorbing the current bit advances the accumulator
            lemma_mul_mod_noop_general(pow(ai, r_n), pow(ai, pow2(n0)), m);
            lemma_pow_adds(ai, r_n, pow2(n0));
            // halving the exponent advances the divisor
            vstd::arithmetic::div_mod::lemma_div_denominator(e_full as int, p, 2);
        }
        if e % 2 == 1 {
            result = (result * b) % M;
        }
        b = (b * b) % M;
        e = e / 2;
        n = n + 1;
        proof {
            assert(pow2(n as nat) == p * 2);
            assert(e as int == (e_full as int / p) / 2);
            assert(e as int == e_full as int / (p * 2));
            assert(b as int == pow(ai, (pow2(n0) + pow2(n0)) as nat) % m);
            assert(pow2(n0) + pow2(n0) == pow2((n0 + 1) as nat));
            assert(e_full as int % (p * 2) == p * ((e_full as int / p) % 2) + e_full as int % p);
            if old_e % 2 == 1 {
                assert((e_full as int / p) % 2 == 1);
                assert(p * ((e_full as int / p) % 2) == p) by (nonlinear_arith)
                    requires
                        (e_full as int / p) % 2 == 1,
                ;
                assert(e_full as int % (p * 2) == p + r_n);
                assert(result as int == pow(ai, (r_n + pow2(n0)) as nat) % m);
            } else {
                assert((e_full as int / p) % 2 == 0);
                assert(p * ((e_full as int / p) % 2) == 0) by (nonlinear_arith)
                    requires
                        (e_full as int / p) % 2 == 0,
                ;
                assert(e_full as int % (p * 2) == r_n);
            }
            assert(result as int == pow(ai, (e_full % pow2(n as nat)) as nat) % m);
        }
    }
    result
}

} // verus!
