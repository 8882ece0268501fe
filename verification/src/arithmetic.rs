//! Lemire-style reduction: fast modulo and division by a fixed 32-bit
//! divisor, using one precomputed 64-bit magic number per divisor.

use vstd::prelude::*;
use vstd::arithmetic::div_mod::{
    lemma_fundamental_div_mod, lemma_fundamental_div_mod_converse_div,
    lemma_fundamental_div_mod_converse_mod,
};
use vstd::bits::lemma_u128_shr_is_div;

verus! {

/// `2^64`, the wrap-around modulus of 64-bit arithmetic.
pub open spec fn w64() -> int {
    0x1_0000_0000_0000_0000
}

/// The magic number for divisor `x`: `floor((2^64 - 1) / x) + 1`,
/// which equals `ceil(2^64 / x)` except when `x` divides `2^64`.
pub open spec fn lemire_magic(x: u32) -> int {
    0xffff_ffff_ffff_ffffu64 as int / (x as int) + 1
}

/// By how much `magic * x` overshoots `2^64`; always in `[0, x)`.
pub open spec fn lemire_slack(x: u32) -> int {
    lemire_magic(x) * (x as int) - w64()
}

/// The fast path is exact exactly when the slack times the operand
/// stays under `2^64`.
pub open spec fn lemire_in_range(n: u64, x: u32) -> bool {
    lemire_slack(x) * (n as int) < w64()
}

/// The low 64 bits of `n * magic`, written out as the integer
/// `(n / x) * slack + (n % x) * magic`.
pub open spec fn lemire_low(n: u64, x: u32) -> int {
    (n as int / x as int) * lemire_slack(x) + (n as int % x as int) * lemire_magic(x)
}

/// Basic shape of the magic number: it fits in a `u64` and its
/// product with `x` overshoots `2^64` by less than `x`.
pub proof fn lemma_lemire_magic(x: u32)
    requires
        2 <= x,
    ensures
        1 <= lemire_magic(x) <= u64::MAX,
        0 <= lemire_slack(x) < x,
{
    let m = 0xffff_ffff_ffff_ffffu64 as int;
    let xi = x as int;
    lemma_fundamental_div_mod(m, xi);
    let a = m / xi;
    let b = m % xi;
    assert(m == xi * a + b);
    assert(lemire_magic(x) == a + 1);
    assert(lemire_slack(x) == (a + 1) * xi - (m + 1));
    assert((a + 1) * xi == xi * a + xi) by (nonlinear_arith);
    assert(lemire_slack(x) == xi - b - 1);
    assert(a <= m / 2) by {
        assert(xi * a + b == m);
        assert(xi * a >= 2 * a) by (nonlinear_arith)
            requires
                xi >= 2,
                a >= 0,
        ;
    }
}

/// The heart of the Lemire argument: splitting `n * magic` at the
/// 64-bit boundary yields quotient `n / x` and low part `lemire_low`,
/// and multiplying the low part by `x` recovers `n % x` in the high bits.
proof fn lemma_lemire_core(n: u64, x: u32)
    requires
        2 <= x,
        lemire_in_range(n, x),
    ensures
        0 <= lemire_slack(x) * (n as int) < w64(),
        0 <= lemire_low(n, x) < w64(),
        (n as int) * lemire_magic(x) == (n as int / x as int) * w64() + lemire_low(n, x),
        lemire_low(n, x) * (x as int) == (n as int % x as int) * w64() + lemire_slack(x) * (
        n as int),
{
    let ni = n as int;
    let xi = x as int;
    let magic = lemire_magic(x);
    let slack = lemire_slack(x);
    let w = w64();
    lemma_lemire_magic(x);
    lemma_fundamental_div_mod(ni, xi);
    let q = ni / xi;
    let s = ni % xi;
    let l = lemire_low(n, x);
    assert(ni == xi * q + s);
    assert(slack * ni >= 0) by (nonlinear_arith)
        requires
            slack >= 0,
            ni >= 0,
    ;
    // n * magic == q * 2^64 + l
    assert(ni * magic == q * w + l) by (nonlinear_arith)
        requires
            ni == xi * q + s,
            magic * xi == w + slack,
            l == q * slack + s * magic,
    ;
    // l * x == s * 2^64 + slack * n
    assert(l * xi == s * w + slack * ni) by (nonlinear_arith)
        requires
            ni == xi * q + s,
            magic * xi == w + slack,
            l == q * slack + s * magic,
    ;
    // 0 <= l < 2^64, via l * x < x * 2^64
    assert(l >= 0) by (nonlinear_arith)
        requires
            l == q * slack + s * magic,
            q >= 0,
            slack >= 0,
            s >= 0,
            magic >= 1,
    ;
    assert(l * xi < xi * w) by (nonlinear_arith)
        requires
            l * xi == s * w + slack * ni,
            slack * ni < w,
            s <= xi - 1,
            w > 0,
            xi >= 2,
    ;
    assert(l < w) by (nonlinear_arith)
        requires
            l * xi < xi * w,
            xi >= 2,
    ;
}

/// Magic number `ceil(2^64 / x)` for Lemire reduction by `x`.
pub fn cal_lemire_reduction_magic_number(x: u32) -> (magic: u64)
    requires
        2 <= x,
    ensures
        magic as int == lemire_magic(x),
{
    proof {
        lemma_lemire_magic(x);
    }
    (u64::MAX / x as u64) + 1
}

/// `n % x` computed from the precomputed magic number of `x`, without a
/// division instruction.  Exact whenever `lemire_in_range(n, x)` holds;
/// in particular for every `n < 2^32`, and for every `n` when `x`
/// divides `2^64`.
pub fn lemire_reduction_mod(n: u64, x: u32, magic_number_x: u64) -> (r: u32)
    requires
        2 <= x,
        magic_number_x as int == lemire_magic(x),
        lemire_in_range(n, x),
    ensures
        r as int == (n as int) % (x as int),
{
    proof {
        lemma_lemire_core(n, x);
        let ni = n as int;
        let xi = x as int;
        let q = ni / xi;
        let s = ni % xi;
        let l = lemire_low(n, x);
        lemma_fundamental_div_mod_converse_mod(ni * lemire_magic(x), w64(), q, l);
        assert((ni * lemire_magic(x)) % w64() == l);
    }
    let lowbits = n.wrapping_mul(magic_number_x);
    assert(lowbits as int == lemire_low(n, x)) by {
        assert(lowbits as int == ((n as int) * (magic_number_x as int)) % w64());
    }
    proof {
        assert((lowbits as int) * (x as int) <= u128::MAX) by (nonlinear_arith)
            requires
                0 <= lowbits as int <= u64::MAX,
                0 <= x as int <= u32::MAX,
        ;
    }
    let wide = lowbits as u128 * x as u128;
    proof {
        lemma_u128_shr_is_div(wide, 64);
        assert(vstd::arithmetic::power2::pow2(64) == 0x1_0000_0000_0000_0000) by {
            vstd::arithmetic::power2::lemma2_to64_rest();
        }
        lemma_fundamental_div_mod_converse_div(
            lemire_low(n, x) * (x as int),
            w64(),
            (n as int) % (x as int),
            lemire_slack(x) * (n as int),
        );
    }
    ((wide >> 64) as u32)
}

/// `n / x` computed from the precomputed magic number of `x`.  The
/// divisor is not passed in: the contract quantifies over every divisor
/// the magic number may stand for.
pub fn lemire_division(n: u64, magic_number_x: u64) -> (r: u64)
    requires
        exists|x: u32|
            2 <= x && magic_number_x as int == #[trigger] lemire_magic(x) && lemire_in_range(n, x),
    ensures
        forall|x: u32|
            2 <= x && magic_number_x as int == #[trigger] lemire_magic(x) && lemire_in_range(n, x)
                ==> r as int == (n as int) / (x as int),
{
    proof {
        assert((n as int) * (magic_number_x as int) <= u128::MAX) by (nonlinear_arith)
            requires
                0 <= n as int <= u64::MAX,
                0 <= magic_number_x as int <= u64::MAX,
        ;
    }
    let wide = n as u128 * magic_number_x as u128;
    proof {
        lemma_u128_shr_is_div(wide, 64);
        assert(vstd::arithmetic::power2::pow2(64) == 0x1_0000_0000_0000_0000) by {
            vstd::arithmetic::power2::lemma2_to64_rest();
        }
        assert forall|x: u32|
            2 <= x && magic_number_x as int == #[trigger] lemire_magic(x) && lemire_in_range(
                n,
                x,
            ) implies (wide >> 64) as int == (n as int) / (x as int) by {
            lemma_lemire_core(n, x);
            lemma_fundamental_div_mod_converse_div(
                (n as int) * lemire_magic(x),
                w64(),
                (n as int) / (x as int),
                lemire_low(n, x),
            );
        }
    }
    (wide >> 64) as u64
}

} // verus!
