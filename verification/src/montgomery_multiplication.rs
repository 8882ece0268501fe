//! Montgomery multiplication for odd 32-bit moduli, plus three small
//! modular-sum kernels.
//!
//! A `Montgomery` context for an odd modulus `n` carries `n`, the inverse
//! of `n` modulo `2^32` (found by Newton iteration), and `2^64 % n`.  A
//! number `v` is represented in Montgomery space by a residue congruent to
//! `v * 2^32`; `reduce` divides by `2^32` modulo `n` without ever dividing.

use vstd::prelude::*;
use vstd::arithmetic::power::{pow, lemma_pow0, lemma_pow_mod_noop};
use vstd::arithmetic::power2::{
    pow2, lemma_pow2_adds, lemma_pow2_pos, lemma_pow2_strictly_increases, lemma2_to64,
};
use vstd::arithmetic::div_mod::{
    lemma_basic_div, lemma_fundamental_div_mod, lemma_fundamental_div_mod_converse_mod,
    lemma_mod_equivalence, lemma_mod_multiples_vanish, lemma_mod_twice, lemma_mul_mod_noop_general,
    lemma_mul_mod_noop_left, lemma_mul_mod_noop_right, lemma_multiply_divide_lt, lemma_small_mod,
};
use vstd::bits::lemma_u64_shr_is_div;
use crate::number_theory::lemma_binpow_step;

verus! {

/// `2^32`, the Montgomery radix.
pub open spec fn r32() -> int {
    0x1_0000_0000
}

/// The sum of a sequence of 32-bit integers, as an unbounded integer.
pub open spec fn seq_sum(s: Seq<i32>) -> int
    decreases s.len(),
{
    if s.len() == 0 {
        0
    } else {
        seq_sum(s.drop_last()) + s.last()
    }
}

/// Extending a prefix by one element adds that element to its sum.
proof fn lemma_seq_sum_take_step(s: Seq<i32>, i: int)
    requires
        0 <= i < s.len(),
    ensures
        seq_sum(s.take(i + 1)) == seq_sum(s.take(i)) + s[i],
{
    let t = s.take(i + 1);
    assert(t.drop_last() =~= s.take(i));
    assert(t.last() == s[i]);
}

/// Sum of the residues in `a` modulo `m`, reducing after every addition.
pub fn slow_sum(a: Vec<i32>, m: i32) -> (r: i32)
    requires
        1 <= m <= 0x4000_0000,
        forall|k: int| 0 <= k < a@.len() ==> 0 <= #[trigger] a@[k] < m,
    ensures
        r as int == seq_sum(a@) % (m as int),
{
    let mut sum: i32 = 0;
    let mut i: usize = 0;
    proof {
        assert(a@.take(0) =~= Seq::<i32>::empty());
        lemma_small_mod(0nat, m as nat);
    }
    while i < a.len()
        invariant
            1 <= m <= 0x4000_0000,
            forall|k: int| 0 <= k < a@.len() ==> 0 <= #[trigger] a@[k] < m,
            i <= a.len(),
            0 <= sum < m,
            sum as int == seq_sum(a@.take(i as int)) % (m as int),
        decreases a.len() - i,
    {
        proof {
            lemma_seq_sum_take_step(a@, i as int);
            vstd::arithmetic::div_mod::lemma_add_mod_noop(
                seq_sum(a@.take(i as int)),
                a@[i as int] as int,
                m as int,
            );
            lemma_small_mod(a@[i as int] as nat, m as nat);
        }
        sum += a[i];
        sum = sum % m;
        i += 1;
    }
    proof {
        assert(a@.take(a@.len() as int) =~= a@);
    }
    sum
}

/// Sum of the residues in `a` modulo `m`, reducing by a conditional
/// subtraction instead of a division.
pub fn fast_sum(a: Vec<i32>, m: i32) -> (r: i32)
    requires
        1 <= m <= 0x4000_0000,
        forall|k: int| 0 <= k < a@.len() ==> 0 <= #[trigger] a@[k] < m,
    ensures
        r as int == seq_sum(a@) % (m as int),
{
    let mut sum: i32 = 0;
    let mut i: usize = 0;
    proof {
        assert(a@.take(0) =~= Seq::<i32>::empty());
        lemma_small_mod(0nat, m as nat);
    }
    while i < a.len()
        invariant
            1 <= m <= 0x4000_0000,
            forall|k: int| 0 <= k < a@.len() ==> 0 <= #[trigger] a@[k] < m,
            i <= a.len(),
            0 <= sum < m,
            sum as int == seq_sum(a@.take(i as int)) % (m as int),
        decreases a.len() - i,
    {
        proof {
            lemma_seq_sum_take_step(a@, i as int);
            vstd::arithmetic::div_mod::lemma_add_mod_noop(
                seq_sum(a@.take(i as int)),
                a@[i as int] as int,
                m as int,
            );
            lemma_small_mod(a@[i as int] as nat, m as nat);
        }
        sum += a[i];
        proof {
            if sum >= m {
                lemma_fundamental_div_mod_converse_mod(sum as int, m as int, 1, sum - m);
            } else {
                lemma_small_mod(sum as nat, m as nat);
            }
        }
        if sum >= m {
            sum -= m;
        }
        i += 1;
    }
    proof {
        assert(a@.take(a@.len() as int) =~= a@);
    }
    sum
}

/// Sum of the residues in `a` modulo `m`, accumulating in 64 bits and
/// reducing once at the end.
pub fn faster_sum(a: Vec<i32>, m: i32) -> (r: i32)
    requires
        1 <= m <= 0x4000_0000,
        forall|k: int| 0 <= k < a@.len() ==> 0 <= #[trigger] a@[k] < m,
        a@.len() * (m - 1) <= i64::MAX,
    ensures
        r as int == seq_sum(a@) % (m as int),
{
    let mut sum: i64 = 0;
    let mut i: usize = 0;
    proof {
        assert(a@.take(0) =~= Seq::<i32>::empty());
    }
    while i < a.len()
        invariant
            1 <= m <= 0x4000_0000,
            forall|k: int| 0 <= k < a@.len() ==> 0 <= #[trigger] a@[k] < m,
            a@.len() * (m - 1) <= i64::MAX,
            i <= a.len(),
            0 <= sum,
            sum as int <= (i as int) * (m - 1),
            sum as int == seq_sum(a@.take(i as int)),
        decreases a.len() - i,
    {
        proof {
            lemma_seq_sum_take_step(a@, i as int);
            assert((i as int) * (m - 1) + (m - 1) == (i as int + 1) * (m - 1)) by (nonlinear_arith);
            assert((i as int + 1) * (m - 1) <= a@.len() * (m - 1)) by (nonlinear_arith)
                requires
                    i as int + 1 <= a@.len(),
                    m >= 1,
            ;
        }
        sum += a[i] as i64;
        i += 1;
    }
    proof {
        assert(a@.take(a@.len() as int) =~= a@);
    }
    (sum % m as i64) as i32
}

/// An odd modulus `n` below `2^30`, its inverse modulo `2^32`, and
/// `2^64 % n`: everything Montgomery reduction needs.
#[derive(Debug, Clone, Copy)]
pub struct Montgomery {
    n: u32,
    inv_n: u32,
    sqr_r: u32,
}

/// A residue in Montgomery space: the represented value times `2^32`,
/// modulo the context's modulus.
#[derive(Debug, Clone, Copy)]
pub struct MontgomerySpace {
    x: u32,
}

impl MontgomerySpace {
    /// The raw residue this value carries.
    pub closed spec fn residue(&self) -> int {
        self.x as int
    }
}

/// For an odd modulus, multiplying by `2^32` is injective modulo `n`:
/// powers of two can be cancelled.
proof fn lemma_odd_factor2(n: int, c: int)
    requires
        1 <= n,
        n % 2 == 1,
        (2 * c) % n == 0,
    ensures
        c % n == 0,
{
    lemma_fundamental_div_mod(2 * c, n);
    let q = (2 * c) / n;
    assert(2 * c == n * q);
    if q % 2 == 0 {
        lemma_fundamental_div_mod(q, 2);
        let hq = q / 2;
        assert(q == 2 * hq);
        assert(c == n * hq) by (nonlinear_arith)
            requires
                2 * c == n * q,
                q == 2 * hq,
        ;
        lemma_mod_multiples_vanish(hq, 0, n);
        assert((n * hq + 0) % n == 0int % n);
        lemma_small_mod(0nat, n as nat);
    } else {
        // an odd times an odd is odd, but 2*c is even
        lemma_fundamental_div_mod(q, 2);
        lemma_fundamental_div_mod(n, 2);
        let hq = q / 2;
        let hn = n / 2;
        assert(n * q == 2 * (2 * hn * hq + hn + hq) + 1) by (nonlinear_arith)
            requires
                q == 2 * hq + 1,
                n == 2 * hn + 1,
        ;
        assert(2 * c == 2 * (2 * hn * hq + hn + hq) + 1);
        assert(false);
    }
}

/// Cancelling a factor `2^k` from a multiple of an odd modulus.
proof fn lemma_pow2_cancel(n: int, c: int, k: nat)
    requires
        1 <= n,
        n % 2 == 1,
        (c * pow2(k)) % n == 0,
    ensures
        c % n == 0,
    decreases k,
{
    if k == 0 {
        assert(pow2(0) == 1) by {
            lemma2_to64();
        }
        assert(c * 1 == c) by (nonlinear_arith);
    } else {
        lemma_pow2_adds((k - 1) as nat, 1);
        assert(pow2(1) == 2) by {
            lemma2_to64();
        }
        assert(pow2(k) == pow2((k - 1) as nat) * 2);
        assert(c * pow2(k) == 2 * (c * pow2((k - 1) as nat))) by (nonlinear_arith)
            requires
                pow2(k) == pow2((k - 1) as nat) * 2,
        ;
        lemma_odd_factor2(n, c * pow2((k - 1) as nat));
        lemma_pow2_cancel(n, c, (k - 1) as nat);
    }
}

/// Congruent multiples of `2^32` have congruent cofactors, for odd `n`.
proof fn lemma_r32_cancel(a: int, b: int, n: int)
    requires
        1 <= n,
        n % 2 == 1,
        (a * r32()) % n == (b * r32()) % n,
    ensures
        a % n == b % n,
{
    assert(pow2(32) == r32()) by {
        lemma2_to64();
    }
    lemma_mod_equivalence(a * r32(), b * r32(), n);
    assert((a * r32() - b * r32()) % n == 0);
    assert(a * r32() - b * r32() == (a - b) * pow2(32)) by (nonlinear_arith)
        requires
            pow2(32) == r32(),
    ;
    lemma_pow2_cancel(n, a - b, 32);
    lemma_mod_equivalence(a, b, n);
}

/// Reducing modulo a divisor of the original modulus keeps the residue.
proof fn lemma_mod_mod_divides(x: int, m: int, k: int)
    requires
        1 <= m,
        1 <= k,
    ensures
        (x % (m * k)) % m == x % m,
{
    assert(m * k >= 1) by (nonlinear_arith)
        requires
            m >= 1,
            k >= 1,
    ;
    lemma_fundamental_div_mod(x, m * k);
    let q = x / (m * k);
    assert(x % (m * k) == m * (-(k * q)) + x) by (nonlinear_arith)
        requires
            x == (m * k) * q + x % (m * k),
    ;
    lemma_mod_multiples_vanish(-(k * q), x, m);
}

/// One Newton step doubles the number of correct low bits of an inverse
/// modulo a power of two.
proof fn lemma_newton(u: int, j: nat)
    requires
        1 <= j,
        u % (pow2(j) as int) == 1,
    ensures
        (u * (2 - u)) % (pow2(2 * j) as int) == 1,
{
    let p = pow2(j) as int;
    let m2 = pow2(2 * j) as int;
    lemma_pow2_strictly_increases(0, j);
    lemma_pow2_strictly_increases(0, 2 * j);
    assert(pow2(0) == 1) by {
        lemma2_to64();
    }
    lemma_pow2_adds(j, j);
    assert(m2 == p * p);
    lemma_small_mod(1nat, p as nat);
    lemma_mod_equivalence(u, 1, p);
    assert((u - 1) % p == 0);
    lemma_fundamental_div_mod(u - 1, p);
    let c = (u - 1) / p;
    assert(u - 1 == p * c);
    assert(u * (2 - u) == m2 * (-(c * c)) + 1) by (nonlinear_arith)
        requires
            u - 1 == p * c,
            m2 == p * p,
    ;
    lemma_mod_multiples_vanish(-(c * c), 1, m2);
    lemma_small_mod(1nat, m2 as nat);
}

/// The executable form of one Newton step, phrased over the wrapped
/// 32-bit values the code actually computes.
proof fn lemma_newton_step_int(n: int, inv: int, inv2: int, j: nat)
    requires
        1 <= j,
        2 * j <= 32,
        0 <= n,
        0 <= inv,
        (n * inv) % (pow2(j) as int) == 1,
        inv2 == (inv * ((2 - (n * inv) % (pow2(32) as int)) % (pow2(32) as int))) % (
        pow2(32) as int),
    ensures
        (n * inv2) % (pow2(2 * j) as int) == 1,
{
    let w = pow2(32) as int;
    let m2 = pow2(2 * j) as int;
    let u = n * inv;
    let t = u % w;
    let s = (2 - t) % w;
    lemma_pow2_pos(32);
    lemma_pow2_pos(2 * j);
    lemma_pow2_strictly_increases(0, 2 * j);
    assert(pow2(0) == 1) by {
        lemma2_to64();
    }
    let rest = pow2((32 - 2 * j) as nat) as int;
    lemma_pow2_adds(2 * j, (32 - 2 * j) as nat);
    assert(w == m2 * rest);
    lemma_pow2_pos((32 - 2 * j) as nat);
    // all three wrapped values keep their residues modulo 2^(2j)
    lemma_mod_mod_divides(u, m2, rest);
    assert(t % m2 == u % m2);
    lemma_mod_mod_divides(2 - t, m2, rest);
    assert(s % m2 == (2 - t) % m2);
    vstd::arithmetic::div_mod::lemma_sub_mod_noop(2, t, m2);
    vstd::arithmetic::div_mod::lemma_sub_mod_noop(2, u, m2);
    assert((2 - t) % m2 == (2 - u) % m2);
    lemma_mod_mod_divides(inv * s, m2, rest);
    assert(inv2 % m2 == (inv * s) % m2);
    lemma_mul_mod_noop_general(inv, s, m2);
    lemma_mul_mod_noop_general(inv, 2 - u, m2);
    assert((inv * s) % m2 == (inv * (2 - u)) % m2);
    lemma_mul_mod_noop_general(n, inv2, m2);
    lemma_mul_mod_noop_general(n, inv * (2 - u), m2);
    assert((n * inv2) % m2 == (n * (inv * (2 - u))) % m2);
    assert(n * (inv * (2 - u)) == u * (2 - u)) by (nonlinear_arith)
        requires
            u == n * inv,
    ;
    lemma_newton(u, j);
}

impl Montgomery {
    /// The modulus this context reduces by.
    pub closed spec fn modulus(&self) -> int {
        self.n as int
    }

    /// The context is sound: odd modulus in range, a true inverse of `n`
    /// modulo `2^32`, and `sqr_r` congruent to `2^64` modulo `n`.
    pub closed spec fn wf(&self) -> bool {
        &&& self.n % 2 == 1
        &&& 1 <= self.n < 0x4000_0000
        &&& ((self.n as int) * (self.inv_n as int)) % r32() == 1
        &&& self.sqr_r as int == (0xffff_ffff_ffff_ffffu64 as int) % (self.n as int) + 1
    }

    /// The residue is in the range every operation here preserves:
    /// `[1, 2n - 1]`.
    pub closed spec fn in_space(&self, v: MontgomerySpace) -> bool {
        1 <= v.x as int <= 2 * self.modulus() - 1
    }

    /// Build a context for the odd modulus `n`; the inverse of `n`
    /// modulo `2^32` is found by five Newton steps from seed 1.
    pub fn new(n: i32) -> (r: Montgomery)
        requires
            n as int % 2 == 1,
            0 < n < 0x4000_0000,
        ensures
            r.wf(),
            r.modulus() == n as int,
    {
        let nu = n as u32;
        let ghost ni = n as int;
        let mut inv_n: u32 = 1;
        proof {
            assert(pow2(1) == 2 && pow2(2) == 4 && pow2(4) == 16 && pow2(8) == 256 && pow2(16)
                == 0x1_0000 && pow2(32) == 0x1_0000_0000) by {
                lemma2_to64();
            }
            assert(ni * 1 == ni) by (nonlinear_arith);
        }
        let ghost inv0 = inv_n as int;
        inv_n = inv_n.wrapping_mul(2u32.wrapping_sub(nu.wrapping_mul(inv_n)));
        proof {
            lemma_newton_step_int(ni, inv0, inv_n as int, 1);
        }
        let ghost inv1 = inv_n as int;
        inv_n = inv_n.wrapping_mul(2u32.wrapping_sub(nu.wrapping_mul(inv_n)));
        proof {
            lemma_newton_step_int(ni, inv1, inv_n as int, 2);
        }
        let ghost inv2 = inv_n as int;
        inv_n = inv_n.wrapping_mul(2u32.wrapping_sub(nu.wrapping_mul(inv_n)));
        proof {
            lemma_newton_step_int(ni, inv2, inv_n as int, 4);
        }
        let ghost inv3 = inv_n as int;
        inv_n = inv_n.wrapping_mul(2u32.wrapping_sub(nu.wrapping_mul(inv_n)));
        proof {
            lemma_newton_step_int(ni, inv3, inv_n as int, 8);
        }
        let ghost inv4 = inv_n as int;
        inv_n = inv_n.wrapping_mul(2u32.wrapping_sub(nu.wrapping_mul(inv_n)));
        proof {
            lemma_newton_step_int(ni, inv4, inv_n as int, 16);
        }
        // (1 << 64) % n, shifted into [1, n]
        let sqr_r = (0xffff_ffff_ffff_ffffu64 % nu as u64) as u32 + 1;
        Montgomery { n: nu, inv_n, sqr_r }
    }

    /// Divide by `2^32` modulo `n`: the result times `2^32` is congruent
    /// to the input, and is at most `x / 2^32 + n`.
    fn reduce(&self, x: u64) -> (r: MontgomerySpace)
        requires
            self.wf(),
            (x as int) < r32() * self.modulus(),
        ensures
            1 <= r.residue() <= (x as int) / r32() + self.modulus(),
            (r.residue() * r32()) % self.modulus() == (x as int) % self.modulus(),
    {
        let ghost ni = self.n as int;
        let ghost inv = self.inv_n as int;
        let ghost xi = x as int;
        let xl = (x % 0x1_0000_0000) as u32;
        proof {
            assert((xl as int) * (self.inv_n as int) <= u64::MAX) by (nonlinear_arith)
                requires
                    0 <= (xl as int) && (xl as int) < 0x1_0000_0000,
                    0 <= (self.inv_n as int) && (self.inv_n as int) < 0x1_0000_0000,
            ;
        }
        let q = ((xl as u64 * self.inv_n as u64) % 0x1_0000_0000) as u32;
        proof {
            assert((q as int) * ni <= u64::MAX) by (nonlinear_arith)
                requires
                    0 <= (q as int) && (q as int) < 0x1_0000_0000,
                    0 <= ni < 0x4000_0000,
            ;
        }
        let wide = q as u64 * self.n as u64;
        proof {
            lemma_u64_shr_is_div(wide, 32);
            assert(pow2(32) == 0x1_0000_0000) by {
                lemma2_to64();
            }
            // q * n < 2^32 * n, so the high word is below n
            assert((wide as int) < 0x1_0000_0000 * ni) by (nonlinear_arith)
                requires
                    wide as int == (q as int) * ni,
                    (q as int) < 0x1_0000_0000,
                    ni >= 1,
            ;
            lemma_multiply_divide_lt(wide as int, r32(), ni);
        }
        let mval = (wide >> 32) as u32;
        proof {
            lemma_u64_shr_is_div(x, 32);
            lemma_multiply_divide_lt(xi, r32(), ni);
        }
        let hi = (x >> 32) as u32;
        let ghost mv = mval as int;
        proof {
            // q is x * inv_n modulo 2^32, so q * n is congruent to x there
            let w = r32();
            assert(xl as int == xi % w);
            assert(q as int == ((xi % w) * inv) % w);
            lemma_mul_mod_noop_left((xi % w) * inv, ni, w);
            assert(((q as int) * ni) % w == (((xi % w) * inv) * ni) % w);
            assert(((xi % w) * inv) * ni == (xi % w) * (inv * ni)) by (nonlinear_arith);
            lemma_mul_mod_noop_general(xi % w, inv * ni, w);
            lemma_mod_twice(xi, w);
            assert((inv * ni) % w == 1) by {
                assert(inv * ni == ni * inv) by (nonlinear_arith);
            }
            assert(((xi % w) * (inv * ni)) % w == ((xi % w) * 1) % w);
            assert((xi % w) * 1 == xi % w) by (nonlinear_arith);
            assert(((q as int) * ni) % w == xi % w);
            // split both x and q*n at the 2^32 boundary
            lemma_fundamental_div_mod(xi, w);
            lemma_fundamental_div_mod((q as int) * ni, w);
            assert(mv == ((q as int) * ni) / w);
            let rv = xi / w + ni - mv;
            assert(rv * w == ni * (w - q as int) + xi) by (nonlinear_arith)
                requires
                    xi == w * (xi / w) + xi % w,
                    (q as int) * ni == w * mv + xi % w,
                    rv == xi / w + ni - mv,
            ;
            lemma_mod_multiples_vanish(w - q as int, xi, ni);
            assert((rv * w) % ni == xi % ni);
        }
        MontgomerySpace { x: hi + (self.n - mval) }
    }

    /// Leave Montgomery space: returns a value in `[1, n]` whose product
    /// with `2^32` is congruent to the residue.
    pub fn from(&self, m: MontgomerySpace) -> (r: u32)
        requires
            self.wf(),
        ensures
            1 <= r as int <= self.modulus(),
            ((r as int) * r32()) % self.modulus() == m.residue() % self.modulus(),
    {
        proof {
            assert((m.x as int) < r32() * self.modulus()) by (nonlinear_arith)
                requires
                    (m.x as int) < 0x1_0000_0000,
                    self.modulus() >= 1,
            ;
            lemma_basic_div(m.x as int, r32());
        }
        self.reduce(m.x as u64).x
    }

    /// Enter Montgomery space: the result is congruent to `x * 2^32`.
    pub fn to(&self, x: u32) -> (r: MontgomerySpace)
        requires
            self.wf(),
        ensures
            self.in_space(r),
            r.residue() % self.modulus() == ((x as int) * r32()) % self.modulus(),
    {
        let ghost ni = self.modulus();
        let ghost xi = x as int;
        let ghost sq = self.sqr_r as int;
        proof {
            assert(1 <= sq <= ni) by {
                assert(0 <= (0xffff_ffff_ffff_ffffu64 as int) % ni < ni);
            }
            assert(xi * sq <= (r32() - 1) * ni) by (nonlinear_arith)
                requires
                    0 <= xi <= r32() - 1,
                    1 <= sq <= ni,
            ;
            assert((r32() - 1) * ni < r32() * ni) by (nonlinear_arith)
                requires
                    ni >= 1,
            ;
            assert(r32() * ni <= u64::MAX) by (nonlinear_arith)
                requires
                    1 <= ni < 0x4000_0000,
            ;
        }
        let r = self.reduce(x as u64 * self.sqr_r as u64);
        proof {
            // bound: the quotient part stays below n
            lemma_multiply_divide_lt(xi * sq, r32(), ni);
            // value: sqr_r is 2^64 modulo n, so reduce left x * 2^32
            let ni64: int = 0x1_0000_0000_0000_0000;
            vstd::arithmetic::div_mod::lemma_add_mod_noop_right(
                1,
                0xffff_ffff_ffff_ffffu64 as int,
                ni,
            );
            assert(sq % ni == ni64 % ni);
            lemma_mul_mod_noop_right(xi, sq, ni);
            lemma_mul_mod_noop_right(xi, ni64, ni);
            assert((xi * sq) % ni == (xi * ni64) % ni);
            assert(xi * ni64 == (xi * r32()) * r32()) by (nonlinear_arith)
                requires
                    ni64 == 0x1_0000_0000_0000_0000,
                    r32() == 0x1_0000_0000,
            ;
            lemma_r32_cancel(r.residue(), xi * r32(), ni);
        }
        r
    }

    /// Multiply two residues in Montgomery space.
    pub fn mul(&self, lhs: MontgomerySpace, rhs: MontgomerySpace) -> (r: MontgomerySpace)
        requires
            self.wf(),
            self.in_space(lhs),
            self.in_space(rhs),
        ensures
            self.in_space(r),
            (r.residue() * r32()) % self.modulus() == (lhs.residue() * rhs.residue())
                % self.modulus(),
    {
        let ghost ni = self.modulus();
        proof {
            assert(lhs.x as int * (rhs.x as int) <= (2 * ni - 1) * (2 * ni - 1))
                by (nonlinear_arith)
                requires
                    1 <= (lhs.x as int) && (lhs.x as int) <= 2 * ni - 1,
                    1 <= (rhs.x as int) && (rhs.x as int) <= 2 * ni - 1,
            ;
            assert((2 * ni - 1) * (2 * ni - 1) < r32() * ni) by (nonlinear_arith)
                requires
                    1 <= ni < 0x4000_0000,
            ;
            assert(r32() * ni <= u64::MAX) by (nonlinear_arith)
                requires
                    1 <= ni < 0x4000_0000,
            ;
        }
        let x = lhs.x as u64 * rhs.x as u64;
        let r = self.reduce(x);
        proof {
            lemma_multiply_divide_lt(x as int, r32(), ni);
        }
        r
    }
}

/// The loop both modular-inverse entry points share: raise `base` to the
/// power `n - 2` inside Montgomery space.
pub fn inverse_with_montgomery(base: i32, montgomery: &Montgomery) -> (r: i32)
    requires
        montgomery.wf(),
        3 <= montgomery.modulus(),
        0 <= base,
    ensures
        1 <= r as int <= montgomery.modulus(),
        (r as int) % montgomery.modulus() == pow(
            base as int,
            (montgomery.modulus() - 2) as nat,
        ) % montgomery.modulus(),
{
    let ghost ni = montgomery.modulus();
    let ghost base0 = base as int;
    let ghost e0 = (ni - 2) as nat;
    let mut result = montgomery.to(1);
    let mut b = montgomery.to(base as u32);
    let mut exp: u32 = montgomery.n - 2;
    let ghost mut vr: int = 1;
    let ghost mut vb: int = base0 % ni;
    proof {
        assert(1int * r32() == r32()) by (nonlinear_arith);
        lemma_mul_mod_noop_left(base0, r32(), ni);
        lemma_pow_mod_noop(base0, e0, ni);
        assert(pow(base0 % ni, e0) % ni == pow(base0, e0) % ni);
        assert(1int * pow(base0 % ni, e0) == pow(base0 % ni, e0)) by (nonlinear_arith);
        lemma_small_mod(1nat, ni as nat);
    }
    while exp > 0
        invariant
            montgomery.wf(),
            ni == montgomery.modulus(),
            3 <= ni,
            montgomery.in_space(result),
            montgomery.in_space(b),
            0 <= vr < ni,
            0 <= vb < ni,
            result.residue() % ni == (vr * r32()) % ni,
            b.residue() % ni == (vb * r32()) % ni,
            (vr * pow(vb, exp as nat)) % ni == pow(base0, e0) % ni,
        decreases exp,
    {
        proof {
            lemma_binpow_step(vr, vb, exp as nat, ni);
        }
        if exp % 2 == 1 {
            let prev = result;
            result = montgomery.mul(prev, b);
            proof {
                lemma_mont_mul_value(
                    ni,
                    prev.residue(),
                    b.residue(),
                    result.residue(),
                    vr,
                    vb,
                );
                vr = (vr * vb) % ni;
            }
        }
        let bprev = b;
        b = montgomery.mul(bprev, bprev);
        proof {
            lemma_mont_mul_value(ni, bprev.residue(), bprev.residue(), b.residue(), vb, vb);
            vb = (vb * vb) % ni;
        }
        exp = exp / 2;
    }
    let out = montgomery.from(result);
    proof {
        lemma_pow0(vb);
        assert(vr * 1 == vr) by (nonlinear_arith);
        lemma_small_mod(vr as nat, ni as nat);
        lemma_r32_cancel(out as int, vr, ni);
        lemma_mul_mod_noop_left(vr, r32(), ni);
    }
    out as i32
}

/// Modular inverse by Fermat exponentiation in Montgomery space, building
/// the context on the fly.
pub fn inverse_using_montgomery(base: i32, mod_val: i32) -> (r: i32)
    requires
        mod_val as int % 2 == 1,
        3 <= mod_val < 0x4000_0000,
        0 <= base,
    ensures
        1 <= r <= mod_val,
        (r as int) % (mod_val as int) == pow(base as int, (mod_val - 2) as nat) % (mod_val as int),
{
    let montgomery = Montgomery::new(mod_val);
    inverse_with_montgomery(base, &montgomery)
}

/// A residue congruent to `va * 2^32` times one congruent to `vb * 2^32`
/// reduces to a residue congruent to `(va * vb) * 2^32`.
proof fn lemma_mont_mul_value(n: int, ra: int, rb: int, rc: int, va: int, vb: int)
    requires
        1 <= n,
        n % 2 == 1,
        (rc * r32()) % n == (ra * rb) % n,
        ra % n == (va * r32()) % n,
        rb % n == (vb * r32()) % n,
    ensures
        rc % n == (((va * vb) % n) * r32()) % n,
{
    lemma_mul_mod_noop_general(ra, rb, n);
    lemma_mul_mod_noop_general(va * r32(), vb * r32(), n);
    assert((ra * rb) % n == ((va * r32()) * (vb * r32())) % n);
    assert((va * r32()) * (vb * r32()) == ((va * vb) * r32()) * r32()) by (nonlinear_arith);
    lemma_r32_cancel(rc, (va * vb) * r32(), n);
    lemma_mul_mod_noop_left(va * vb, r32(), n);
}

} // verus!
