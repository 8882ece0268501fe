//! Extended Euclidean algorithm, recursive and iterative, and the modular
//! inverses built on it.
//!
//! Every returned triple `(g, x, y)` satisfies the Bezout identity
//! `g == x*a + y*b` with `g == gcd(a, b)`, and the coefficients are small
//! (`|x| <= max(1, b)`, `|y| <= max(1, a)`), which is what keeps all the
//! 32-bit intermediate arithmetic from overflowing.

use vstd::prelude::*;
use vstd::math::{abs, max};
use vstd::arithmetic::div_mod::{
    lemma_fundamental_div_mod, lemma_fundamental_div_mod_converse_mod, lemma_mod_multiples_vanish,
    lemma_mul_mod_noop_left, lemma_small_mod,
};

verus! {

/// Greatest common divisor of two nonnegative integers, by Euclid's
/// recursion on the first argument.
pub open spec fn gcd(a: int, b: int) -> int
    recommends
        0 <= a,
        0 <= b,
    decreases a,
{
    if a <= 0 {
        b
    } else {
        gcd(b % a, a)
    }
}

/// The gcd does not depend on the order of its arguments.
proof fn lemma_gcd_comm(a: int, b: int)
    requires
        0 <= a,
        0 <= b,
    ensures
        gcd(a, b) == gcd(b, a),
{
    if a < b {
        lemma_small_mod(a as nat, b as nat);
        assert(gcd(b, a) == gcd(a % b, b));
    } else if b < a {
        lemma_small_mod(b as nat, a as nat);
        assert(gcd(a, b) == gcd(b % a, a));
    }
}

/// Subtracting `q * v` from `u` when `u` and `v` have opposite signs
/// adds the magnitudes: `|u - q*v| == |u| + q*|v|`.
proof fn lemma_opposite_signs_sub(u: int, v: int, q: int)
    requires
        u * v <= 0,
        0 <= q,
    ensures
        abs(u - q * v) == abs(u) + q * abs(v),
        (u - q * v) * v <= 0,
        v * (u - q * v) <= 0,
{
    assert((u >= 0 && v <= 0) || (u <= 0 && v >= 0)) by (nonlinear_arith)
        requires
            u * v <= 0,
    ;
    if u >= 0 && v <= 0 {
        assert(q * v <= 0) by (nonlinear_arith)
            requires
                q >= 0,
                v <= 0,
        ;
        assert(q * (-v) == -(q * v)) by (nonlinear_arith);
        assert(abs(u - q * v) == u + q * (-v));
        assert(q * abs(v) == q * (-v));
        assert((u - q * v) * v <= 0) by (nonlinear_arith)
            requires
                u - q * v >= 0,
                v <= 0,
        ;
        assert(v * (u - q * v) <= 0) by (nonlinear_arith)
            requires
                u - q * v >= 0,
                v <= 0,
        ;
    } else {
        assert(q * v >= 0) by (nonlinear_arith)
            requires
                q >= 0,
                v >= 0,
        ;
        assert(q * (-v) == -(q * v)) by (nonlinear_arith);
        assert(abs(u - q * v) == -u + q * v);
        assert(abs(u) == -u);
        assert(q * abs(v) == q * v);
        assert((u - q * v) * v <= 0) by (nonlinear_arith)
            requires
                u - q * v <= 0,
                v >= 0,
        ;
        assert(v * (u - q * v) <= 0) by (nonlinear_arith)
            requires
                u - q * v <= 0,
                v >= 0,
        ;
    }
}

/// Extended gcd, recursive: returns `(g, x, y)` with `g == gcd(a, b)`
/// and `g == x*a + y*b`.
pub fn exgcd_rec(a: i32, b: i32) -> (r: (i32, i32, i32))
    requires
        0 <= a,
        0 <= b,
    ensures
        r.0 == gcd(a as int, b as int),
        r.0 == r.1 * a + r.2 * b,
        abs(r.1 as int) <= max(1, b as int),
        abs(r.2 as int) <= max(1, a as int),
        a == 0 ==> r.1 == 0 && r.2 == 1,
    decreases a,
{
    if a == 0 {
        proof {
            assert(0 * a + 1 * b == b) by (nonlinear_arith);
        }
        (b, 0, 1)
    } else {
        let q = b / a;
        let rem = b % a;
        let (g, x1, y1) = exgcd_rec(rem, a);
        let ghost ai = a as int;
        let ghost bi = b as int;
        let ghost qi = q as int;
        let ghost ri = rem as int;
        proof {
            lemma_fundamental_div_mod(bi, ai);
            assert(bi == ai * qi + ri);
            assert(g == (y1 - qi * x1) * ai + x1 * bi) by (nonlinear_arith)
                requires
                    g == x1 * ri + y1 * ai,
                    bi == ai * qi + ri,
            ;
            if rem == 0 {
                // the inner call bottomed out, so x1 == 0 and y1 == 1
                assert(qi * x1 == 0) by (nonlinear_arith)
                    requires
                        x1 == 0,
                ;
            } else {
                assert(-bi <= y1 - qi * x1 <= bi && -bi + ri <= qi * x1 <= bi - ri)
                    by (nonlinear_arith)
                    requires
                        1 <= ri,
                        ri < ai,
                        -ai <= x1 <= ai,
                        -ri <= y1 <= ri,
                        0 <= qi,
                        bi == ai * qi + ri,
                ;
            }
        }
        (g, y1 - q * x1, x1)
    }
}

/// Extended gcd on 64-bit operands; same contract as [`exgcd_rec`].
pub fn exgcd_rec_i64(a: i64, b: i64) -> (r: (i64, i64, i64))
    requires
        0 <= a,
        0 <= b,
    ensures
        r.0 == gcd(a as int, b as int),
        r.0 == r.1 * a + r.2 * b,
        abs(r.1 as int) <= max(1, b as int),
        abs(r.2 as int) <= max(1, a as int),
        a == 0 ==> r.1 == 0 && r.2 == 1,
    decreases a,
{
    if a == 0 {
        proof {
            assert(0 * a + 1 * b == b) by (nonlinear_arith);
        }
        (b, 0, 1)
    } else {
        let q = b / a;
        let rem = b % a;
        let (g, x1, y1) = exgcd_rec_i64(rem, a);
        let ghost ai = a as int;
        let ghost bi = b as int;
        let ghost qi = q as int;
        let ghost ri = rem as int;
        proof {
            lemma_fundamental_div_mod(bi, ai);
            assert(bi == ai * qi + ri);
            assert(g == (y1 - qi * x1) * ai + x1 * bi) by (nonlinear_arith)
                requires
                    g == x1 * ri + y1 * ai,
                    bi == ai * qi + ri,
            ;
            if rem == 0 {
                assert(qi * x1 == 0) by (nonlinear_arith)
                    requires
                        x1 == 0,
                ;
            } else {
                assert(-bi <= y1 - qi * x1 <= bi && -bi + ri <= qi * x1 <= bi - ri)
                    by (nonlinear_arith)
                    requires
                        1 <= ri,
                        ri < ai,
                        -ai <= x1 <= ai,
                        -ri <= y1 <= ri,
                        0 <= qi,
                        bi == ai * qi + ri,
                ;
            }
        }
        (g, y1 - q * x1, x1)
    }
}

/// Extended gcd, iterative; same contract as [`exgcd_rec`] except that
/// nothing is pinned for `a == 0` beyond the general clauses.
pub fn exgcd_iter(a: i32, b: i32) -> (res: (i32, i32, i32))
    requires
        0 <= a,
        0 <= b,
    ensures
        res.0 == gcd(a as int, b as int),
        res.0 == res.1 * a + res.2 * b,
        abs(res.1 as int) <= max(1, b as int),
        abs(res.2 as int) <= max(1, a as int),
{
    let mut old_r = a;
    let mut r = b;
    let mut old_s: i32 = 1;
    let mut s: i32 = 0;
    let mut old_t: i32 = 0;
    let mut t: i32 = 1;
    proof {
        assert(a == 1 * a + 0 * b && b == 0 * a + 1 * b) by (nonlinear_arith);
        assert(old_r * abs(s as int) + r * abs(old_s as int) == b) by (nonlinear_arith)
            requires
                old_r == a && r == b && s == 0 && old_s == 1,
        ;
        assert(old_r * abs(t as int) + r * abs(old_t as int) == a) by (nonlinear_arith)
            requires
                old_r == a && r == b && t == 1 && old_t == 0,
        ;
    }
    while r != 0
        invariant
            0 <= old_r,
            0 <= r,
            0 <= a,
            0 <= b,
            old_r as int == old_s * a + old_t * b,
            r as int == s * a + t * b,
            gcd(r as int, old_r as int) == gcd(b as int, a as int),
            old_s * s <= 0,
            old_t * t <= 0,
            old_r * abs(s as int) + r * abs(old_s as int) == b,
            old_r * abs(t as int) + r * abs(old_t as int) == a,
            s == 0 || old_r >= 1,
            abs(old_s as int) <= max(1, b as int),
            abs(s as int) <= max(1, b as int),
            abs(old_t as int) <= max(1, a as int),
            abs(t as int) <= max(1, a as int),
        decreases r,
    {
        let q = old_r / r;
        let ghost ri = r as int;
        let ghost ori = old_r as int;
        let ghost qi = q as int;
        let ghost rem = ori % ri;
        proof {
            lemma_fundamental_div_mod(ori, ri);
            assert(ori == ri * qi + rem);
            // magnitudes of the products subtracted this round
            lemma_opposite_signs_sub(old_s as int, s as int, qi);
            lemma_opposite_signs_sub(old_t as int, t as int, qi);
            assert(qi <= ori) by (nonlinear_arith)
                requires
                    ori == ri * qi + rem,
                    ri >= 1,
                    qi >= 0,
                    rem >= 0,
            ;
            assert(qi * abs(s as int) <= ori * abs(s as int)) by (nonlinear_arith)
                requires
                    0 <= qi <= ori,
                    0 <= abs(s as int),
            ;
            assert(qi * abs(t as int) <= ori * abs(t as int)) by (nonlinear_arith)
                requires
                    0 <= qi <= ori,
                    0 <= abs(t as int),
            ;
            assert(rem * abs(s as int) >= 0 && rem * abs(t as int) >= 0) by (nonlinear_arith)
                requires
                    rem >= 0,
            ;
            assert(abs(qi * s) == qi * abs(s as int) && abs(qi * t) == qi * abs(t as int))
                by (nonlinear_arith)
                requires
                    qi >= 0,
            ;
            // the new s-conservation sum, before the swap
            assert(ri * (abs(old_s as int) + qi * abs(s as int)) + rem * abs(s as int) == ori * abs(
                s as int,
            ) + ri * abs(old_s as int)) by (nonlinear_arith)
                requires
                    ori == ri * qi + rem,
            ;
            assert(ri * (abs(old_t as int) + qi * abs(t as int)) + rem * abs(t as int) == ori * abs(
                t as int,
            ) + ri * abs(old_t as int)) by (nonlinear_arith)
                requires
                    ori == ri * qi + rem,
            ;
            // Bezout carries over to the new remainder
            assert(ori - qi * (r as int) == (old_s - qi * s) * a + (old_t - qi * t) * b)
                by (nonlinear_arith)
                requires
                    ori == old_s * a + old_t * b,
                    r as int == s * a + t * b,
            ;
            // the new coefficient magnitudes stay below the conserved sums
            assert(abs(old_s as int) + qi * abs(s as int) <= max(1, b as int))
                by (nonlinear_arith)
                requires
                    ri * (abs(old_s as int) + qi * abs(s as int)) <= b,
                    ri >= 1,
                    b >= 0,
                    abs(old_s as int) + qi * abs(s as int) >= 0,
            ;
            assert(abs(old_t as int) + qi * abs(t as int) <= max(1, a as int))
                by (nonlinear_arith)
                requires
                    ri * (abs(old_t as int) + qi * abs(t as int)) <= a,
                    ri >= 1,
                    a >= 0,
                    abs(old_t as int) + qi * abs(t as int) >= 0,
            ;
        }
        old_r -= q * r;
        old_s -= q * s;
        old_t -= q * t;
        core::mem::swap(&mut old_r, &mut r);
        core::mem::swap(&mut old_s, &mut s);
        core::mem::swap(&mut old_t, &mut t);
        proof {
            assert(gcd(r as int, old_r as int) == gcd(b as int, a as int));
        }
    }
    proof {
        lemma_gcd_comm(a as int, b as int);
    }
    (old_r, old_s, old_t)
}

/// Modular inverse of `a` modulo `m` through the recursive extended gcd:
/// `Some` exactly when `a` and `m` are coprime.
pub fn inverse_exgcd_rec(a: i32, m: i32) -> (r: Option<i32>)
    requires
        0 <= a,
        2 <= m,
    ensures
        r is Some <==> gcd(a as int, m as int) == 1,
        r is Some ==> 0 <= r.unwrap() < m && (r.unwrap() as int * a as int) % (m as int) == 1,
{
    let (g, x, _y) = exgcd_rec(a, m);
    if g == 1 {
        let xm = if x < 0 {
            x + m
        } else if x >= m {
            x - m
        } else {
            x
        };
        proof {
            let ai = a as int;
            let mi = m as int;
            let xi = x as int;
            let xmi = xm as int;
            // xm is the canonical residue of x
            if x < 0 {
                lemma_fundamental_div_mod_converse_mod(xi, mi, -1, xmi);
            } else if x >= m {
                lemma_fundamental_div_mod_converse_mod(xi, mi, 1, xmi);
            } else {
                lemma_small_mod(xi as nat, mi as nat);
            }
            assert(xmi == xi % mi);
            // 1 == x*a + y*m, so x*a is 1 modulo m
            lemma_mod_multiples_vanish(_y as int, xi * ai, mi);
            assert(mi * _y + xi * ai == 1) by (nonlinear_arith)
                requires
                    1 == xi * ai + _y * mi,
            ;
            assert((xi * ai) % mi == 1int % mi);
            lemma_small_mod(1nat, mi as nat);
            lemma_mul_mod_noop_left(xi, ai, mi);
            assert((xmi * ai) % mi == 1);
        }
        Some(xm)
    } else {
        None
    }
}

/// Modular inverse of `a` modulo `m` through the iterative extended gcd;
/// same contract as [`inverse_exgcd_rec`].
pub fn inverse_exgcd_iter(a: i32, m: i32) -> (res: Option<i32>)
    requires
        0 <= a,
        2 <= m,
    ensures
        res is Some <==> gcd(a as int, m as int) == 1,
        res is Some ==> 0 <= res.unwrap() < m && (res.unwrap() as int * a as int) % (m as int)
            == 1,
{
    let mut old_r = m;
    let mut r = a;
    let mut old_t: i32 = 0;
    let mut t: i32 = 1;
    let ghost mut old_s: int = 1;
    let ghost mut s: int = 0;
    proof {
        assert(m as int == 1 * m + 0 * a && a as int == 0 * m + 1 * a) by (nonlinear_arith);
        assert(old_r * abs(t as int) + r * abs(old_t as int) == m) by (nonlinear_arith)
            requires
                old_r == m && r == a && t == 1 && old_t == 0,
        ;
    }
    while r > 1
        invariant
            0 <= a,
            2 <= m,
            2 <= old_r,
            0 <= r,
            old_r as int == old_s * m + old_t * a,
            r as int == s * m + t * a,
            gcd(r as int, old_r as int) == gcd(a as int, m as int),
            old_t * t <= 0,
            old_r * abs(t as int) + r * abs(old_t as int) == m,
            abs(old_t as int) <= m,
            abs(t as int) <= m,
        decreases r,
    {
        let q = old_r / r;
        let ghost ri = r as int;
        let ghost ori = old_r as int;
        let ghost qi = q as int;
        let ghost rem = ori % ri;
        proof {
            lemma_fundamental_div_mod(ori, ri);
            assert(ori == ri * qi + rem);
            lemma_opposite_signs_sub(old_t as int, t as int, qi);
            assert(qi <= ori) by (nonlinear_arith)
                requires
                    ori == ri * qi + rem,
                    ri >= 1,
                    qi >= 0,
                    rem >= 0,
            ;
            assert(qi * abs(t as int) <= ori * abs(t as int)) by (nonlinear_arith)
                requires
                    0 <= qi <= ori,
                    0 <= abs(t as int),
            ;
            assert(rem * abs(t as int) >= 0) by (nonlinear_arith)
                requires
                    rem >= 0,
            ;
            assert(abs(qi * t) == qi * abs(t as int)) by (nonlinear_arith)
                requires
                    qi >= 0,
            ;
            assert(ri * (abs(old_t as int) + qi * abs(t as int)) + rem * abs(t as int) == ori * abs(
                t as int,
            ) + ri * abs(old_t as int)) by (nonlinear_arith)
                requires
                    ori == ri * qi + rem,
            ;
            assert(ori - qi * (r as int) == (old_s - qi * s) * m + ((old_t - qi * t) as int) * a)
                by (nonlinear_arith)
                requires
                    ori == old_s * m + old_t * a,
                    r as int == s * m + t * a,
            ;
            assert(abs(old_t as int) + qi * abs(t as int) <= m) by (nonlinear_arith)
                requires
                    ri * (abs(old_t as int) + qi * abs(t as int)) <= m,
                    ri >= 1,
                    m >= 0,
                    abs(old_t as int) + qi * abs(t as int) >= 0,
            ;
        }
        old_r -= q * r;
        old_t -= q * t;
        core::mem::swap(&mut old_r, &mut r);
        core::mem::swap(&mut old_t, &mut t);
        proof {
            let new_s = old_s - qi * s;
            old_s = s;
            s = new_s;
            assert(gcd(r as int, old_r as int) == gcd(a as int, m as int));
        }
    }
    if r == 1 {
        proof {
            // gcd(1, x) is 1
            assert(gcd(r as int, old_r as int) == 1) by {
                assert((old_r as int) % 1 == 0);
                assert(gcd(1, old_r as int) == gcd((old_r as int) % 1, 1));
                assert(gcd(0, 1) == 1);
            }
            // Bezout: t * a is 1 modulo m
            lemma_mod_multiples_vanish(s, (t as int) * (a as int), m as int);
            assert((m as int) * s + (t as int) * (a as int) == 1) by (nonlinear_arith)
                requires
                    1 == s * m + t * a,
            ;
            lemma_small_mod(1nat, m as nat);
            assert(((t as int) * (a as int)) % (m as int) == 1);
        }
        let tt = if t < 0 {
            t + m
        } else {
            t
        };
        proof {
            let ai = a as int;
            let mi = m as int;
            let ti = t as int;
            let tti = tt as int;
            if t < 0 {
                lemma_fundamental_div_mod_converse_mod(ti, mi, -1, tti);
            } else {
                // t == m would make t*a vanish modulo m, contradicting Bezout
                if t == m {
                    lemma_mul_mod_noop_left(mi, ai, mi);
                    assert((mi % mi) == 0) by {
                        vstd::arithmetic::div_mod::lemma_mod_self_0(mi);
                    }
                    assert(0 * ai == 0) by (nonlinear_arith);
                    lemma_small_mod(0nat, mi as nat);
                    assert(false);
                }
                lemma_small_mod(ti as nat, mi as nat);
            }
            assert(tti == ti % mi);
            lemma_mul_mod_noop_left(ti, ai, mi);
            assert((tti * ai) % mi == 1);
        }
        Some(tt)
    } else {
        proof {
            // r == 0 here, so the gcd equals old_r, which is at least 2
            assert(gcd(r as int, old_r as int) == old_r as int);
        }
        None
    }
}

} // verus!
