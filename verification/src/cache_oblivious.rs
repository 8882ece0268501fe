//! Cache-oblivious dense-matrix kernels on flat row-major buffers: three
//! in-place square transposes, an out-of-place `Matrix` transpose, and
//! three interchangeable matrix-multiplication strategies.
//!
//! The flat routines address cell `(i, j)` of a block at offset `base`
//! inside a buffer of row stride `stride` as `base + i*stride + j`; the
//! recursive variants descend into sub-blocks by moving `base` while the
//! stride stays that of the whole matrix.

use vstd::prelude::*;
use vstd::math::{max, min};
use vstd::arithmetic::div_mod::{
    lemma_div_is_ordered, lemma_div_multiples_vanish, lemma_fundamental_div_mod,
    lemma_fundamental_div_mod_converse,
};
use vstd::arithmetic::mul::lemma_mul_inequality;

verus! {

/// Offset of cell `(i, j)` of a block rooted at `base` in a buffer of
/// row stride `stride`.
pub open spec fn bcell(base: int, stride: int, i: int, j: int) -> int {
    base + i * stride + j
}

/// Whether offset `p` addresses some cell `(i, j)` with `i, j < n` of
/// the block rooted at `base`; meaningful when `n <= stride`.
pub open spec fn in_block(base: int, n: int, stride: int, p: int) -> bool {
    &&& 0 < n
    &&& 0 < stride
    &&& base <= p
    &&& (p - base) / stride < n
    &&& (p - base) % stride < n
}

/// The whole `n x n` block lies inside a buffer of length `len`.
pub open spec fn block_ok(base: int, n: int, stride: int, len: int) -> bool {
    n == 0 || base + (n - 1) * stride + n <= len
}

/// The buffer with its leading `n x n` block transposed and every other
/// position unchanged.
pub open spec fn sq_transpose<T>(s: Seq<T>, n: int) -> Seq<T> {
    Seq::new(
        s.len(),
        |p: int|
            if 0 < n && 0 <= p < n * n {
                s[(p % n) * n + p / n]
            } else {
                s[p]
            },
    )
}

/// A cell offset determines its coordinates: division and remainder by
/// the stride recover `i` and `j`.
proof fn lemma_bcell_coords(base: int, stride: int, i: int, j: int)
    requires
        1 <= stride,
        0 <= i,
        0 <= j < stride,
    ensures
        bcell(base, stride, i, j) - base >= 0,
        (bcell(base, stride, i, j) - base) / stride == i,
        (bcell(base, stride, i, j) - base) % stride == j,
{
    lemma_fundamental_div_mod_converse(i * stride + j, stride, i, j);
    assert(i * stride + j == stride * i + j) by (nonlinear_arith);
    assert(i * stride + j >= 0) by (nonlinear_arith)
        requires
            i >= 0,
            stride >= 1,
            j >= 0,
    ;
}

/// Two distinct coordinate pairs address distinct offsets.
proof fn lemma_bcell_inj(base: int, stride: int, i: int, j: int, r: int, c: int)
    requires
        1 <= stride,
        0 <= i,
        0 <= j < stride,
        0 <= r,
        0 <= c < stride,
        bcell(base, stride, i, j) == bcell(base, stride, r, c),
    ensures
        i == r && j == c,
{
    lemma_bcell_coords(base, stride, i, j);
    lemma_bcell_coords(base, stride, r, c);
}

/// A cell of the block is inside the buffer whenever the block is.
proof fn lemma_bcell_in_range(base: int, n: int, stride: int, len: int, i: int, j: int)
    requires
        1 <= n <= stride,
        block_ok(base, n, stride, len),
        0 <= base,
        0 <= i < n,
        0 <= j < n,
    ensures
        0 <= bcell(base, stride, i, j) < len,
        in_block(base, n, stride, bcell(base, stride, i, j)),
{
    lemma_mul_inequality(i, n - 1, stride);
    assert(i * stride <= (n - 1) * stride);
    lemma_bcell_coords(base, stride, i, j);
    assert(i * stride + j >= 0) by (nonlinear_arith)
        requires
            i >= 0,
            stride >= 1,
            j >= 0,
    ;
}

/// Membership of a cell of the surrounding block in a sub-block at row
/// and column offsets `qrow`, `qcol`: exactly the cells whose
/// coordinates land in the sub-block's square.
proof fn lemma_sub_block_membership(
    base: int,
    stride: int,
    i: int,
    j: int,
    qrow: int,
    qcol: int,
    qn: int,
)
    requires
        1 <= stride,
        0 <= base,
        0 <= i,
        0 <= j < stride,
        0 <= qrow,
        0 <= qcol,
        1 <= qn,
        qcol + qn <= stride,
    ensures
        in_block(base + qrow * stride + qcol, qn, stride, bcell(base, stride, i, j)) <==> (qrow
            <= i < qrow + qn && qcol <= j < qcol + qn),
{
    let qb = base + qrow * stride + qcol;
    let p = bcell(base, stride, i, j);
    assert(p - qb == (i - qrow) * stride + (j - qcol)) by (nonlinear_arith)
        requires
            p == base + i * stride + j,
            qb == base + qrow * stride + qcol,
    ;
    if qrow <= i && qcol <= j {
        // the natural decomposition is already canonical
        assert(p - qb == stride * (i - qrow) + (j - qcol)) by (nonlinear_arith)
            requires
                p - qb == (i - qrow) * stride + (j - qcol),
        ;
        lemma_fundamental_div_mod_converse(p - qb, stride, i - qrow, j - qcol);
        assert((p - qb) >= 0) by (nonlinear_arith)
            requires
                p - qb == stride * (i - qrow) + (j - qcol),
                i - qrow >= 0,
                j - qcol >= 0,
                stride >= 1,
        ;
    } else if qcol <= j {
        // i < qrow: the offset is negative, so p lies before the block
        assert(p - qb < 0) by (nonlinear_arith)
            requires
                p - qb == (i - qrow) * stride + (j - qcol),
                i - qrow <= -1,
                0 <= j - qcol,
                j - qcol < stride,
                stride >= 1,
        ;
    } else {
        // j < qcol: borrow one row; the remainder is too large for the block
        if i - qrow - 1 >= 0 {
            assert(p - qb == stride * (i - qrow - 1) + (stride + j - qcol)) by (nonlinear_arith)
                requires
                    p - qb == (i - qrow) * stride + (j - qcol),
            ;
            lemma_fundamental_div_mod_converse(p - qb, stride, i - qrow - 1, stride + j - qcol);
            assert((p - qb) % stride >= qn);
            assert((p - qb) >= 0) by (nonlinear_arith)
                requires
                    p - qb == stride * (i - qrow - 1) + (stride + j - qcol),
                    i - qrow - 1 >= 0,
                    0 <= stride + j - qcol,
                    stride >= 1,
            ;
        } else {
            assert(p - qb < 0) by (nonlinear_arith)
                requires
                    p - qb == (i - qrow) * stride + (j - qcol),
                    i - qrow <= 0,
                    j - qcol <= -1,
                    stride >= 1,
            ;
        }
    }
}

/// In-place triangular swap of an `n x n` block: the direct, quadratic
/// transpose, also the base case of the recursive variants.
#[verifier::loop_isolation(false)]
fn transpose_square_block<T: Copy>(v: &mut Vec<T>, base: usize, n: usize, stride: usize)
    requires
        n <= stride,
        block_ok(base as int, n as int, stride as int, old(v)@.len() as int),
    ensures
        final(v)@.len() == old(v)@.len(),
        forall|r: int, c: int|
            0 <= r < n && 0 <= c < n ==> final(v)@[#[trigger] bcell(
                base as int,
                stride as int,
                r,
                c,
            )] == old(v)@[bcell(base as int, stride as int, c, r)],
        forall|p: int|
            0 <= p < old(v)@.len() && !in_block(base as int, n as int, stride as int, p)
                ==> final(v)@[p] == old(v)@[p],
{
    let ghost b = base as int;
    let ghost s = stride as int;
    let ghost nn = n as int;
    let ghost s0 = v@;
    let _vlen = v.len();
    proof {
        assert(s0.len() <= usize::MAX);
    }
    let mut i: usize = 0;
    while i < n
        invariant
            n <= stride,
            b == base as int,
            s == stride as int,
            nn == n as int,
            block_ok(b, nn, s, s0.len() as int),
            i <= n,
            v@.len() == s0.len(),
            forall|r: int, c: int|
                0 <= r < nn && 0 <= c < nn ==> v@[#[trigger] bcell(b, s, r, c)] == (if tri_done(
                    i as int,
                    0,
                    r,
                    c,
                ) {
                    s0[bcell(b, s, c, r)]
                } else {
                    s0[bcell(b, s, r, c)]
                }),
            forall|p: int|
                0 <= p < s0.len() && !in_block(b, nn, s, p) ==> v@[p] == s0[p],
        decreases n - i,
    {
        let mut j: usize = 0;
        while j < i
            invariant
                n <= stride,
                b == base as int,
                s == stride as int,
                nn == n as int,
                block_ok(b, nn, s, s0.len() as int),
                i < n,
                j <= i,
                v@.len() == s0.len(),
                forall|r: int, c: int|
                    0 <= r < nn && 0 <= c < nn ==> v@[#[trigger] bcell(b, s, r, c)] == (
                    if tri_done(i as int, j as int, r, c) {
                        s0[bcell(b, s, c, r)]
                    } else {
                        s0[bcell(b, s, r, c)]
                    }),
                forall|p: int|
                    0 <= p < s0.len() && !in_block(b, nn, s, p) ==> v@[p] == s0[p],
            decreases i - j,
        {
            proof {
                lemma_bcell_in_range(b, nn, s, s0.len() as int, i as int, j as int);
                lemma_bcell_in_range(b, nn, s, s0.len() as int, j as int, i as int);
                assert(b + (i as int) * s + (j as int) < s0.len());
                assert(b + (j as int) * s + (i as int) < s0.len());
                assert((i as int) * s >= 0 && (j as int) * s >= 0) by (nonlinear_arith)
                    requires
                        i as int >= 0,
                        j as int >= 0,
                        s >= 0,
                ;
                assert(bcell(b, s, i as int, j as int) != bcell(b, s, j as int, i as int)) by {
                    if bcell(b, s, i as int, j as int) == bcell(b, s, j as int, i as int) {
                        lemma_bcell_inj(b, s, i as int, j as int, j as int, i as int);
                    }
                }
            }
            let p1 = base + i * stride + j;
            let p2 = base + j * stride + i;
            proof {
                assert(p1 as int == bcell(b, s, i as int, j as int));
                assert(p2 as int == bcell(b, s, j as int, i as int));
            }
            let t1 = v[p1];
            let t2 = v[p2];
            let ghost before = v@;
            v[p1] = t2;
            v[p2] = t1;
            proof {
                let ii = i as int;
                let jj = j as int;
                let pi = bcell(b, s, ii, jj);
                let pj = bcell(b, s, jj, ii);
                assert(v@ =~= before.update(pi, t2).update(pj, t1));
                assert forall|r: int, c: int| 0 <= r < nn && 0 <= c < nn implies v@[
                    #[trigger] bcell(b, s, r, c)] == (if tri_done(ii, jj + 1, r, c) {
                    s0[bcell(b, s, c, r)]
                } else {
                    s0[bcell(b, s, r, c)]
                }) by {
                    let prc = bcell(b, s, r, c);
                    lemma_bcell_in_range(b, nn, s, s0.len() as int, r, c);
                    if r == ii && c == jj {
                        assert(prc == pi);
                        assert(before[pj] == s0[bcell(b, s, jj, ii)]);
                    } else if r == jj && c == ii {
                        assert(prc == pj);
                        assert(before[pi] == s0[bcell(b, s, ii, jj)]);
                    } else {
                        assert(prc != pi) by {
                            if prc == pi {
                                lemma_bcell_inj(b, s, r, c, ii, jj);
                            }
                        }
                        assert(prc != pj) by {
                            if prc == pj {
                                lemma_bcell_inj(b, s, r, c, jj, ii);
                            }
                        }
                        assert(v@[prc] == before[prc]);
                        assert(tri_done(ii, jj + 1, r, c) == tri_done(ii, jj, r, c));
                    }
                }
                assert forall|p: int|
                    0 <= p < s0.len() && !in_block(b, nn, s, p) implies v@[p] == s0[p] by {
                    assert(p != pi && p != pj);
                }
            }
            j += 1;
        }
        proof {
            assert forall|r: int, c: int| 0 <= r < nn && 0 <= c < nn implies (tri_done(
                i as int,
                i as int,
                r,
                c,
            ) == tri_done(i as int + 1, 0, r, c)) by {}
        }
        i += 1;
    }
}

/// Processing order of the triangular swap: the unordered pair `{r, c}`
/// has been swapped once the outer index passed its larger coordinate,
/// or is at it and the inner index passed its smaller coordinate.
pub open spec fn tri_done(i: int, j: int, r: int, c: int) -> bool {
    r != c && (max(r, c) < i || (max(r, c) == i && min(r, c) < j))
}

/// Cellwise transposition of the leading block plus an untouched tail
/// amount to `sq_transpose` of the whole buffer.
proof fn lemma_block0_is_sq_transpose<T>(s0: Seq<T>, s1: Seq<T>, n: int)
    requires
        s1.len() == s0.len(),
        0 <= n,
        n * n <= s0.len(),
        forall|i: int, j: int|
            0 <= i < n && 0 <= j < n ==> s1[#[trigger] bcell(0, n, i, j)] == s0[bcell(0, n, j, i)],
        forall|p: int|
            0 <= p < s0.len() && !in_block(0, n, n, p) ==> s1[p] == s0[p],
    ensures
        s1 == sq_transpose(s0, n),
{
    assert forall|p: int| 0 <= p < s0.len() implies s1[p] == sq_transpose(s0, n)[p] by {
        if 0 < n && p < n * n {
            let i = p / n;
            let j = p % n;
            lemma_fundamental_div_mod(p, n);
            assert(0 <= j < n);
            assert(i < n) by {
                lemma_div_is_ordered(p, n * n - 1, n);
                assert((n * n - 1) / n == n - 1) by {
                    assert(n * n - 1 == (n - 1) * n + (n - 1)) by (nonlinear_arith);
                    lemma_fundamental_div_mod_converse(n * n - 1, n, n - 1, n - 1);
                }
            }
            assert(i >= 0) by {
                vstd::arithmetic::div_mod::lemma_div_pos_is_pos(p, n);
            }
            assert(p == bcell(0, n, i, j)) by {
                assert(p == n * i + j);
                assert(n * i == i * n) by (nonlinear_arith);
            }
            assert(s1[p] == s0[bcell(0, n, j, i)]);
            assert(sq_transpose(s0, n)[p] == s0[(p % n) * n + p / n]);
            assert(bcell(0, n, j, i) == j * n + i);
        } else {
            if 0 < n {
                assert(!in_block(0, n, n, p)) by {
                    if p >= n * n {
                        assert(p / n >= n) by {
                            lemma_div_is_ordered(n * n, p, n);
                            lemma_div_multiples_vanish(n, n);
                        }
                    }
                }
            } else {
                assert(!in_block(0, n, n, p));
            }
            assert(s1[p] == s0[p]);
        }
    }
    assert(s1 =~= sq_transpose(s0, n));
}

/// Transposing the leading square block twice restores the buffer.
pub proof fn lemma_sq_transpose_involution<T>(s: Seq<T>, n: int)
    requires
        0 <= n,
        n * n <= s.len(),
    ensures
        sq_transpose(sq_transpose(s, n), n) == s,
{
    let t = sq_transpose(s, n);
    let tt = sq_transpose(t, n);
    assert forall|p: int| 0 <= p < s.len() implies tt[p] == s[p] by {
        if 0 < n && p < n * n {
            let i = p / n;
            let j = p % n;
            lemma_fundamental_div_mod(p, n);
            assert(0 <= j < n);
            assert(i < n) by {
                lemma_div_is_ordered(p, n * n - 1, n);
                assert((n * n - 1) / n == n - 1) by {
                    assert(n * n - 1 == (n - 1) * n + (n - 1)) by (nonlinear_arith);
                    lemma_fundamental_div_mod_converse(n * n - 1, n, n - 1, n - 1);
                }
            }
            assert(i >= 0) by {
                vstd::arithmetic::div_mod::lemma_div_pos_is_pos(p, n);
            }
            let q = j * n + i;
            assert(0 <= q < n * n) by (nonlinear_arith)
                requires
                    q == j * n + i,
                    0 <= j < n,
                    0 <= i < n,
            ;
            assert(q / n == j && q % n == i) by {
                lemma_fundamental_div_mod_converse(q, n, j, i);
                assert(j * n + i == n * j + i) by (nonlinear_arith);
            }
            assert(tt[p] == t[q]);
            assert(t[q] == s[i * n + j]);
            assert(p == n * i + j);
            assert(n * i == i * n) by (nonlinear_arith);
        }
    }
    assert(tt =~= s);
}

/// In-place transpose of the leading `n x n` block of a flat row-major
/// buffer, by the direct triangular swap.
pub fn matrix_transpose<T: Copy>(matrix: &mut Vec<T>, n: usize)
    requires
        n * n <= old(matrix)@.len(),
    ensures
        final(matrix)@ == sq_transpose(old(matrix)@, n as int),
{
    proof {
        assert((n as int - 1) * n as int + n as int == n as int * n as int) by (nonlinear_arith);
    }
    transpose_square_block(matrix, 0, n, n);
    proof {
        lemma_block0_is_sq_transpose(old(matrix)@, matrix@, n as int);
    }
}


/// Lexicographic processing order of a double loop: the pair `(x, y)`
/// precedes position `(i, j)`.
pub open spec fn lex_done(i: int, j: int, x: int, y: int) -> bool {
    x < i || (x == i && y < j)
}

/// Positions touched by the last-row/last-column fixup pass: the cells
/// `(n-1, t)` and `(t, n-1)` for `t < n-1`.
pub open spec fn fix_touched(base: int, n: int, stride: int, p: int) -> bool {
    &&& 0 < stride
    &&& base <= p
    &&& {
        let q = (p - base) / stride;
        let r = (p - base) % stride;
        (q == n - 1 && 0 <= r < n - 1) || (r == n - 1 && 0 <= q < n - 1)
    }
}

/// A cell of a sub-block is a cell of the surrounding block.
proof fn lemma_sub_block_in_big(
    base: int,
    stride: int,
    qrow: int,
    qcol: int,
    qn: int,
    n: int,
    p: int,
)
    requires
        0 <= base,
        1 <= stride,
        0 <= qrow,
        0 <= qcol,
        1 <= qn,
        qrow + qn <= n,
        qcol + qn <= n,
        n <= stride,
        in_block(base + qrow * stride + qcol, qn, stride, p),
    ensures
        in_block(base, n, stride, p),
{
    let qb = base + qrow * stride + qcol;
    let dq = (p - qb) / stride;
    let dr = (p - qb) % stride;
    lemma_fundamental_div_mod(p - qb, stride);
    assert(p - qb == stride * dq + dr);
    assert(p == bcell(base, stride, qrow + dq, qcol + dr)) by (nonlinear_arith)
        requires
            p - qb == stride * dq + dr,
            qb == base + qrow * stride + qcol,
            bcell(base, stride, qrow + dq, qcol + dr) == base + (qrow + dq) * stride + (qcol + dr),
    ;
    assert(0 <= dq && 0 <= dr) by {
        vstd::arithmetic::div_mod::lemma_div_pos_is_pos(p - qb, stride);
    }
    lemma_bcell_coords(base, stride, qrow + dq, qcol + dr);
}

/// Swap the top-right quadrant with the bottom-left quadrant of a
/// `2*mid x 2*mid` block, cell for cell.
#[verifier::loop_isolation(false)]
fn swap_blocks<T: Copy>(v: &mut Vec<T>, base: usize, mid: usize, stride: usize)
    requires
        1 <= mid,
        2 * mid <= stride,
        block_ok(base as int, 2 * mid as int, stride as int, old(v)@.len() as int),
    ensures
        final(v)@.len() == old(v)@.len(),
        forall|x: int, y: int|
            0 <= x < mid && 0 <= y < mid ==> final(v)@[#[trigger] bcell(
                base as int,
                stride as int,
                x,
                mid + y,
            )] == old(v)@[bcell(base as int, stride as int, mid + x, y)],
        forall|x: int, y: int|
            0 <= x < mid && 0 <= y < mid ==> final(v)@[#[trigger] bcell(
                base as int,
                stride as int,
                mid + x,
                y,
            )] == old(v)@[bcell(base as int, stride as int, x, mid + y)],
        forall|p: int|
            0 <= p < old(v)@.len() && !in_block(
                base as int + mid as int,
                mid as int,
                stride as int,
                p,
            ) && !in_block(
                base as int + mid as int * stride as int,
                mid as int,
                stride as int,
                p,
            ) ==> final(v)@[p] == old(v)@[p],
{
    let ghost b = base as int;
    let ghost s = stride as int;
    let ghost m = mid as int;
    let ghost s0 = v@;
    let _vlen = v.len();
    proof {
        assert(s0.len() <= usize::MAX);
    }
    let mut i: usize = 0;
    while i < mid
        invariant
            i <= mid,
            v@.len() == s0.len(),
            forall|x: int, y: int|
                0 <= x < m && 0 <= y < m ==> v@[#[trigger] bcell(b, s, x, m + y)] == (
                if lex_done(i as int, 0, x, y) {
                    s0[bcell(b, s, m + x, y)]
                } else {
                    s0[bcell(b, s, x, m + y)]
                }),
            forall|x: int, y: int|
                0 <= x < m && 0 <= y < m ==> v@[#[trigger] bcell(b, s, m + x, y)] == (
                if lex_done(i as int, 0, x, y) {
                    s0[bcell(b, s, x, m + y)]
                } else {
                    s0[bcell(b, s, m + x, y)]
                }),
            forall|p: int|
                0 <= p < s0.len() && !in_block(b + m, m, s, p) && !in_block(b + m * s, m, s, p)
                    ==> v@[p] == s0[p],
        decreases mid - i,
    {
        let mut j: usize = 0;
        while j < mid
            invariant
                i < mid,
                j <= mid,
                v@.len() == s0.len(),
                forall|x: int, y: int|
                    0 <= x < m && 0 <= y < m ==> v@[#[trigger] bcell(b, s, x, m + y)] == (
                    if lex_done(i as int, j as int, x, y) {
                        s0[bcell(b, s, m + x, y)]
                    } else {
                        s0[bcell(b, s, x, m + y)]
                    }),
                forall|x: int, y: int|
                    0 <= x < m && 0 <= y < m ==> v@[#[trigger] bcell(b, s, m + x, y)] == (
                    if lex_done(i as int, j as int, x, y) {
                        s0[bcell(b, s, x, m + y)]
                    } else {
                        s0[bcell(b, s, m + x, y)]
                    }),
                forall|p: int|
                    0 <= p < s0.len() && !in_block(b + m, m, s, p) && !in_block(
                        b + m * s,
                        m,
                        s,
                        p,
                    ) ==> v@[p] == s0[p],
            decreases mid - j,
        {
            let ii = i;
            let jj = j;
            proof {
                lemma_bcell_in_range(b, 2 * m, s, s0.len() as int, ii as int, m + jj as int);
                lemma_bcell_in_range(b, 2 * m, s, s0.len() as int, m + ii as int, jj as int);
                assert(b + (ii as int) * s + (jj as int) + m < s0.len());
                assert(b + (m + ii as int) * s + (jj as int) < s0.len());
                assert((ii as int) * s >= 0 && (m + ii as int) * s >= 0) by (nonlinear_arith)
                    requires
                        ii as int >= 0,
                        m >= 0,
                        s >= 0,
                ;
                // the two cells are distinct: their rows differ
                assert(bcell(b, s, ii as int, m + jj as int) != bcell(
                    b,
                    s,
                    m + ii as int,
                    jj as int,
                )) by {
                    if bcell(b, s, ii as int, m + jj as int) == bcell(
                        b,
                        s,
                        m + ii as int,
                        jj as int,
                    ) {
                        lemma_bcell_inj(b, s, ii as int, m + jj as int, m + ii as int, jj as int);
                    }
                }
                // each swapped cell belongs to its quadrant
                lemma_sub_block_membership(b, s, ii as int, m + jj as int, 0, m, m);
                lemma_sub_block_membership(b, s, m + ii as int, jj as int, m, 0, m);
            }
            let p1 = base + i * stride + j + mid;
            let p2 = base + (i + mid) * stride + j;
            proof {
                assert(p1 as int == bcell(b, s, ii as int, m + jj as int));
                assert(p2 as int == bcell(b, s, m + ii as int, jj as int));
            }
            let t1 = v[p1];
            let t2 = v[p2];
            let ghost before = v@;
            v[p1] = t2;
            v[p2] = t1;
            proof {
                let c1 = bcell(b, s, ii as int, m + jj as int);
                let c2 = bcell(b, s, m + ii as int, jj as int);
                assert(v@ =~= before.update(c1, t2).update(c2, t1));
                assert forall|x: int, y: int| 0 <= x < m && 0 <= y < m implies v@[
                    #[trigger] bcell(b, s, x, m + y)] == (if lex_done(
                    ii as int,
                    jj as int + 1,
                    x,
                    y,
                ) {
                    s0[bcell(b, s, m + x, y)]
                } else {
                    s0[bcell(b, s, x, m + y)]
                }) by {
                    let tr = bcell(b, s, x, m + y);
                    let bl = bcell(b, s, m + x, y);
                    lemma_bcell_in_range(b, 2 * m, s, s0.len() as int, x, m + y);
                    lemma_bcell_in_range(b, 2 * m, s, s0.len() as int, m + x, y);
                    if x == ii as int && y == jj as int {
                        assert(tr == c1 && bl == c2);
                        assert(before[c2] == s0[c2] && before[c1] == s0[c1]);
                    } else {
                        assert(tr != c1) by {
                            if tr == c1 {
                                lemma_bcell_inj(b, s, x, m + y, ii as int, m + jj as int);
                            }
                        }
                        assert(tr != c2) by {
                            if tr == c2 {
                                lemma_bcell_inj(b, s, x, m + y, m + ii as int, jj as int);
                            }
                        }
                        assert(bl != c1) by {
                            if bl == c1 {
                                lemma_bcell_inj(b, s, m + x, y, ii as int, m + jj as int);
                            }
                        }
                        assert(bl != c2) by {
                            if bl == c2 {
                                lemma_bcell_inj(b, s, m + x, y, m + ii as int, jj as int);
                            }
                        }
                    }
                }
                assert forall|x: int, y: int| 0 <= x < m && 0 <= y < m implies v@[
                    #[trigger] bcell(b, s, m + x, y)] == (if lex_done(
                    ii as int,
                    jj as int + 1,
                    x,
                    y,
                ) {
                    s0[bcell(b, s, x, m + y)]
                } else {
                    s0[bcell(b, s, m + x, y)]
                }) by {
                    let tr = bcell(b, s, x, m + y);
                    let bl = bcell(b, s, m + x, y);
                    lemma_bcell_in_range(b, 2 * m, s, s0.len() as int, x, m + y);
                    lemma_bcell_in_range(b, 2 * m, s, s0.len() as int, m + x, y);
                    if x == ii as int && y == jj as int {
                        assert(tr == c1 && bl == c2);
                        assert(before[c2] == s0[c2] && before[c1] == s0[c1]);
                    } else {
                        assert(tr != c1) by {
                            if tr == c1 {
                                lemma_bcell_inj(b, s, x, m + y, ii as int, m + jj as int);
                            }
                        }
                        assert(tr != c2) by {
                            if tr == c2 {
                                lemma_bcell_inj(b, s, x, m + y, m + ii as int, jj as int);
                            }
                        }
                        assert(bl != c1) by {
                            if bl == c1 {
                                lemma_bcell_inj(b, s, m + x, y, ii as int, m + jj as int);
                            }
                        }
                        assert(bl != c2) by {
                            if bl == c2 {
                                lemma_bcell_inj(b, s, m + x, y, m + ii as int, jj as int);
                            }
                        }
                    }
                }
            }
            j += 1;
        }
        i += 1;
    }
}

/// For odd `n`, swap the last row of the block with its last column,
/// excluding the corner.
#[verifier::loop_isolation(false)]
fn fixup_last<T: Copy>(v: &mut Vec<T>, base: usize, n: usize, stride: usize)
    requires
        1 <= n <= stride,
        block_ok(base as int, n as int, stride as int, old(v)@.len() as int),
    ensures
        final(v)@.len() == old(v)@.len(),
        forall|t: int|
            0 <= t < n - 1 ==> final(v)@[#[trigger] bcell(
                base as int,
                stride as int,
                n as int - 1,
                t,
            )] == old(v)@[bcell(base as int, stride as int, t, n as int - 1)],
        forall|t: int|
            0 <= t < n - 1 ==> final(v)@[#[trigger] bcell(
                base as int,
                stride as int,
                t,
                n as int - 1,
            )] == old(v)@[bcell(base as int, stride as int, n as int - 1, t)],
        forall|p: int|
            0 <= p < old(v)@.len() && !fix_touched(base as int, n as int, stride as int, p)
                ==> final(v)@[p] == old(v)@[p],
{
    let ghost b = base as int;
    let ghost s = stride as int;
    let ghost nn = n as int;
    let ghost s0 = v@;
    let _vlen = v.len();
    proof {
        assert(s0.len() <= usize::MAX);
    }
    let last = n - 1;
    let mut t: usize = 0;
    while t < last
        invariant
            t <= last,
            last == n - 1,
            v@.len() == s0.len(),
            forall|x: int|
                0 <= x < nn - 1 ==> v@[#[trigger] bcell(b, s, nn - 1, x)] == (if x < t as int {
                    s0[bcell(b, s, x, nn - 1)]
                } else {
                    s0[bcell(b, s, nn - 1, x)]
                }),
            forall|x: int|
                0 <= x < nn - 1 ==> v@[#[trigger] bcell(b, s, x, nn - 1)] == (if x < t as int {
                    s0[bcell(b, s, nn - 1, x)]
                } else {
                    s0[bcell(b, s, x, nn - 1)]
                }),
            forall|p: int|
                0 <= p < s0.len() && !fix_touched(b, nn, s, p) ==> v@[p] == s0[p],
        decreases last - t,
    {
        let tt = t;
        proof {
            lemma_bcell_in_range(b, nn, s, s0.len() as int, nn - 1, tt as int);
            lemma_bcell_in_range(b, nn, s, s0.len() as int, tt as int, nn - 1);
            assert(b + (nn - 1) * s + (tt as int) < s0.len());
            assert(b + (tt as int) * s + (nn - 1) < s0.len());
            assert((nn - 1) * s >= 0 && (tt as int) * s >= 0) by (nonlinear_arith)
                requires
                    nn >= 1,
                    tt as int >= 0,
                    s >= 0,
            ;
            assert(bcell(b, s, nn - 1, tt as int) != bcell(b, s, tt as int, nn - 1)) by {
                if bcell(b, s, nn - 1, tt as int) == bcell(b, s, tt as int, nn - 1) {
                    lemma_bcell_inj(b, s, nn - 1, tt as int, tt as int, nn - 1);
                }
            }
            // both cells are touched positions
            lemma_bcell_coords(b, s, nn - 1, tt as int);
            lemma_bcell_coords(b, s, tt as int, nn - 1);
        }
        let p1 = base + (n - 1) * stride + t;
        let p2 = base + t * stride + (n - 1);
        proof {
            assert(p1 as int == bcell(b, s, nn - 1, tt as int));
            assert(p2 as int == bcell(b, s, tt as int, nn - 1));
        }
        let t1 = v[p1];
        let t2 = v[p2];
        let ghost before = v@;
        v[p1] = t2;
        v[p2] = t1;
        proof {
            let c1 = bcell(b, s, nn - 1, tt as int);
            let c2 = bcell(b, s, tt as int, nn - 1);
            assert(v@ =~= before.update(c1, t2).update(c2, t1));
            assert forall|x: int| 0 <= x < nn - 1 implies v@[#[trigger] bcell(b, s, nn - 1, x)]
                == (if x < tt as int + 1 {
                s0[bcell(b, s, x, nn - 1)]
            } else {
                s0[bcell(b, s, nn - 1, x)]
            }) by {
                let rowc = bcell(b, s, nn - 1, x);
                let colc = bcell(b, s, x, nn - 1);
                lemma_bcell_in_range(b, nn, s, s0.len() as int, nn - 1, x);
                lemma_bcell_in_range(b, nn, s, s0.len() as int, x, nn - 1);
                if x == tt as int {
                    assert(rowc == c1 && colc == c2);
                    assert(before[c2] == s0[c2] && before[c1] == s0[c1]);
                } else {
                    assert(rowc != c1) by {
                        if rowc == c1 {
                            lemma_bcell_inj(b, s, nn - 1, x, nn - 1, tt as int);
                        }
                    }
                    assert(rowc != c2) by {
                        if rowc == c2 {
                            lemma_bcell_inj(b, s, nn - 1, x, tt as int, nn - 1);
                        }
                    }
                    assert(colc != c1) by {
                        if colc == c1 {
                            lemma_bcell_inj(b, s, x, nn - 1, nn - 1, tt as int);
                        }
                    }
                    assert(colc != c2) by {
                        if colc == c2 {
                            lemma_bcell_inj(b, s, x, nn - 1, tt as int, nn - 1);
                        }
                    }
                }
            }
            assert forall|x: int| 0 <= x < nn - 1 implies v@[#[trigger] bcell(b, s, x, nn - 1)]
                == (if x < tt as int + 1 {
                s0[bcell(b, s, nn - 1, x)]
            } else {
                s0[bcell(b, s, x, nn - 1)]
            }) by {
                let rowc = bcell(b, s, nn - 1, x);
                let colc = bcell(b, s, x, nn - 1);
                lemma_bcell_in_range(b, nn, s, s0.len() as int, nn - 1, x);
                lemma_bcell_in_range(b, nn, s, s0.len() as int, x, nn - 1);
                if x == tt as int {
                    assert(rowc == c1 && colc == c2);
                    assert(before[c2] == s0[c2] && before[c1] == s0[c1]);
                } else {
                    assert(rowc != c1) by {
                        if rowc == c1 {
                            lemma_bcell_inj(b, s, nn - 1, x, nn - 1, tt as int);
                        }
                    }
                    assert(rowc != c2) by {
                        if rowc == c2 {
                            lemma_bcell_inj(b, s, nn - 1, x, tt as int, nn - 1);
                        }
                    }
                    assert(colc != c1) by {
                        if colc == c1 {
                            lemma_bcell_inj(b, s, x, nn - 1, nn - 1, tt as int);
                        }
                    }
                    assert(colc != c2) by {
                        if colc == c2 {
                            lemma_bcell_inj(b, s, x, nn - 1, tt as int, nn - 1);
                        }
                    }
                }
            }
        }
        t += 1;
    }
}


/// Cells of sub-blocks shifted by whole quadrants, rewritten in the
/// coordinates of the surrounding block.
proof fn lemma_quadrant_cells(b: int, s: int, m: int)
    ensures
        forall|x: int, y: int| #[trigger] bcell(b + m * s, s, x, y) == bcell(b, s, m + x, y),
        forall|x: int, y: int| #[trigger] bcell(b + m * s + m, s, x, y) == bcell(b, s, m + x, m + y),
        forall|x: int, y: int| #[trigger] bcell(b + m, s, x, y) == bcell(b, s, x, m + y),
{
    assert forall|x: int, y: int| #[trigger] bcell(b + m * s, s, x, y) == bcell(b, s, m + x, y) by {
        assert((m + x) * s == m * s + x * s) by (nonlinear_arith);
    }
    assert forall|x: int, y: int| #[trigger] bcell(b + m * s + m, s, x, y) == bcell(
        b,
        s,
        m + x,
        m + y,
    ) by {
        assert((m + x) * s == m * s + x * s) by (nonlinear_arith);
    }
    assert forall|x: int, y: int| #[trigger] bcell(b + m, s, x, y) == bcell(b, s, x, m + y) by {}
}

/// Cache-oblivious in-place transpose of an `n x n` block: transpose the
/// four quadrants recursively, swap the two off-diagonal quadrants cell
/// for cell, and for odd `n` fix up the leftover last row and column.
fn transpose_block_rec<T: Copy>(v: &mut Vec<T>, base: usize, n: usize, stride: usize)
    requires
        n <= stride,
        block_ok(base as int, n as int, stride as int, old(v)@.len() as int),
    ensures
        final(v)@.len() == old(v)@.len(),
        forall|r: int, c: int|
            0 <= r < n && 0 <= c < n ==> final(v)@[#[trigger] bcell(
                base as int,
                stride as int,
                r,
                c,
            )] == old(v)@[bcell(base as int, stride as int, c, r)],
        forall|p: int|
            0 <= p < old(v)@.len() && !in_block(base as int, n as int, stride as int, p)
                ==> final(v)@[p] == old(v)@[p],
    decreases n,
{
    if n <= 32 {
        transpose_square_block(v, base, n, stride);
    } else {
        let ghost b = base as int;
        let ghost s = stride as int;
        let ghost nn = n as int;
        let ghost s0 = v@;
        let ghost len = s0.len() as int;
        let mid = n / 2;
        let ghost m = mid as int;
        let _vlen = v.len();
        proof {
            assert(len <= usize::MAX);
            assert(2 * m <= nn && nn <= 2 * m + 1);
            assert(b + (nn - 1) * s + nn <= len);
            assert(0 <= (nn - 1) * s) by (nonlinear_arith)
                requires
                    1 <= nn,
                    0 <= s,
            ;
            // every quadrant, and the double-size block, fit in the buffer
            assert((m - 1) * s <= (nn - 1) * s && (2 * m - 1) * s <= (nn - 1) * s && m * s <= (nn
                - 1) * s && 0 <= (m - 1) * s) by (nonlinear_arith)
                requires
                    1 <= m,
                    2 * m <= nn,
                    0 <= s,
            ;
            assert(m * s + (m - 1) * s == (2 * m - 1) * s && m * s + m * s == (2 * m) * s)
                by (nonlinear_arith);
            assert((2 * m - 1) * s + 2 * m <= (nn - 1) * s + nn);
            assert(block_ok(b, m, s, len));
            assert(block_ok(b + m, m, s, len));
            assert(block_ok(b + m * s, m, s, len));
            assert(block_ok(b + m * s + m, m, s, len));
            assert(block_ok(b, 2 * m, s, len));
        }
        transpose_block_rec(v, base, mid, stride);
        let ghost s1 = v@;
        transpose_block_rec(v, base + mid, mid, stride);
        let ghost s2 = v@;
        transpose_block_rec(v, base + mid * stride, mid, stride);
        let ghost s3 = v@;
        transpose_block_rec(v, base + mid * stride + mid, mid, stride);
        let ghost s4 = v@;
        swap_blocks(v, base, mid, stride);
        let ghost s5 = v@;
        if n % 2 == 1 {
            fixup_last(v, base, n, stride);
        }
        proof {
            let sfin = v@;
            let b2 = b + m;
            let b3 = b + m * s;
            let b4 = b + m * s + m;
            lemma_quadrant_cells(b, s, m);
            assert(b + 0 * s + 0 == b && b + 0 * s + m == b + m && b + m * s + 0 == b + m * s)
                by (nonlinear_arith);
            assert forall|r: int, c: int| 0 <= r < nn && 0 <= c < nn implies sfin[
                #[trigger] bcell(b, s, r, c)] == s0[bcell(b, s, c, r)] by {
                let p = bcell(b, s, r, c);
                let pm = bcell(b, s, c, r);
                lemma_bcell_in_range(b, nn, s, len, r, c);
                lemma_bcell_in_range(b, nn, s, len, c, r);
                lemma_bcell_coords(b, s, r, c);
                lemma_bcell_coords(b, s, c, r);
                lemma_sub_block_membership(b, s, r, c, 0, 0, m);
                lemma_sub_block_membership(b, s, r, c, 0, m, m);
                lemma_sub_block_membership(b, s, r, c, m, 0, m);
                lemma_sub_block_membership(b, s, r, c, m, m, m);
                lemma_sub_block_membership(b, s, c, r, 0, 0, m);
                lemma_sub_block_membership(b, s, c, r, 0, m, m);
                lemma_sub_block_membership(b, s, c, r, m, 0, m);
                lemma_sub_block_membership(b, s, c, r, m, m, m);
                if r < m && c < m {
                    // written by the first recursive call, untouched after
                    assert(s1[p] == s0[pm]);
                    assert(s2[p] == s1[p]);
                    assert(s3[p] == s2[p]);
                    assert(s4[p] == s3[p]);
                    assert(s5[p] == s4[p]);
                    if nn % 2 == 1 {
                        assert(!fix_touched(b, nn, s, p));
                    }
                    assert(sfin[p] == s5[p]);
                } else if r < m && c < 2 * m {
                    // a top-right target: the block swap pulled it from the
                    // transposed bottom-left quadrant
                    let cc = c - m;
                    assert(p == bcell(b, s, r, m + cc));
                    let q = bcell(b, s, m + r, cc);
                    let w = bcell(b, s, m + cc, r);
                    lemma_bcell_in_range(b, nn, s, len, m + r, cc);
                    lemma_bcell_in_range(b, nn, s, len, m + cc, r);
                    assert(s5[p] == s4[q]);
                    lemma_sub_block_membership(b, s, m + r, cc, m, m, m);
                    assert(bcell(b3, s, r, cc) == q && bcell(b3, s, cc, r) == w);
                    assert(s4[q] == s3[q]);
                    assert(s3[q] == s2[w]);
                    lemma_sub_block_membership(b, s, m + cc, r, 0, 0, m);
                    lemma_sub_block_membership(b, s, m + cc, r, 0, m, m);
                    assert(s2[w] == s1[w]);
                    assert(s1[w] == s0[w]);
                    assert(w == pm);
                    if nn % 2 == 1 {
                        assert(!fix_touched(b, nn, s, p));
                    }
                    assert(sfin[p] == s5[p]);
                } else if c < m && r < 2 * m {
                    // a bottom-left target, symmetric to the previous case
                    let rr = r - m;
                    assert(p == bcell(b, s, m + rr, c));
                    let q = bcell(b, s, c, m + rr);
                    let w = bcell(b, s, rr, m + c);
                    lemma_bcell_in_range(b, nn, s, len, c, m + rr);
                    lemma_bcell_in_range(b, nn, s, len, rr, m + c);
                    assert(s5[p] == s4[w]);
                    lemma_sub_block_membership(b, s, rr, m + c, m, 0, m);
                    lemma_sub_block_membership(b, s, rr, m + c, m, m, m);
                    assert(bcell(b2, s, rr, c) == w && bcell(b2, s, c, rr) == q);
                    assert(s4[w] == s3[w]);
                    assert(s3[w] == s2[w]);
                    assert(s2[w] == s1[q]);
                    lemma_sub_block_membership(b, s, c, m + rr, 0, 0, m);
                    assert(s1[q] == s0[q]);
                    assert(q == pm);
                    if nn % 2 == 1 {
                        assert(!fix_touched(b, nn, s, p));
                    }
                    assert(sfin[p] == s5[p]);
                } else if r < 2 * m && c < 2 * m {
                    // a bottom-right target: transposed in place by the
                    // fourth recursive call
                    let rr = r - m;
                    let cc = c - m;
                    assert(bcell(b4, s, rr, cc) == p && bcell(b4, s, cc, rr) == pm);
                    assert(s4[p] == s3[pm]);
                    assert(s3[pm] == s2[pm]);
                    assert(s2[pm] == s1[pm]);
                    assert(s1[pm] == s0[pm]);
                    assert(s5[p] == s4[p]);
                    if nn % 2 == 1 {
                        assert(!fix_touched(b, nn, s, p));
                    }
                    assert(sfin[p] == s5[p]);
                } else {
                    // the leftover last row and column of an odd block
                    assert(nn == 2 * m + 1);
                    assert(r == nn - 1 || c == nn - 1);
                    if r == nn - 1 && c == nn - 1 {
                        assert(p == pm);
                        assert(s1[p] == s0[p]);
                        assert(s2[p] == s1[p]);
                        assert(s3[p] == s2[p]);
                        assert(s4[p] == s3[p]);
                        assert(s5[p] == s4[p]);
                        assert(!fix_touched(b, nn, s, p));
                        assert(sfin[p] == s5[p]);
                    } else if r == nn - 1 {
                        assert(p == bcell(b, s, nn - 1, c) && pm == bcell(b, s, c, nn - 1));
                        assert(sfin[p] == s5[pm]);
                        assert(s1[pm] == s0[pm]);
                        assert(s2[pm] == s1[pm]);
                        assert(s3[pm] == s2[pm]);
                        assert(s4[pm] == s3[pm]);
                        assert(s5[pm] == s4[pm]);
                    } else {
                        assert(c == nn - 1);
                        assert(p == bcell(b, s, r, nn - 1) && pm == bcell(b, s, nn - 1, r));
                        assert(sfin[p] == s5[pm]);
                        assert(s1[pm] == s0[pm]);
                        assert(s2[pm] == s1[pm]);
                        assert(s3[pm] == s2[pm]);
                        assert(s4[pm] == s3[pm]);
                        assert(s5[pm] == s4[pm]);
                    }
                }
            }
            assert forall|p: int|
                0 <= p < len && !in_block(b, nn, s, p) implies sfin[p] == s0[p] by {
                if in_block(b, m, s, p) {
                    lemma_sub_block_in_big(b, s, 0, 0, m, nn, p);
                }
                if in_block(b2, m, s, p) {
                    lemma_sub_block_in_big(b, s, 0, m, m, nn, p);
                }
                if in_block(b3, m, s, p) {
                    lemma_sub_block_in_big(b, s, m, 0, m, nn, p);
                }
                if in_block(b4, m, s, p) {
                    lemma_sub_block_in_big(b, s, m, m, m, nn, p);
                }
                assert(s1[p] == s0[p]);
                assert(s2[p] == s1[p]);
                assert(s3[p] == s2[p]);
                assert(s4[p] == s3[p]);
                assert(s5[p] == s4[p]);
                if nn % 2 == 1 {
                    assert(!fix_touched(b, nn, s, p));
                }
                assert(sfin[p] == s5[p]);
            }
        }
    }
}

/// In-place transpose of the leading `n x n` block by symmetric quadrant
/// recursion over the flat buffer.
pub fn matrix_transpose_cache_oblivious<T: Copy>(matrix: &mut Vec<T>, n: usize)
    requires
        n * n <= old(matrix)@.len(),
    ensures
        final(matrix)@ == sq_transpose(old(matrix)@, n as int),
{
    proof {
        assert((n as int - 1) * n as int + n as int == n as int * n as int) by (nonlinear_arith);
    }
    transpose_block_rec(matrix, 0, n, n);
    proof {
        lemma_block0_is_sq_transpose(old(matrix)@, matrix@, n as int);
    }
}


/// The pairs the bounded-box transpose swaps: `(i, j)` with `i` in the
/// row range, `j` in the column range, and `j` strictly below `i`.
pub open spec fn swapped_pair(x0: int, y0: int, x1: int, y1: int, i: int, j: int) -> bool {
    x0 <= i < x1 && y0 <= j < y1 && j < i
}

/// Offsets the bounded-box transpose may write: both cells of every
/// swapped pair.
pub open spec fn pair_touched(x0: int, y0: int, x1: int, y1: int, stride: int, p: int) -> bool {
    &&& 0 < stride
    &&& 0 <= p
    &&& {
        let q = p / stride;
        let r = p % stride;
        swapped_pair(x0, y0, x1, y1, q, r) || swapped_pair(x0, y0, x1, y1, r, q)
    }
}

/// Cache-oblivious transpose over the rectangular index range
/// `[x0, x1) x [y0, y1)` of a square buffer, splitting the longer axis;
/// cells at or above the diagonal within the range are left to their
/// mirrored counterparts.
#[verifier::loop_isolation(false)]
fn transpose_bounded_rec<T: Copy>(
    v: &mut Vec<T>,
    x0: usize,
    y0: usize,
    x1: usize,
    y1: usize,
    stride: usize,
)
    requires
        x0 <= x1,
        y0 <= y1,
        x1 <= stride,
        y1 <= stride,
        stride * stride <= old(v)@.len(),
    ensures
        final(v)@.len() == old(v)@.len(),
        forall|i: int, j: int|
            swapped_pair(x0 as int, y0 as int, x1 as int, y1 as int, i, j) ==> final(v)@[
                #[trigger] bcell(0, stride as int, i, j)] == old(v)@[bcell(0, stride as int, j, i)],
        forall|i: int, j: int|
            swapped_pair(x0 as int, y0 as int, x1 as int, y1 as int, i, j) ==> final(v)@[
                #[trigger] bcell(0, stride as int, j, i)] == old(v)@[bcell(0, stride as int, i, j)],
        forall|p: int|
            0 <= p < old(v)@.len() && !pair_touched(
                x0 as int,
                y0 as int,
                x1 as int,
                y1 as int,
                stride as int,
                p,
            ) ==> final(v)@[p] == old(v)@[p],
    decreases (x1 - x0) + (y1 - y0),
{
    let ghost s = stride as int;
    let ghost gx0 = x0 as int;
    let ghost gy0 = y0 as int;
    let ghost gx1 = x1 as int;
    let ghost gy1 = y1 as int;
    let ghost s0 = v@;
    let ghost len = s0.len() as int;
    if x1 - x0 <= 16 && y1 - y0 <= 16 {
        let _vlen = v.len();
        proof {
            assert(len <= usize::MAX);
        }
        let mut i = x0;
        while i < x1
            invariant
                x0 <= i <= x1,
                v@.len() == s0.len(),
                forall|a: int, c: int|
                    swapped_pair(gx0, gy0, gx1, gy1, a, c) ==> v@[#[trigger] bcell(0, s, a, c)]
                        == (if lex_done(i as int, y0 as int, a, c) {
                        s0[bcell(0, s, c, a)]
                    } else {
                        s0[bcell(0, s, a, c)]
                    }),
                forall|a: int, c: int|
                    swapped_pair(gx0, gy0, gx1, gy1, a, c) ==> v@[#[trigger] bcell(0, s, c, a)]
                        == (if lex_done(i as int, y0 as int, a, c) {
                        s0[bcell(0, s, a, c)]
                    } else {
                        s0[bcell(0, s, c, a)]
                    }),
                forall|p: int|
                    0 <= p < s0.len() && !pair_touched(gx0, gy0, gx1, gy1, s, p) ==> v@[p]
                        == s0[p],
            decreases x1 - i,
        {
            let lim = if y1 < i {
                y1
            } else {
                i
            };
            let mut j = y0;
            while j < lim
                invariant
                    x0 <= i < x1,
                    y0 <= j,
                    j as int <= max(y0 as int, lim as int),
                    lim == min(y1 as int, i as int),
                    v@.len() == s0.len(),
                    forall|a: int, c: int|
                        swapped_pair(gx0, gy0, gx1, gy1, a, c) ==> v@[#[trigger] bcell(
                            0,
                            s,
                            a,
                            c,
                        )] == (if lex_done(i as int, j as int, a, c) {
                            s0[bcell(0, s, c, a)]
                        } else {
                            s0[bcell(0, s, a, c)]
                        }),
                    forall|a: int, c: int|
                        swapped_pair(gx0, gy0, gx1, gy1, a, c) ==> v@[#[trigger] bcell(
                            0,
                            s,
                            c,
                            a,
                        )] == (if lex_done(i as int, j as int, a, c) {
                            s0[bcell(0, s, a, c)]
                        } else {
                            s0[bcell(0, s, c, a)]
                        }),
                    forall|p: int|
                        0 <= p < s0.len() && !pair_touched(gx0, gy0, gx1, gy1, s, p) ==> v@[p]
                            == s0[p],
                decreases lim - j,
            {
                let ii = i;
                let jj = j;
                proof {
                    assert(jj < ii && jj < y1);
                    assert((ii as int) * s + jj < s * s && (jj as int) * s + ii < s * s && 0 <= (
                    ii as int) * s && 0 <= (jj as int) * s) by (nonlinear_arith)
                        requires
                            0 <= ii as int,
                            (ii as int) < s,
                            0 <= jj as int,
                            (jj as int) < s,
                    ;
                    assert(bcell(0, s, ii as int, jj as int) != bcell(0, s, jj as int, ii as int))
                        by {
                        if bcell(0, s, ii as int, jj as int) == bcell(0, s, jj as int, ii as int) {
                            lemma_bcell_inj(0, s, ii as int, jj as int, jj as int, ii as int);
                        }
                    }
                    lemma_bcell_coords(0, s, ii as int, jj as int);
                    lemma_bcell_coords(0, s, jj as int, ii as int);
                }
                let p1 = i * stride + j;
                let p2 = j * stride + i;
                proof {
                    assert(p1 as int == bcell(0, s, ii as int, jj as int));
                    assert(p2 as int == bcell(0, s, jj as int, ii as int));
                }
                let t1 = v[p1];
                let t2 = v[p2];
                let ghost before = v@;
                v[p1] = t2;
                v[p2] = t1;
                proof {
                    let c1 = bcell(0, s, ii as int, jj as int);
                    let c2 = bcell(0, s, jj as int, ii as int);
                    assert(v@ =~= before.update(c1, t2).update(c2, t1));
                    assert forall|a: int, c: int|
                        swapped_pair(gx0, gy0, gx1, gy1, a, c) implies v@[#[trigger] bcell(
                        0,
                        s,
                        a,
                        c,
                    )] == (if lex_done(ii as int, jj as int + 1, a, c) {
                        s0[bcell(0, s, c, a)]
                    } else {
                        s0[bcell(0, s, a, c)]
                    }) by {
                        let low = bcell(0, s, a, c);
                        assert(0 <= low && low < len) by (nonlinear_arith)
                            requires
                                low == a * s + c,
                                0 <= a,
                                a < s,
                                0 <= c,
                                c < s,
                                s * s <= len,
                        ;
                        if a == ii as int && c == jj as int {
                            assert(low == c1);
                            assert(before[c2] == s0[c2]);
                        } else {
                            assert(low != c1) by {
                                if low == c1 {
                                    lemma_bcell_inj(0, s, a, c, ii as int, jj as int);
                                }
                            }
                            assert(low != c2) by {
                                if low == c2 {
                                    lemma_bcell_inj(0, s, a, c, jj as int, ii as int);
                                }
                            }
                        }
                    }
                    assert forall|a: int, c: int|
                        swapped_pair(gx0, gy0, gx1, gy1, a, c) implies v@[#[trigger] bcell(
                        0,
                        s,
                        c,
                        a,
                    )] == (if lex_done(ii as int, jj as int + 1, a, c) {
                        s0[bcell(0, s, a, c)]
                    } else {
                        s0[bcell(0, s, c, a)]
                    }) by {
                        let up = bcell(0, s, c, a);
                        assert(0 <= up && up < len) by (nonlinear_arith)
                            requires
                                up == c * s + a,
                                0 <= a,
                                a < s,
                                0 <= c,
                                c < s,
                                s * s <= len,
                        ;
                        if a == ii as int && c == jj as int {
                            assert(up == c2);
                            assert(before[c1] == s0[c1]);
                        } else {
                            assert(up != c1) by {
                                if up == c1 {
                                    lemma_bcell_inj(0, s, c, a, ii as int, jj as int);
                                }
                            }
                            assert(up != c2) by {
                                if up == c2 {
                                    lemma_bcell_inj(0, s, c, a, jj as int, ii as int);
                                }
                            }
                        }
                    }
                }
                j += 1;
            }
            proof {
                assert forall|a: int, c: int|
                    swapped_pair(gx0, gy0, gx1, gy1, a, c) implies lex_done(
                    i as int,
                    j as int,
                    a,
                    c,
                ) == lex_done(i as int + 1, y0 as int, a, c) by {
                    if a == i as int && c < min(gy1, i as int) {
                        assert(c < j as int);
                    }
                }
            }
            i += 1;
        }
    } else if (x1 - x0) > (y1 - y0) {
        let mid = x0 + (x1 - x0) / 2;
        transpose_bounded_rec(v, x0, y0, mid, y1, stride);
        let ghost sa = v@;
        transpose_bounded_rec(v, mid, y0, x1, y1, stride);
        proof {
            let gm = mid as int;
            let sfin = v@;
            assert forall|i: int, j: int|
                swapped_pair(gx0, gy0, gx1, gy1, i, j) implies sfin[#[trigger] bcell(0, s, i, j)]
                == s0[bcell(0, s, j, i)] && sfin[bcell(0, s, j, i)] == s0[bcell(0, s, i, j)] by {
                let low = bcell(0, s, i, j);
                let up = bcell(0, s, j, i);
                lemma_bcell_coords(0, s, i, j);
                lemma_bcell_coords(0, s, j, i);
                assert(0 <= low < len && 0 <= up < len) by (nonlinear_arith)
                    requires
                        low == i * s + j,
                        up == j * s + i,
                        0 <= i < s,
                        0 <= j < s,
                        s * s <= len,
                ;
                if i < gm {
                    assert(sa[low] == s0[up] && sa[up] == s0[low]);
                    assert(!pair_touched(gm, gy0, gx1, gy1, s, low));
                    assert(!pair_touched(gm, gy0, gx1, gy1, s, up));
                } else {
                    assert(sfin[low] == sa[up] && sfin[up] == sa[low]);
                    assert(!pair_touched(gx0, gy0, gm, gy1, s, low));
                    assert(!pair_touched(gx0, gy0, gm, gy1, s, up));
                }
            }
        }
    } else {
        let mid = y0 + (y1 - y0) / 2;
        transpose_bounded_rec(v, x0, y0, x1, mid, stride);
        let ghost sa = v@;
        transpose_bounded_rec(v, x0, mid, x1, y1, stride);
        proof {
            let gm = mid as int;
            let sfin = v@;
            assert forall|i: int, j: int|
                swapped_pair(gx0, gy0, gx1, gy1, i, j) implies sfin[#[trigger] bcell(0, s, i, j)]
                == s0[bcell(0, s, j, i)] && sfin[bcell(0, s, j, i)] == s0[bcell(0, s, i, j)] by {
                let low = bcell(0, s, i, j);
                let up = bcell(0, s, j, i);
                lemma_bcell_coords(0, s, i, j);
                lemma_bcell_coords(0, s, j, i);
                assert(0 <= low < len && 0 <= up < len) by (nonlinear_arith)
                    requires
                        low == i * s + j,
                        up == j * s + i,
                        0 <= i < s,
                        0 <= j < s,
                        s * s <= len,
                ;
                if j < gm {
                    assert(sa[low] == s0[up] && sa[up] == s0[low]);
                    assert(!pair_touched(gx0, gm, gx1, gy1, s, low));
                    assert(!pair_touched(gx0, gm, gx1, gy1, s, up));
                } else {
                    assert(sfin[low] == sa[up] && sfin[up] == sa[low]);
                    assert(!pair_touched(gx0, gy0, gx1, gm, s, low));
                    assert(!pair_touched(gx0, gy0, gx1, gm, s, up));
                }
            }
        }
    }
}

/// In-place transpose of the leading `n x n` block by bounded-box
/// recursion: split whichever axis of the active rectangle is longer.
pub fn matrix_transpose_cache_oblivious_fast<T: Copy>(matrix: &mut Vec<T>, n: usize)
    requires
        n * n <= old(matrix)@.len(),
    ensures
        final(matrix)@ == sq_transpose(old(matrix)@, n as int),
{
    transpose_bounded_rec(matrix, 0, 0, n, n, n);
    proof {
        let nn = n as int;
        let s0 = old(matrix)@;
        let s1 = matrix@;
        let len = s0.len() as int;
        assert forall|i: int, j: int| 0 <= i < nn && 0 <= j < nn implies s1[#[trigger] bcell(
            0,
            nn,
            i,
            j,
        )] == s0[bcell(0, nn, j, i)] by {
            lemma_bcell_coords(0, nn, i, j);
            if j < i {
                assert(swapped_pair(0, 0, nn, nn, i, j));
            } else if i < j {
                assert(swapped_pair(0, 0, nn, nn, j, i));
            } else {
                assert(0 <= bcell(0, nn, i, j) < len) by (nonlinear_arith)
                    requires
                        bcell(0, nn, i, j) == i * nn + j,
                        0 <= i < nn,
                        0 <= j < nn,
                        nn * nn <= len,
                ;
                assert(!pair_touched(0, 0, nn, nn, nn, bcell(0, nn, i, j)));
            }
        }
        assert forall|p: int|
            0 <= p < len && !in_block(0, nn, nn, p) implies s1[p] == s0[p] by {
            if pair_touched(0, 0, nn, nn, nn, p) {
                assert(in_block(0, nn, nn, p));
            }
        }
        lemma_block0_is_sq_transpose(s0, s1, nn);
    }
}


/// Why a `Matrix` operation was refused.
#[derive(Debug, Clone, Copy, PartialEq, Eq, Structural)]
pub enum MatrixError {
    /// Multiply operands whose shared dimension disagrees, or
    /// constructor data whose length disagrees with the stated shape.
    DimensionMismatch,
    /// An element access outside `[0, rows) x [0, cols)`.
    IndexOutOfRange,
}

/// A dense matrix over a flat row-major store: element `(i, j)` lives at
/// offset `i * cols + j`.
#[derive(Debug)]
pub struct Matrix {
    data: Vec<i64>,
    n: usize,
    m: usize,
}

impl Matrix {
    /// Number of rows.
    pub closed spec fn rows(&self) -> int {
        self.n as int
    }

    /// Number of columns.
    pub closed spec fn cols(&self) -> int {
        self.m as int
    }

    /// The backing store, row-major.
    pub closed spec fn data_seq(&self) -> Seq<i64> {
        self.data@
    }

    /// The store length always matches the shape.
    pub open spec fn wf(&self) -> bool {
        &&& 0 <= self.rows()
        &&& 0 <= self.cols()
        &&& self.data_seq().len() == self.rows() * self.cols()
    }

    /// Element `(i, j)`.
    pub open spec fn entry(&self, i: int, j: int) -> i64 {
        self.data_seq()[i * self.cols() + j]
    }

    /// `(i, j)` addresses an element.
    pub open spec fn valid_index(&self, i: int, j: int) -> bool {
        0 <= i < self.rows() && 0 <= j < self.cols()
    }
}

/// `t` is the transpose of `a`: the shape is flipped and every element
/// is mirrored.
pub open spec fn is_transpose(a: Matrix, t: Matrix) -> bool {
    &&& t.rows() == a.cols()
    &&& t.cols() == a.rows()
    &&& forall|i: int, j: int|
        a.valid_index(i, j) ==> t.entry(j, i) == #[trigger] a.entry(i, j)
}

/// A row-major offset of a `rows x cols` matrix stays inside the store.
proof fn lemma_rc_bounds(i: int, j: int, rows: int, cols: int)
    requires
        0 <= i < rows,
        0 <= j < cols,
    ensures
        0 <= i * cols + j < rows * cols,
        i * cols + j == bcell(0, cols, i, j),
{
    assert(0 <= i * cols + j < rows * cols) by (nonlinear_arith)
        requires
            0 <= i < rows,
            0 <= j < cols,
    ;
}

/// Positions of the target a region-transpose pass may write: rows in
/// `[y0, y1)`, columns in `[x0, x1)`.
pub open spec fn rect_touched(x0: int, y0: int, x1: int, y1: int, tcols: int, p: int) -> bool {
    &&& 0 < tcols
    &&& 0 <= p
    &&& y0 <= p / tcols < y1
    &&& x0 <= p % tcols < x1
}

impl Matrix {
    /// A zero-filled `n x m` matrix.
    pub fn new(n: usize, m: usize) -> (r: Matrix)
        requires
            n * m <= usize::MAX,
        ensures
            r.wf(),
            r.rows() == n,
            r.cols() == m,
            forall|k: int| 0 <= k < n * m ==> r.data_seq()[k] == 0i64,
    {
        let size = n * m;
        let data = vec![0i64; size];
        Matrix { data, n, m }
    }

    /// Wrap an existing row-major store, refusing data whose length does
    /// not match the shape.
    pub fn from_vec(data: Vec<i64>, n: usize, m: usize) -> (r: Result<Matrix, MatrixError>)
        ensures
            r is Ok <==> data@.len() == (n as int) * (m as int),
            r is Ok ==> r.unwrap().wf() && r.unwrap().rows() == n && r.unwrap().cols() == m
                && r.unwrap().data_seq() == data@,
            r is Err ==> r.get_Err_0() == MatrixError::DimensionMismatch,
    {
        let _dl = data.len();
        if m != 0 && n > usize::MAX / m {
            proof {
                let q = usize::MAX as int / m as int;
                lemma_fundamental_div_mod(usize::MAX as int, m as int);
                assert((n as int) * (m as int) >= (q + 1) * (m as int)) by (nonlinear_arith)
                    requires
                        n as int >= q + 1,
                        m as int >= 1,
                ;
                assert((q + 1) * (m as int) > usize::MAX as int) by (nonlinear_arith)
                    requires
                        usize::MAX as int == (m as int) * q + usize::MAX as int % (m as int),
                        (usize::MAX as int % (m as int)) < m as int,
                ;
            }
            return Err(MatrixError::DimensionMismatch);
        }
        proof {
            if m != 0 {
                let q = usize::MAX as int / m as int;
                lemma_fundamental_div_mod(usize::MAX as int, m as int);
                assert((n as int) * (m as int) <= q * (m as int)) by (nonlinear_arith)
                    requires
                        n as int <= q,
                        m as int >= 1,
                ;
                assert(q * (m as int) <= usize::MAX as int) by (nonlinear_arith)
                    requires
                        usize::MAX as int == (m as int) * q + usize::MAX as int % (m as int),
                        (usize::MAX as int % (m as int)) >= 0,
                ;
            } else {
                assert((n as int) * 0 == 0) by (nonlinear_arith);
            }
        }
        let size = n * m;
        if data.len() != size {
            return Err(MatrixError::DimensionMismatch);
        }
        Ok(Matrix { data, n, m })
    }

    /// Read element `(i, j)`, refusing indices outside the shape.
    pub fn get(&self, i: usize, j: usize) -> (r: Result<i64, MatrixError>)
        requires
            self.wf(),
        ensures
            r is Ok <==> self.valid_index(i as int, j as int),
            r is Ok ==> r.unwrap() == self.entry(i as int, j as int),
            r is Err ==> r.get_Err_0() == MatrixError::IndexOutOfRange,
    {
        if i >= self.n || j >= self.m {
            return Err(MatrixError::IndexOutOfRange);
        }
        let _dl = self.data.len();
        proof {
            lemma_rc_bounds(i as int, j as int, self.rows(), self.cols());
        }
        Ok(self.data[i * self.m + j])
    }

    /// Write element `(i, j)`, refusing indices outside the shape.
    pub fn set(&mut self, i: usize, j: usize, value: i64) -> (r: Result<(), MatrixError>)
        requires
            old(self).wf(),
        ensures
            final(self).wf(),
            final(self).rows() == old(self).rows(),
            final(self).cols() == old(self).cols(),
            r is Ok <==> old(self).valid_index(i as int, j as int),
            r is Ok ==> final(self).data_seq() == old(self).data_seq().update(
                i as int * old(self).cols() + j as int,
                value,
            ),
            r is Err ==> final(self).data_seq() == old(self).data_seq() && r.get_Err_0()
                == MatrixError::IndexOutOfRange,
    {
        if i >= self.n || j >= self.m {
            return Err(MatrixError::IndexOutOfRange);
        }
        let _dl = self.data.len();
        proof {
            lemma_rc_bounds(i as int, j as int, self.rows(), self.cols());
        }
        self.data[i * self.m + j] = value;
        Ok(())
    }

    /// Borrow element `(i, j)` mutably, refusing indices outside the
    /// shape.
    pub fn get_mut(&mut self, i: usize, j: usize) -> (r: Result<&mut i64, MatrixError>)
        requires
            old(self).wf(),
        ensures
            r is Ok <==> old(self).valid_index(i as int, j as int),
            r matches Ok(e) ==> *e == old(self).entry(i as int, j as int)
                && final(self).data_seq() == old(self).data_seq().update(
                i as int * old(self).cols() + j as int,
                *final(e),
            ) && final(self).rows() == old(self).rows() && final(self).cols() == old(self).cols(),
            r matches Err(e) ==> e == MatrixError::IndexOutOfRange && *final(self) == *old(self),
    {
        if i >= self.n || j >= self.m {
            return Err(MatrixError::IndexOutOfRange);
        }
        let _dl = self.data.len();
        proof {
            lemma_rc_bounds(i as int, j as int, self.rows(), self.cols());
        }
        Ok(&mut self.data[i * self.m + j])
    }

    /// Copy the region `[x0, x1) x [y0, y1)` of `self`, mirrored, into
    /// `target`, splitting the longer axis until both spans are small.
    fn transpose_to_rec(
        &self,
        target: &mut Matrix,
        x0: usize,
        y0: usize,
        x1: usize,
        y1: usize,
    )
        requires
            self.wf(),
            old(target).wf(),
            old(target).rows() == self.cols(),
            old(target).cols() == self.rows(),
            x0 <= x1,
            y0 <= y1,
            x1 <= self.rows(),
            y1 <= self.cols(),
        ensures
            final(target).wf(),
            final(target).rows() == old(target).rows(),
            final(target).cols() == old(target).cols(),
            forall|i: int, j: int|
                x0 <= i < x1 && y0 <= j < y1 ==> final(target).data_seq()[#[trigger] bcell(
                    0,
                    old(target).cols(),
                    j,
                    i,
                )] == self.data_seq()[bcell(0, self.cols(), i, j)],
            forall|p: int|
                0 <= p < old(target).data_seq().len() && !rect_touched(
                    x0 as int,
                    y0 as int,
                    x1 as int,
                    y1 as int,
                    old(target).cols(),
                    p,
                ) ==> final(target).data_seq()[p] == old(target).data_seq()[p],
        decreases (x1 - x0) + (y1 - y0),
    {
        let ghost tc = old(target).cols();
        let ghost sc = self.cols();
        let ghost t0 = old(target).data_seq();
        let ghost len = t0.len() as int;
        if x1 - x0 <= 16 && y1 - y0 <= 16 {
            let _dls = self.data.len();
            let dlt = target.data.len();
            let mut i = x0;
            while i < x1
                invariant
                    self.wf(),
                    target.wf(),
                    target.rows() == old(target).rows(),
                    target.cols() == old(target).cols(),
                    tc == old(target).cols(),
                    sc == self.cols(),
                    t0 == old(target).data_seq(),
                    len == t0.len() as int,
                    old(target).rows() == self.cols(),
                    old(target).cols() == self.rows(),
                    x0 <= i <= x1,
                    x1 <= self.rows(),
                    y0 <= y1 <= self.cols(),
                    target.data_seq().len() == t0.len(),
                    t0.len() <= usize::MAX,
                    self.data_seq().len() <= usize::MAX,
                    forall|a: int, c: int|
                        x0 <= a < x1 && y0 <= c < y1 ==> target.data_seq()[#[trigger] bcell(
                            0,
                            tc,
                            c,
                            a,
                        )] == (if lex_done(i as int, y0 as int, a, c) {
                            self.data_seq()[bcell(0, sc, a, c)]
                        } else {
                            t0[bcell(0, tc, c, a)]
                        }),
                    forall|p: int|
                        0 <= p < t0.len() && !rect_touched(
                            x0 as int,
                            y0 as int,
                            x1 as int,
                            y1 as int,
                            tc,
                            p,
                        ) ==> target.data_seq()[p] == t0[p],
                decreases x1 - i,
            {
                let mut j = y0;
                while j < y1
                    invariant
                        self.wf(),
                        target.wf(),
                        target.rows() == old(target).rows(),
                        target.cols() == old(target).cols(),
                        tc == old(target).cols(),
                        sc == self.cols(),
                        t0 == old(target).data_seq(),
                        len == t0.len() as int,
                        old(target).rows() == self.cols(),
                        old(target).cols() == self.rows(),
                        x0 <= i < x1,
                        y0 <= j <= y1,
                        x1 <= self.rows(),
                        y0 <= y1 <= self.cols(),
                        target.data_seq().len() == t0.len(),
                        t0.len() <= usize::MAX,
                        self.data_seq().len() <= usize::MAX,
                        forall|a: int, c: int|
                            x0 <= a < x1 && y0 <= c < y1 ==> target.data_seq()[#[trigger] bcell(
                                0,
                                tc,
                                c,
                                a,
                            )] == (if lex_done(i as int, j as int, a, c) {
                                self.data_seq()[bcell(0, sc, a, c)]
                            } else {
                                t0[bcell(0, tc, c, a)]
                            }),
                        forall|p: int|
                            0 <= p < t0.len() && !rect_touched(
                                x0 as int,
                                y0 as int,
                                x1 as int,
                                y1 as int,
                                tc,
                                p,
                            ) ==> target.data_seq()[p] == t0[p],
                    decreases y1 - j,
                {
                    let ii = i;
                    let jj = j;
                    proof {
                        lemma_rc_bounds(ii as int, jj as int, self.rows(), self.cols());
                        lemma_rc_bounds(jj as int, ii as int, target.rows(), target.cols());
                        lemma_bcell_coords(0, tc, jj as int, ii as int);
                    }
                    let val = self.data[i * self.m + j];
                    let ghost before = target.data_seq();
                    target.data[j * target.m + i] = val;
                    proof {
                        let w = bcell(0, tc, jj as int, ii as int);
                        assert(target.data_seq() =~= before.update(w, val));
                        assert forall|a: int, c: int|
                            x0 <= a < x1 && y0 <= c < y1 implies target.data_seq()[
                            #[trigger] bcell(0, tc, c, a)] == (if lex_done(
                            ii as int,
                            jj as int + 1,
                            a,
                            c,
                        ) {
                            self.data_seq()[bcell(0, sc, a, c)]
                        } else {
                            t0[bcell(0, tc, c, a)]
                        }) by {
                            let q = bcell(0, tc, c, a);
                            lemma_rc_bounds(c, a, old(target).rows(), tc);
                            if a == ii as int && c == jj as int {
                                assert(q == w);
                            } else {
                                assert(q != w) by {
                                    if q == w {
                                        lemma_bcell_inj(0, tc, c, a, jj as int, ii as int);
                                    }
                                }
                            }
                        }
                        assert forall|p: int|
                            0 <= p < t0.len() && !rect_touched(
                                x0 as int,
                                y0 as int,
                                x1 as int,
                                y1 as int,
                                tc,
                                p,
                            ) implies target.data_seq()[p] == t0[p] by {
                            assert(p != w);
                        }
                    }
                    j += 1;
                }
                proof {
                    assert forall|a: int, c: int|
                        x0 <= a < x1 && y0 <= c < y1 implies lex_done(i as int, y1 as int, a, c)
                        == lex_done(i as int + 1, y0 as int, a, c) by {}
                }
                i += 1;
            }
        } else if (x1 - x0) > (y1 - y0) {
            let mid = x0 + (x1 - x0) / 2;
            self.transpose_to_rec(target, x0, y0, mid, y1);
            self.transpose_to_rec(target, mid, y0, x1, y1);
            proof {
                let gm = mid as int;
                assert forall|i: int, j: int|
                    x0 <= i < x1 && y0 <= j < y1 implies target.data_seq()[#[trigger] bcell(
                    0,
                    tc,
                    j,
                    i,
                )] == self.data_seq()[bcell(0, sc, i, j)] by {
                    let w = bcell(0, tc, j, i);
                    lemma_rc_bounds(j, i, old(target).rows(), tc);
                    lemma_bcell_coords(0, tc, j, i);
                    if i < gm {
                        assert(!rect_touched(gm, y0 as int, x1 as int, y1 as int, tc, w));
                    }
                }
            }
        } else {
            let mid = y0 + (y1 - y0) / 2;
            self.transpose_to_rec(target, x0, y0, x1, mid);
            self.transpose_to_rec(target, x0, mid, x1, y1);
            proof {
                let gm = mid as int;
                assert forall|i: int, j: int|
                    x0 <= i < x1 && y0 <= j < y1 implies target.data_seq()[#[trigger] bcell(
                    0,
                    tc,
                    j,
                    i,
                )] == self.data_seq()[bcell(0, sc, i, j)] by {
                    let w = bcell(0, tc, j, i);
                    lemma_rc_bounds(j, i, old(target).rows(), tc);
                    lemma_bcell_coords(0, tc, j, i);
                    if j < gm {
                        assert(!rect_touched(x0 as int, gm, x1 as int, y1 as int, tc, w));
                    }
                }
            }
        }
    }

    /// The transpose as a fresh matrix; the receiver is not changed.
    pub fn transpose(&self) -> (r: Matrix)
        requires
            self.wf(),
        ensures
            r.wf(),
            is_transpose(*self, r),
    {
        let _dlen = self.data.len();
        proof {
            assert(_dlen as int == self.rows() * self.cols());
            assert((self.m as int) * (self.n as int) == (self.n as int) * (self.m as int))
                by (nonlinear_arith);
        }
        let mut target = Matrix::new(self.m, self.n);
        self.transpose_to_rec(&mut target, 0, 0, self.n, self.m);
        proof {
            assert forall|i: int, j: int| self.valid_index(i, j) implies target.entry(j, i)
                == #[trigger] self.entry(i, j) by {
                lemma_rc_bounds(i, j, self.rows(), self.cols());
                lemma_rc_bounds(j, i, target.rows(), target.cols());
                assert(target.data_seq()[bcell(0, target.cols(), j, i)] == self.data_seq()[bcell(
                    0,
                    self.cols(),
                    i,
                    j,
                )]);
            }
        }
        target
    }
}

/// Transposing a transpose restores every element and the shape.
pub proof fn lemma_transpose_involution(a: Matrix, t: Matrix, tt: Matrix)
    requires
        a.wf(),
        t.wf(),
        tt.wf(),
        is_transpose(a, t),
        is_transpose(t, tt),
    ensures
        tt.rows() == a.rows(),
        tt.cols() == a.cols(),
        tt.data_seq() == a.data_seq(),
{
    assert forall|p: int| 0 <= p < a.data_seq().len() implies tt.data_seq()[p]
        == a.data_seq()[p] by {
        let c = a.cols();
        if c > 0 {
            let i = p / c;
            let j = p % c;
            lemma_fundamental_div_mod(p, c);
            assert(0 <= j < c);
            assert(i < a.rows()) by (nonlinear_arith)
                requires
                    p == c * i + j,
                    0 <= j < c,
                    p < a.rows() * c,
                    c > 0,
            ;
            assert(i >= 0) by {
                vstd::arithmetic::div_mod::lemma_div_pos_is_pos(p, c);
            }
            assert(a.valid_index(i, j));
            assert(t.valid_index(j, i));
            assert(t.entry(j, i) == a.entry(i, j));
            assert(tt.entry(i, j) == t.entry(j, i));
            assert(p == i * c + j) by (nonlinear_arith)
                requires
                    p == c * i + j,
            ;
        } else {
            assert(a.data_seq().len() == 0) by (nonlinear_arith)
                requires
                    a.data_seq().len() == a.rows() * c,
                    c == 0,
            ;
        }
    }
    assert(tt.data_seq().len() == a.data_seq().len()) by (nonlinear_arith)
        requires
            tt.data_seq().len() == tt.rows() * tt.cols(),
            a.data_seq().len() == a.rows() * a.cols(),
            tt.rows() == a.rows(),
            tt.cols() == a.cols(),
    ;
    assert(tt.data_seq() =~= a.data_seq());
}


/// One term of a dot product: `a[i][k] * b[k][j]`, as an unbounded
/// integer.
pub open spec fn prod_term(a: Matrix, b: Matrix, i: int, j: int, k: int) -> int {
    (a.entry(i, k) as int) * (b.entry(k, j) as int)
}

/// Partial dot product of row `i` of `a` with column `j` of `b` over the
/// shared-dimension range `[k0, k1)`.
pub open spec fn dot_range(a: Matrix, b: Matrix, i: int, j: int, k0: int, k1: int) -> int
    decreases k1 - k0,
{
    if k1 <= k0 {
        0
    } else {
        dot_range(a, b, i, j, k0, k1 - 1) + prod_term(a, b, i, j, k1 - 1)
    }
}

/// The shapes admit a product.
pub open spec fn mul_ok(a: Matrix, b: Matrix) -> bool {
    a.cols() == b.rows()
}

/// Element `(i, j)` of the product of `a` and `b`.
pub open spec fn product_entry(a: Matrix, b: Matrix, i: int, j: int) -> int {
    dot_range(a, b, i, j, 0, a.cols())
}

/// `c` is the matrix product of `a` and `b`.
pub open spec fn is_product(a: Matrix, b: Matrix, c: Matrix) -> bool {
    &&& c.wf()
    &&& c.rows() == a.rows()
    &&& c.cols() == b.cols()
    &&& forall|i: int, j: int|
        0 <= i < a.rows() && 0 <= j < b.cols() ==> c.entry(i, j) == #[trigger] product_entry(
            a,
            b,
            i,
            j,
        )
}

/// Every partial dot product and every single term stays inside `i64`:
/// the machine-level precondition of all three multiply strategies.
pub open spec fn mul_fits(a: Matrix, b: Matrix) -> bool {
    &&& forall|i: int, j: int, t: int|
        0 <= i < a.rows() && 0 <= j < b.cols() && 0 <= t <= a.cols() ==> i64::MIN
            <= #[trigger] dot_range(a, b, i, j, 0, t) <= i64::MAX
    &&& forall|i: int, j: int, k: int|
        0 <= i < a.rows() && 0 <= j < b.cols() && 0 <= k < a.cols() ==> i64::MIN
            <= #[trigger] prod_term(a, b, i, j, k) <= i64::MAX
}

/// A dot product against an all-zero right operand vanishes.
proof fn lemma_dot_range_zero(a: Matrix, b: Matrix, i: int, j: int, k0: int, k1: int)
    requires
        mul_ok(a, b),
        0 <= j < b.cols(),
        0 <= k0,
        k1 <= a.cols(),
        forall|x: int, y: int| b.valid_index(x, y) ==> #[trigger] b.entry(x, y) == 0,
    ensures
        dot_range(a, b, i, j, k0, k1) == 0,
    decreases k1 - k0,
{
    if k1 > k0 {
        lemma_dot_range_zero(a, b, i, j, k0, k1 - 1);
        assert(b.valid_index(k1 - 1, j));
        assert(b.entry(k1 - 1, j) == 0);
        assert((a.entry(i, k1 - 1) as int) * 0 == 0) by (nonlinear_arith);
    }
}

/// All strategies compute the same matrix: any two products of the same
/// operands agree in shape and in every element.
pub proof fn lemma_mul_strategies_agree(a: Matrix, b: Matrix, c1: Matrix, c2: Matrix)
    requires
        is_product(a, b, c1),
        is_product(a, b, c2),
    ensures
        c1.rows() == c2.rows(),
        c1.cols() == c2.cols(),
        c1.data_seq() == c2.data_seq(),
{
    let cc = b.cols();
    assert forall|p: int| 0 <= p < c1.data_seq().len() implies c1.data_seq()[p]
        == c2.data_seq()[p] by {
        if cc > 0 {
            let i = p / cc;
            let j = p % cc;
            lemma_fundamental_div_mod(p, cc);
            assert(0 <= j < cc);
            assert(i < c1.rows()) by (nonlinear_arith)
                requires
                    p == cc * i + j,
                    0 <= j < cc,
                    p < c1.rows() * cc,
                    cc > 0,
            ;
            assert(i >= 0) by {
                vstd::arithmetic::div_mod::lemma_div_pos_is_pos(p, cc);
            }
            assert(c1.entry(i, j) == product_entry(a, b, i, j));
            assert(c2.entry(i, j) == product_entry(a, b, i, j));
            assert(p == i * cc + j) by (nonlinear_arith)
                requires
                    p == cc * i + j,
            ;
        } else {
            assert(c1.data_seq().len() == 0) by (nonlinear_arith)
                requires
                    c1.data_seq().len() == c1.rows() * cc,
                    cc == 0,
            ;
        }
    }
    assert(c1.data_seq().len() == c2.data_seq().len()) by (nonlinear_arith)
        requires
            c1.data_seq().len() == c1.rows() * c1.cols(),
            c2.data_seq().len() == c2.rows() * c2.cols(),
            c1.rows() == c2.rows(),
            c1.cols() == c2.cols(),
    ;
    assert(c1.data_seq() =~= c2.data_seq());
}

/// Multiplying by an all-zero matrix yields an all-zero result of the
/// right shape.
pub proof fn lemma_mul_zero(a: Matrix, b: Matrix, c: Matrix)
    requires
        a.wf(),
        b.wf(),
        mul_ok(a, b),
        is_product(a, b, c),
        forall|x: int, y: int| b.valid_index(x, y) ==> #[trigger] b.entry(x, y) == 0,
    ensures
        c.rows() == a.rows(),
        c.cols() == b.cols(),
        forall|i: int, j: int| c.valid_index(i, j) ==> #[trigger] c.entry(i, j) == 0,
{
    assert forall|i: int, j: int| c.valid_index(i, j) implies #[trigger] c.entry(i, j) == 0 by {
        lemma_dot_range_zero(a, b, i, j, 0, a.cols());
        assert(c.entry(i, j) == product_entry(a, b, i, j));
    }
}

impl Matrix {
    /// The product by the direct triple loop, the baseline oracle.
    #[verifier::loop_isolation(false)]
    pub fn simple_mul(&self, other: &Matrix) -> (r: Result<Matrix, MatrixError>)
        requires
            self.wf(),
            other.wf(),
            mul_ok(*self, *other) ==> mul_fits(*self, *other) && self.rows() * other.cols()
                <= usize::MAX,
        ensures
            r is Ok <==> mul_ok(*self, *other),
            r is Ok ==> is_product(*self, *other, r.unwrap()),
            r is Err ==> r.get_Err_0() == MatrixError::DimensionMismatch,
    {
        if self.m != other.n {
            return Err(MatrixError::DimensionMismatch);
        }
        let ghost ga = *self;
        let ghost gb = *other;
        let _dls = self.data.len();
        let _dlo = other.data.len();
        let n = self.n;
        let m2 = other.m;
        let kk = self.m;
        let mut result = Matrix::new(n, m2);
        let ghost mc = m2 as int;
        let mut i: usize = 0;
        while i < n
            invariant
                i <= n,
                result.wf(),
                result.rows() == n as int,
                result.cols() == mc,
                forall|a: int, c: int|
                    0 <= a < n as int && 0 <= c < mc && lex_done(i as int, 0, a, c)
                        ==> result.data_seq()[#[trigger] bcell(0, mc, a, c)] as int == product_entry(
                        ga,
                        gb,
                        a,
                        c,
                    ),
            decreases n - i,
        {
            let mut j: usize = 0;
            while j < m2
                invariant
                    i < n,
                    j <= m2,
                    result.wf(),
                    result.rows() == n as int,
                    result.cols() == mc,
                    forall|a: int, c: int|
                        0 <= a < n as int && 0 <= c < mc && lex_done(i as int, j as int, a, c)
                            ==> result.data_seq()[#[trigger] bcell(0, mc, a, c)] as int
                            == product_entry(ga, gb, a, c),
                decreases m2 - j,
            {
                let mut sum: i64 = 0;
                let mut k: usize = 0;
                while k < kk
                    invariant
                        i < n,
                        j < m2,
                        k <= kk,
                        sum as int == dot_range(ga, gb, i as int, j as int, 0, k as int),
                    decreases kk - k,
                {
                    proof {
                        lemma_rc_bounds(i as int, k as int, ga.rows(), ga.cols());
                        lemma_rc_bounds(k as int, j as int, gb.rows(), gb.cols());
                        assert(i64::MIN <= prod_term(ga, gb, i as int, j as int, k as int)
                            <= i64::MAX);
                        assert(i64::MIN <= dot_range(ga, gb, i as int, j as int, 0, k as int + 1)
                            <= i64::MAX);
                        assert(dot_range(ga, gb, i as int, j as int, 0, k as int + 1) == dot_range(
                            ga,
                            gb,
                            i as int,
                            j as int,
                            0,
                            k as int,
                        ) + prod_term(ga, gb, i as int, j as int, k as int));
                    }
                    sum = sum + self.data[i * self.m + k] * other.data[k * other.m + j];
                    k += 1;
                }
                proof {
                    lemma_rc_bounds(i as int, j as int, n as int, mc);
                }
                let ghost before = result.data_seq();
                result.data[i * m2 + j] = sum;
                proof {
                    let w = bcell(0, mc, i as int, j as int);
                    assert(result.data_seq() =~= before.update(w, sum));
                    assert forall|a: int, c: int|
                        0 <= a < n as int && 0 <= c < mc && lex_done(
                            i as int,
                            j as int + 1,
                            a,
                            c,
                        ) implies result.data_seq()[#[trigger] bcell(0, mc, a, c)] as int
                        == product_entry(ga, gb, a, c) by {
                        let q = bcell(0, mc, a, c);
                        lemma_rc_bounds(a, c, n as int, mc);
                        if a == i as int && c == j as int {
                            assert(q == w);
                        } else {
                            assert(q != w) by {
                                if q == w {
                                    lemma_bcell_inj(0, mc, a, c, i as int, j as int);
                                }
                            }
                        }
                    }
                }
                j += 1;
            }
            i += 1;
        }
        proof {
            assert forall|a: int, c: int|
                0 <= a < ga.rows() && 0 <= c < gb.cols() implies result.entry(a, c)
                == #[trigger] product_entry(ga, gb, a, c) by {
                lemma_rc_bounds(a, c, n as int, mc);
            }
        }
        Ok(result)
    }

    /// The product after transposing the right operand, so that both
    /// inner scans run along rows.
    #[verifier::loop_isolation(false)]
    pub fn transpose_mul(&self, other: &Matrix) -> (r: Result<Matrix, MatrixError>)
        requires
            self.wf(),
            other.wf(),
            mul_ok(*self, *other) ==> mul_fits(*self, *other) && self.rows() * other.cols()
                <= usize::MAX,
        ensures
            r is Ok <==> mul_ok(*self, *other),
            r is Ok ==> is_product(*self, *other, r.unwrap()),
            r is Err ==> r.get_Err_0() == MatrixError::DimensionMismatch,
    {
        if self.m != other.n {
            return Err(MatrixError::DimensionMismatch);
        }
        let ghost ga = *self;
        let ghost gb = *other;
        let other_transposed = other.transpose();
        let ghost gt = other_transposed;
        let _dls = self.data.len();
        let _dlo = other_transposed.data.len();
        let n = self.n;
        let m2 = other.m;
        let kk = self.m;
        let mut result = Matrix::new(n, m2);
        let ghost mc = m2 as int;
        let mut i: usize = 0;
        while i < n
            invariant
                i <= n,
                result.wf(),
                result.rows() == n as int,
                result.cols() == mc,
                forall|a: int, c: int|
                    0 <= a < n as int && 0 <= c < mc && lex_done(i as int, 0, a, c)
                        ==> result.data_seq()[#[trigger] bcell(0, mc, a, c)] as int == product_entry(
                        ga,
                        gb,
                        a,
                        c,
                    ),
            decreases n - i,
        {
            let mut j: usize = 0;
            while j < m2
                invariant
                    i < n,
                    j <= m2,
                    result.wf(),
                    result.rows() == n as int,
                    result.cols() == mc,
                    forall|a: int, c: int|
                        0 <= a < n as int && 0 <= c < mc && lex_done(i as int, j as int, a, c)
                            ==> result.data_seq()[#[trigger] bcell(0, mc, a, c)] as int
                            == product_entry(ga, gb, a, c),
                decreases m2 - j,
            {
                let mut sum: i64 = 0;
                let mut k: usize = 0;
                while k < kk
                    invariant
                        i < n,
                        j < m2,
                        k <= kk,
                        sum as int == dot_range(ga, gb, i as int, j as int, 0, k as int),
                    decreases kk - k,
                {
                    proof {
                        lemma_rc_bounds(i as int, k as int, ga.rows(), ga.cols());
                        lemma_rc_bounds(j as int, k as int, gt.rows(), gt.cols());
                        assert(gb.valid_index(k as int, j as int));
                        assert(gt.entry(j as int, k as int) == gb.entry(k as int, j as int));
                        assert(i64::MIN <= prod_term(ga, gb, i as int, j as int, k as int)
                            <= i64::MAX);
                        assert(i64::MIN <= dot_range(ga, gb, i as int, j as int, 0, k as int + 1)
                            <= i64::MAX);
                        assert(dot_range(ga, gb, i as int, j as int, 0, k as int + 1) == dot_range(
                            ga,
                            gb,
                            i as int,
                            j as int,
                            0,
                            k as int,
                        ) + prod_term(ga, gb, i as int, j as int, k as int));
                    }
                    sum = sum + self.data[i * self.m + k] * other_transposed.data[k
                        + j * other_transposed.m];
                    k += 1;
                }
                proof {
                    lemma_rc_bounds(i as int, j as int, n as int, mc);
                }
                let ghost before = result.data_seq();
                result.data[i * m2 + j] = sum;
                proof {
                    let w = bcell(0, mc, i as int, j as int);
                    assert(result.data_seq() =~= before.update(w, sum));
                    assert forall|a: int, c: int|
                        0 <= a < n as int && 0 <= c < mc && lex_done(
                            i as int,
                            j as int + 1,
                            a,
                            c,
                        ) implies result.data_seq()[#[trigger] bcell(0, mc, a, c)] as int
                        == product_entry(ga, gb, a, c) by {
                        let q = bcell(0, mc, a, c);
                        lemma_rc_bounds(a, c, n as int, mc);
                        if a == i as int && c == j as int {
                            assert(q == w);
                        } else {
                            assert(q != w) by {
                                if q == w {
                                    lemma_bcell_inj(0, mc, a, c, i as int, j as int);
                                }
                            }
                        }
                    }
                }
                j += 1;
            }
            i += 1;
        }
        proof {
            assert forall|a: int, c: int|
                0 <= a < ga.rows() && 0 <= c < gb.cols() implies result.entry(a, c)
                == #[trigger] product_entry(ga, gb, a, c) by {
                lemma_rc_bounds(a, c, n as int, mc);
            }
        }
        Ok(result)
    }
}


impl Matrix {
    /// One recursion step of the block multiply: add, into every result
    /// cell of `[ax0, ax1) x [by0, by1)`, the partial products over the
    /// shared-dimension range `[ay0, ay1)`.  Each cell enters holding the
    /// dot product over `[0, ay0)` and leaves holding it over `[0, ay1)`.
    #[verifier::loop_isolation(false)]
    fn mul_rec(
        &self,
        ax0: usize,
        ax1: usize,
        ay0: usize,
        ay1: usize,
        other: &Matrix,
        by0: usize,
        by1: usize,
        result: &mut Matrix,
        cx0: usize,
        cx1: usize,
    )
        requires
            self.wf(),
            other.wf(),
            old(result).wf(),
            mul_ok(*self, *other),
            mul_fits(*self, *other),
            old(result).rows() == self.rows(),
            old(result).cols() == other.cols(),
            ax0 <= ax1,
            ax1 as int <= self.rows(),
            ay0 <= ay1,
            ay1 as int <= self.cols(),
            by0 <= by1,
            by1 as int <= other.cols(),
            cx0 == by0,
            cx1 == by1,
            forall|a: int, c: int|
                ax0 <= a < ax1 && by0 <= c < by1 ==> old(result).data_seq()[#[trigger] bcell(
                    0,
                    other.cols(),
                    a,
                    c,
                )] as int == dot_range(*self, *other, a, c, 0, ay0 as int),
        ensures
            final(result).wf(),
            final(result).rows() == old(result).rows(),
            final(result).cols() == old(result).cols(),
            forall|a: int, c: int|
                ax0 <= a < ax1 && by0 <= c < by1 ==> final(result).data_seq()[#[trigger] bcell(
                    0,
                    other.cols(),
                    a,
                    c,
                )] as int == dot_range(*self, *other, a, c, 0, ay1 as int),
            forall|p: int|
                0 <= p < old(result).data_seq().len() && !rect_touched(
                    by0 as int,
                    ax0 as int,
                    by1 as int,
                    ax1 as int,
                    other.cols(),
                    p,
                ) ==> final(result).data_seq()[p] == old(result).data_seq()[p],
        decreases (ax1 - ax0) + (ay1 - ay0) + (by1 - by0),
    {
        let ghost ga = *self;
        let ghost gb = *other;
        let ghost mc = other.cols();
        let ghost r0 = old(result).data_seq();
        if ax1 - ax0 <= 16 && ay1 - ay0 <= 16 && by1 - by0 <= 16 {
            let _dls = self.data.len();
            let _dlo = other.data.len();
            let _dlr = result.data.len();
            let mut i = ax0;
            while i < ax1
                invariant
                    ax0 <= i <= ax1,
                    result.wf(),
                    result.rows() == old(result).rows(),
                    result.cols() == old(result).cols(),
                    forall|a: int, c: int|
                        ax0 <= a < ax1 && by0 <= c < by1 ==> result.data_seq()[#[trigger] bcell(
                            0,
                            mc,
                            a,
                            c,
                        )] as int == (if lex_done(i as int, by0 as int, a, c) {
                            dot_range(ga, gb, a, c, 0, ay1 as int)
                        } else {
                            dot_range(ga, gb, a, c, 0, ay0 as int)
                        }),
                    forall|p: int|
                        0 <= p < r0.len() && !rect_touched(
                            by0 as int,
                            ax0 as int,
                            by1 as int,
                            ax1 as int,
                            mc,
                            p,
                        ) ==> result.data_seq()[p] == r0[p],
                decreases ax1 - i,
            {
                let mut j = by0;
                while j < by1
                    invariant
                        ax0 <= i < ax1,
                        by0 <= j <= by1,
                        result.wf(),
                        result.rows() == old(result).rows(),
                        result.cols() == old(result).cols(),
                        forall|a: int, c: int|
                            ax0 <= a < ax1 && by0 <= c < by1 ==> result.data_seq()[
                            #[trigger] bcell(0, mc, a, c)] as int == (if lex_done(
                                i as int,
                                j as int,
                                a,
                                c,
                            ) {
                                dot_range(ga, gb, a, c, 0, ay1 as int)
                            } else {
                                dot_range(ga, gb, a, c, 0, ay0 as int)
                            }),
                        forall|p: int|
                            0 <= p < r0.len() && !rect_touched(
                                by0 as int,
                                ax0 as int,
                                by1 as int,
                                ax1 as int,
                                mc,
                                p,
                            ) ==> result.data_seq()[p] == r0[p],
                    decreases by1 - j,
                {
                    proof {
                        lemma_rc_bounds(i as int, j as int, result.rows(), mc);
                    }
                    let mut sum = result.data[i * result.m + j];
                    let mut k = ay0;
                    proof {
                        assert(!lex_done(i as int, j as int, i as int, j as int));
                    }
                    while k < ay1
                        invariant
                            ay0 <= k <= ay1,
                            sum as int == dot_range(ga, gb, i as int, j as int, 0, k as int),
                        decreases ay1 - k,
                    {
                        proof {
                            lemma_rc_bounds(i as int, k as int, ga.rows(), ga.cols());
                            lemma_rc_bounds(k as int, j as int, gb.rows(), gb.cols());
                            assert(i64::MIN <= prod_term(ga, gb, i as int, j as int, k as int)
                                <= i64::MAX);
                            assert(i64::MIN <= dot_range(
                                ga,
                                gb,
                                i as int,
                                j as int,
                                0,
                                k as int + 1,
                            ) <= i64::MAX);
                            assert(dot_range(ga, gb, i as int, j as int, 0, k as int + 1)
                                == dot_range(ga, gb, i as int, j as int, 0, k as int) + prod_term(
                                ga,
                                gb,
                                i as int,
                                j as int,
                                k as int,
                            ));
                        }
                        sum = sum + self.data[i * self.m + k] * other.data[k * other.m + j];
                        k += 1;
                    }
                    let ghost before = result.data_seq();
                    result.data[i * result.m + j] = sum;
                    proof {
                        let w = bcell(0, mc, i as int, j as int);
                        assert(result.data_seq() =~= before.update(w, sum));
                        assert forall|a: int, c: int|
                            ax0 <= a < ax1 && by0 <= c < by1 implies result.data_seq()[
                            #[trigger] bcell(0, mc, a, c)] as int == (if lex_done(
                            i as int,
                            j as int + 1,
                            a,
                            c,
                        ) {
                            dot_range(ga, gb, a, c, 0, ay1 as int)
                        } else {
                            dot_range(ga, gb, a, c, 0, ay0 as int)
                        }) by {
                            let q = bcell(0, mc, a, c);
                            lemma_rc_bounds(a, c, result.rows(), mc);
                            if a == i as int && c == j as int {
                                assert(q == w);
                            } else {
                                assert(q != w) by {
                                    if q == w {
                                        lemma_bcell_inj(0, mc, a, c, i as int, j as int);
                                    }
                                }
                            }
                        }
                        assert forall|p: int|
                            0 <= p < r0.len() && !rect_touched(
                                by0 as int,
                                ax0 as int,
                                by1 as int,
                                ax1 as int,
                                mc,
                                p,
                            ) implies result.data_seq()[p] == r0[p] by {
                            lemma_bcell_coords(0, mc, i as int, j as int);
                            assert(p != w);
                        }
                    }
                    j += 1;
                }
                proof {
                    assert forall|a: int, c: int|
                        ax0 <= a < ax1 && by0 <= c < by1 implies lex_done(
                        i as int,
                        by1 as int,
                        a,
                        c,
                    ) == lex_done(i as int + 1, by0 as int, a, c) by {}
                }
                i += 1;
            }
        } else if ay1 - ay0 > 16 {
            // split the shared dimension; the two halves accumulate into
            // the same cells, strictly one after the other
            let mid_y = ay0 + (ay1 - ay0) / 2;
            self.mul_rec(ax0, ax1, ay0, mid_y, other, by0, by1, result, cx0, cx1);
            self.mul_rec(ax0, ax1, mid_y, ay1, other, by0, by1, result, cx0, cx1);
        } else if ax1 - ax0 > 16 {
            // split the rows of the left operand; the halves write
            // disjoint result rows
            let mid_x = ax0 + (ax1 - ax0) / 2;
            self.mul_rec(ax0, mid_x, ay0, ay1, other, by0, by1, result, cx0, cx1);
            proof {
                let gm = mid_x as int;
                assert forall|a: int, c: int|
                    gm <= a < ax1 && by0 <= c < by1 implies result.data_seq()[#[trigger] bcell(
                    0,
                    mc,
                    a,
                    c,
                )] as int == dot_range(ga, gb, a, c, 0, ay0 as int) by {
                    let q = bcell(0, mc, a, c);
                    lemma_rc_bounds(a, c, old(result).rows(), mc);
                    lemma_bcell_coords(0, mc, a, c);
                    assert(!rect_touched(by0 as int, ax0 as int, by1 as int, gm, mc, q));
                }
            }
            self.mul_rec(mid_x, ax1, ay0, ay1, other, by0, by1, result, cx0, cx1);
            proof {
                let gm = mid_x as int;
                assert forall|a: int, c: int|
                    ax0 <= a < ax1 && by0 <= c < by1 implies result.data_seq()[#[trigger] bcell(
                    0,
                    mc,
                    a,
                    c,
                )] as int == dot_range(ga, gb, a, c, 0, ay1 as int) by {
                    let q = bcell(0, mc, a, c);
                    lemma_rc_bounds(a, c, old(result).rows(), mc);
                    lemma_bcell_coords(0, mc, a, c);
                    if a < gm {
                        assert(!rect_touched(by0 as int, gm, by1 as int, ax1 as int, mc, q));
                    }
                }
            }
        } else {
            // split the columns of the right operand; the halves write
            // disjoint result columns
            let mid_x = cx0 + (cx1 - cx0) / 2;
            self.mul_rec(ax0, ax1, ay0, ay1, other, by0, mid_x, result, cx0, mid_x);
            proof {
                let gm = mid_x as int;
                assert forall|a: int, c: int|
                    ax0 <= a < ax1 && gm <= c < by1 implies result.data_seq()[#[trigger] bcell(
                    0,
                    mc,
                    a,
                    c,
                )] as int == dot_range(ga, gb, a, c, 0, ay0 as int) by {
                    let q = bcell(0, mc, a, c);
                    lemma_rc_bounds(a, c, old(result).rows(), mc);
                    lemma_bcell_coords(0, mc, a, c);
                    assert(!rect_touched(by0 as int, ax0 as int, gm, ax1 as int, mc, q));
                }
            }
            self.mul_rec(ax0, ax1, ay0, ay1, other, mid_x, by1, result, mid_x, cx1);
            proof {
                let gm = mid_x as int;
                assert forall|a: int, c: int|
                    ax0 <= a < ax1 && by0 <= c < by1 implies result.data_seq()[#[trigger] bcell(
                    0,
                    mc,
                    a,
                    c,
                )] as int == dot_range(ga, gb, a, c, 0, ay1 as int) by {
                    let q = bcell(0, mc, a, c);
                    lemma_rc_bounds(a, c, old(result).rows(), mc);
                    lemma_bcell_coords(0, mc, a, c);
                    if c < gm {
                        assert(!rect_touched(gm, ax0 as int, by1 as int, ax1 as int, mc, q));
                    }
                }
            }
        }
    }

    /// The product by cache-oblivious recursive block multiply: the same
    /// result as [`Matrix::simple_mul`], computed by splitting the
    /// largest of the three active dimensions until all are small.
    pub fn mul(&self, other: &Matrix) -> (r: Result<Matrix, MatrixError>)
        requires
            self.wf(),
            other.wf(),
            mul_ok(*self, *other) ==> mul_fits(*self, *other) && self.rows() * other.cols()
                <= usize::MAX,
        ensures
            r is Ok <==> mul_ok(*self, *other),
            r is Ok ==> is_product(*self, *other, r.unwrap()),
            r is Err ==> r.get_Err_0() == MatrixError::DimensionMismatch,
    {
        if self.m != other.n {
            return Err(MatrixError::DimensionMismatch);
        }
        let ghost ga = *self;
        let ghost gb = *other;
        let mut result = Matrix::new(self.n, other.m);
        let ghost mc = other.cols();
        proof {
            assert forall|a: int, c: int|
                0 <= a < self.rows() && 0 <= c < mc implies result.data_seq()[#[trigger] bcell(
                0,
                mc,
                a,
                c,
            )] as int == dot_range(ga, gb, a, c, 0, 0) by {
                lemma_rc_bounds(a, c, self.rows(), mc);
            }
        }
        self.mul_rec(0, self.n, 0, self.m, other, 0, other.m, &mut result, 0, other.m);
        proof {
            assert forall|a: int, c: int|
                0 <= a < ga.rows() && 0 <= c < gb.cols() implies result.entry(a, c)
                == #[trigger] product_entry(ga, gb, a, c) by {
                lemma_rc_bounds(a, c, ga.rows(), mc);
            }
        }
        Ok(result)
    }
}

} // verus!
