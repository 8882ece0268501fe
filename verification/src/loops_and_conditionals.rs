//! Plain and four-way-unrolled summation loops: both return the same
//! wrapped sum of `0..n`, so the unrolling is proved behavior-preserving.

use vstd::prelude::*;

verus! {

/// The sum of `0..n` in wrapping `usize` arithmetic.
pub open spec fn wrap_sum(n: nat) -> nat
    decreases n,
{
    if n == 0 {
        0
    } else {
        let s = wrap_sum((n - 1) as nat) + (n - 1);
        if s > usize::MAX {
            (s - usize::MAX - 1) as nat
        } else {
            s as nat
        }
    }
}

/// Sum `0..n` with a single loop.
pub fn for_sum(n: usize) -> (r: usize)
    ensures
        r as nat == wrap_sum(n as nat),
{
    let mut sum = 0usize;
    let mut i = 0usize;
    while i < n
        invariant
            i <= n,
            sum as nat == wrap_sum(i as nat),
        decreases n - i,
    {
        sum = sum.wrapping_add(i);
        i += 1;
    }
    sum
}

/// Sum `0..n` with the loop unrolled four ways plus a tail loop; the
/// result equals [`for_sum`]'s on every input.
pub fn unroll_for_sum(n: usize) -> (r: usize)
    ensures
        r as nat == wrap_sum(n as nat),
{
    let mut sum = 0usize;
    let mut i = 0usize;
    let quarters = n / 4;
    proof {
        assert(4 * quarters <= n) by {
            vstd::arithmetic::div_mod::lemma_fundamental_div_mod(n as int, 4);
        }
    }
    while i < quarters
        invariant
            i <= quarters,
            quarters == n / 4,
            4 * quarters <= n,
            sum as nat == wrap_sum((4 * i) as nat),
        decreases quarters - i,
    {
        proof {
            assert(4 * (i + 1) <= 4 * quarters) by (nonlinear_arith)
                requires
                    i + 1 <= quarters,
            ;
        }
        sum = sum.wrapping_add(4 * i);
        proof {
            assert(sum as nat == wrap_sum((4 * i + 1) as nat));
        }
        sum = sum.wrapping_add(4 * i + 1);
        proof {
            assert(sum as nat == wrap_sum((4 * i + 2) as nat));
        }
        sum = sum.wrapping_add(4 * i + 2);
        proof {
            assert(sum as nat == wrap_sum((4 * i + 3) as nat));
        }
        sum = sum.wrapping_add(4 * i + 3);
        i += 1;
    }
    let mut j = quarters * 4;
    while j < n
        invariant
            j <= n,
            sum as nat == wrap_sum(j as nat),
        decreases n - j,
    {
        sum = sum.wrapping_add(j);
        j += 1;
    }
    sum
}

} // verus!
