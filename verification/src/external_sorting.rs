//! The merge step of an external-memory merge sort: combine two runs
//! into one, preserving order and taking from the left run on ties.

use vstd::prelude::*;

verus! {

/// The sequence is ordered from small to large.
pub open spec fn sorted(s: Seq<i64>) -> bool {
    forall|i: int, j: int| 0 <= i <= j < s.len() ==> s[i] <= s[j]
}

/// What merging yields, element by element: always take the smaller
/// head, and the left head on a tie.
pub open spec fn merge_seqs(a: Seq<i64>, b: Seq<i64>) -> Seq<i64>
    decreases a.len() + b.len(),
{
    if a.len() == 0 {
        b
    } else if b.len() == 0 {
        a
    } else if a[0] <= b[0] {
        seq![a[0]] + merge_seqs(a.drop_first(), b)
    } else {
        seq![b[0]] + merge_seqs(a, b.drop_first())
    }
}

/// A lower bound on both inputs is a lower bound on the merge.
proof fn lemma_merge_seqs_lower_bound(a: Seq<i64>, b: Seq<i64>, v: i64)
    requires
        forall|k: int| 0 <= k < a.len() ==> v <= #[trigger] a[k],
        forall|k: int| 0 <= k < b.len() ==> v <= #[trigger] b[k],
    ensures
        forall|k: int| 0 <= k < merge_seqs(a, b).len() ==> v <= #[trigger] merge_seqs(a, b)[k],
    decreases a.len() + b.len(),
{
    if a.len() == 0 || b.len() == 0 {
    } else if a[0] <= b[0] {
        assert(forall|k: int|
            0 <= k < a.drop_first().len() ==> v <= #[trigger] a.drop_first()[k]);
        lemma_merge_seqs_lower_bound(a.drop_first(), b, v);
        let m = merge_seqs(a, b);
        let rest = merge_seqs(a.drop_first(), b);
        assert(m == seq![a[0]] + rest);
        assert forall|k: int| 0 <= k < m.len() implies v <= m[k] by {
            if k > 0 {
                assert(m[k] == rest[k - 1]);
            }
        }
    } else {
        assert(forall|k: int|
            0 <= k < b.drop_first().len() ==> v <= #[trigger] b.drop_first()[k]);
        lemma_merge_seqs_lower_bound(a, b.drop_first(), v);
        let m = merge_seqs(a, b);
        let rest = merge_seqs(a, b.drop_first());
        assert(m == seq![b[0]] + rest);
        assert forall|k: int| 0 <= k < m.len() implies v <= m[k] by {
            if k > 0 {
                assert(m[k] == rest[k - 1]);
            }
        }
    }
}

/// Merging two sorted runs yields a sorted run.
proof fn lemma_merge_seqs_sorted(a: Seq<i64>, b: Seq<i64>)
    requires
        sorted(a),
        sorted(b),
    ensures
        sorted(merge_seqs(a, b)),
    decreases a.len() + b.len(),
{
    if a.len() == 0 || b.len() == 0 {
    } else if a[0] <= b[0] {
        let h = a[0];
        let rest = merge_seqs(a.drop_first(), b);
        assert(sorted(a.drop_first()));
        lemma_merge_seqs_sorted(a.drop_first(), b);
        assert(forall|k: int| 0 <= k < a.drop_first().len() ==> h <= #[trigger] a.drop_first()[k]);
        assert(forall|k: int| 0 <= k < b.len() ==> h <= #[trigger] b[k]);
        lemma_merge_seqs_lower_bound(a.drop_first(), b, h);
        let m = merge_seqs(a, b);
        assert(m == seq![h] + rest);
        assert forall|i: int, j: int| 0 <= i <= j < m.len() implies m[i] <= m[j] by {
            if i == 0 {
                if j > 0 {
                    assert(m[j] == rest[j - 1]);
                }
            } else {
                assert(m[i] == rest[i - 1] && m[j] == rest[j - 1]);
            }
        }
    } else {
        let h = b[0];
        let rest = merge_seqs(a, b.drop_first());
        assert(sorted(b.drop_first()));
        lemma_merge_seqs_sorted(a, b.drop_first());
        assert(forall|k: int| 0 <= k < b.drop_first().len() ==> h <= #[trigger] b.drop_first()[k]);
        assert(forall|k: int| 0 <= k < a.len() ==> h <= #[trigger] a[k]);
        lemma_merge_seqs_lower_bound(a, b.drop_first(), h);
        let m = merge_seqs(a, b);
        assert(m == seq![h] + rest);
        assert forall|i: int, j: int| 0 <= i <= j < m.len() implies m[i] <= m[j] by {
            if i == 0 {
                if j > 0 {
                    assert(m[j] == rest[j - 1]);
                }
            } else {
                assert(m[i] == rest[i - 1] && m[j] == rest[j - 1]);
            }
        }
    }
}

/// Peeling the head off the left run of a merge.
proof fn lemma_merge_seqs_step_left(a: Seq<i64>, b: Seq<i64>)
    requires
        a.len() > 0,
        b.len() == 0 || a[0] <= b[0],
    ensures
        merge_seqs(a, b) == seq![a[0]] + merge_seqs(a.drop_first(), b),
{
    if b.len() == 0 {
        assert(merge_seqs(a.drop_first(), b) == a.drop_first());
        assert(merge_seqs(a, b) == a);
        assert(a =~= seq![a[0]] + a.drop_first());
    }
}

/// Peeling the head off the right run of a merge.
proof fn lemma_merge_seqs_step_right(a: Seq<i64>, b: Seq<i64>)
    requires
        b.len() > 0,
        a.len() == 0 || !(a[0] <= b[0]),
    ensures
        merge_seqs(a, b) == seq![b[0]] + merge_seqs(a, b.drop_first()),
{
    if a.len() == 0 {
        assert(merge_seqs(a, b.drop_first()) == b.drop_first());
        assert(merge_seqs(a, b) == b);
        assert(b =~= seq![b[0]] + b.drop_first());
    }
}

/// Merge two runs into a fresh vector.  The result is pinned exactly by
/// [`merge_seqs`]; when both inputs are sorted, so is the output.
pub fn merge(left: &Vec<i64>, right: &Vec<i64>) -> (merged: Vec<i64>)
    requires
        left@.len() + right@.len() <= usize::MAX,
    ensures
        merged@ == merge_seqs(left@, right@),
        sorted(left@) && sorted(right@) ==> sorted(merged@),
{
    let mut merged: Vec<i64> = Vec::with_capacity(left.len() + right.len());
    let mut i: usize = 0;
    let mut j: usize = 0;
    proof {
        assert(left@.skip(0) =~= left@);
        assert(right@.skip(0) =~= right@);
        assert(merged@ + merge_seqs(left@, right@) =~= merge_seqs(left@, right@));
    }
    while i < left.len() && j < right.len()
        invariant
            i <= left@.len(),
            j <= right@.len(),
            merged@ + merge_seqs(left@.skip(i as int), right@.skip(j as int)) == merge_seqs(
                left@,
                right@,
            ),
        decreases left@.len() - i + right@.len() - j,
    {
        let ghost la = left@.skip(i as int);
        let ghost rb = right@.skip(j as int);
        proof {
            assert(la[0] == left@[i as int]);
            assert(rb[0] == right@[j as int]);
        }
        if left[i] <= right[j] {
            proof {
                lemma_merge_seqs_step_left(la, rb);
                assert(la.drop_first() =~= left@.skip(i as int + 1));
                assert((merged@ + seq![left@[i as int]]) + merge_seqs(
                    left@.skip(i as int + 1),
                    rb,
                ) =~= merged@ + (seq![la[0]] + merge_seqs(la.drop_first(), rb)));
            }
            merged.push(left[i]);
            i += 1;
        } else {
            proof {
                lemma_merge_seqs_step_right(la, rb);
                assert(rb.drop_first() =~= right@.skip(j as int + 1));
                assert((merged@ + seq![right@[j as int]]) + merge_seqs(
                    la,
                    right@.skip(j as int + 1),
                ) =~= merged@ + (seq![rb[0]] + merge_seqs(la, rb.drop_first())));
            }
            merged.push(right[j]);
            j += 1;
        }
    }
    while i < left.len()
        invariant
            i <= left@.len(),
            j == right@.len() || i == left@.len(),
            j <= right@.len(),
            merged@ + merge_seqs(left@.skip(i as int), right@.skip(j as int)) == merge_seqs(
                left@,
                right@,
            ),
        decreases left@.len() - i,
    {
        let ghost la = left@.skip(i as int);
        let ghost rb = right@.skip(j as int);
        proof {
            assert(la[0] == left@[i as int]);
            assert(rb.len() == 0);
            lemma_merge_seqs_step_left(la, rb);
            assert(la.drop_first() =~= left@.skip(i as int + 1));
            assert((merged@ + seq![left@[i as int]]) + merge_seqs(left@.skip(i as int + 1), rb)
                =~= merged@ + (seq![la[0]] + merge_seqs(la.drop_first(), rb)));
        }
        merged.push(left[i]);
        i += 1;
    }
    while j < right.len()
        invariant
            i == left@.len(),
            j <= right@.len(),
            merged@ + merge_seqs(left@.skip(i as int), right@.skip(j as int)) == merge_seqs(
                left@,
                right@,
            ),
        decreases right@.len() - j,
    {
        let ghost la = left@.skip(i as int);
        let ghost rb = right@.skip(j as int);
        proof {
            assert(rb[0] == right@[j as int]);
            assert(la.len() == 0);
            lemma_merge_seqs_step_right(la, rb);
            assert(rb.drop_first() =~= right@.skip(j as int + 1));
            assert((merged@ + seq![right@[j as int]]) + merge_seqs(la, right@.skip(j as int + 1))
                =~= merged@ + (seq![rb[0]] + merge_seqs(la, rb.drop_first())));
        }
        merged.push(right[j]);
        j += 1;
    }
    proof {
        assert(left@.skip(i as int).len() == 0);
        assert(right@.skip(j as int).len() == 0);
        assert(merge_seqs(left@.skip(i as int), right@.skip(j as int)).len() == 0);
        assert(merged@ + merge_seqs(left@.skip(i as int), right@.skip(j as int)) =~= merged@);
        if sorted(left@) && sorted(right@) {
            lemma_merge_seqs_sorted(left@, right@);
        }
    }
    merged
}

} // verus!
