//! Top-down merge sort: sorts each half, then merges the two sorted halves.

use vstd::prelude::*;

use crate::sort::{is_permutation, is_sorted};

verus! {

broadcast use vstd::seq_lib::group_to_multiset_ensures, vstd::multiset::group_multiset_axioms;

/// The sequence that merging `l` and `r` produces: the smaller head goes
/// first, and on a tie the head of `r` goes first.
pub open spec fn merged(l: Seq<usize>, r: Seq<usize>) -> Seq<usize>
    decreases l.len() + r.len(),
{
    if l.len() == 0 {
        r
    } else if r.len() == 0 {
        l
    } else if l[0] < r[0] {
        seq![l[0]] + merged(l.drop_first(), r)
    } else {
        seq![r[0]] + merged(l, r.drop_first())
    }
}

/// A lower bound of both inputs is a lower bound of their merge.
proof fn lemma_merged_lower_bound(l: Seq<usize>, r: Seq<usize>, x: usize)
    requires
        forall|i: int| 0 <= i < l.len() ==> x <= l[i],
        forall|i: int| 0 <= i < r.len() ==> x <= r[i],
    ensures
        forall|k: int| 0 <= k < merged(l, r).len() ==> x <= #[trigger] merged(l, r)[k],
    decreases l.len() + r.len(),
{
    if l.len() == 0 || r.len() == 0 {
    } else if l[0] < r[0] {
        let m = merged(l.drop_first(), r);
        lemma_merged_lower_bound(l.drop_first(), r, x);
        assert forall|k: int| 0 <= k < merged(l, r).len() implies x <= #[trigger] merged(l, r)[k] by {
            if k > 0 {
                assert(merged(l, r)[k] == m[k - 1]);
            }
        }
    } else {
        let m = merged(l, r.drop_first());
        lemma_merged_lower_bound(l, r.drop_first(), x);
        assert forall|k: int| 0 <= k < merged(l, r).len() implies x <= #[trigger] merged(l, r)[k] by {
            if k > 0 {
                assert(merged(l, r)[k] == m[k - 1]);
            }
        }
    }
}

/// Merging keeps every element of both inputs, and nothing else.
pub proof fn lemma_merged_permutation(l: Seq<usize>, r: Seq<usize>)
    ensures
        merged(l, r).len() == l.len() + r.len(),
        is_permutation(merged(l, r), l + r),
    decreases l.len() + r.len(),
{
    broadcast use vstd::seq_lib::lemma_multiset_commutative;

    if l.len() == 0 {
        assert(l + r =~= r);
    } else if r.len() == 0 {
        assert(l + r =~= l);
    } else if l[0] < r[0] {
        lemma_merged_permutation(l.drop_first(), r);
        assert(l + r =~= seq![l[0]] + (l.drop_first() + r));
    } else {
        lemma_merged_permutation(l, r.drop_first());
        assert((l + r).to_multiset() =~= (seq![r[0]] + (l + r.drop_first())).to_multiset()) by {
            assert(r =~= seq![r[0]] + r.drop_first());
            assert(l + r =~= l + seq![r[0]] + r.drop_first());
            vstd::seq_lib::lemma_seq_union_to_multiset_commutative(l, seq![r[0]]);
            assert(l + seq![r[0]] + r.drop_first() =~= (l + seq![r[0]]) + r.drop_first());
            assert(seq![r[0]] + (l + r.drop_first()) =~= (seq![r[0]] + l) + r.drop_first());
        }
    }
}

/// Merging two sorted sequences gives a sorted sequence.
pub proof fn lemma_merged_sorted(l: Seq<usize>, r: Seq<usize>)
    requires
        is_sorted(l),
        is_sorted(r),
    ensures
        is_sorted(merged(l, r)),
    decreases l.len() + r.len(),
{
    if l.len() == 0 || r.len() == 0 {
    } else if l[0] < r[0] {
        let t = l.drop_first();
        lemma_merged_sorted(t, r);
        lemma_merged_lower_bound(t, r, l[0]);
        let m = merged(t, r);
        assert forall|a: int, b: int| 0 <= a <= b < m.len() + 1 implies (seq![l[0]] + m)[a] <= (
        seq![l[0]] + m)[b] by {
            if a == 0 && b > 0 {
                assert(l[0] <= m[b - 1]);
            } else if a > 0 {
                assert(m[a - 1] <= m[b - 1]);
            }
        }
    } else {
        let t = r.drop_first();
        lemma_merged_sorted(l, t);
        lemma_merged_lower_bound(l, t, r[0]);
        let m = merged(l, t);
        assert forall|a: int, b: int| 0 <= a <= b < m.len() + 1 implies (seq![r[0]] + m)[a] <= (
        seq![r[0]] + m)[b] by {
            if a == 0 && b > 0 {
                assert(r[0] <= m[b - 1]);
            } else if a > 0 {
                assert(m[a - 1] <= m[b - 1]);
            }
        }
    }
}

/// Sorts `array` in place in non-decreasing order.
pub fn merge_sort(array: &mut [usize])
    ensures
        is_sorted(final(array)@),
        is_permutation(final(array)@, old(array)@),
    decreases old(array)@.len(),
{
    let n = array.len();
    if n <= 1 {
        return;
    }
    let mid = n / 2;
    let ghost whole = array@;
    let (left, right) = array.split_at_mut(mid);
    let ghost left0 = left@;
    let ghost right0 = right@;
    merge_sort(left);
    merge_sort(right);
    let ghost left1 = left@;
    let ghost right1 = right@;
    assert(left1.len() == left0.len()) by {
        assert(left1.to_multiset().len() == left0.to_multiset().len());
    }
    assert(right1.len() == right0.len()) by {
        assert(right1.to_multiset().len() == right0.to_multiset().len());
    }
    merge(left, right);
    let ghost left2 = left@;
    let ghost right2 = right@;
    proof {
        lemma_merged_permutation(left1, right1);
        lemma_merged_sorted(left1, right1);
        assert(whole =~= left0 + right0);
        vstd::seq_lib::lemma_multiset_commutative(left0, right0);
        vstd::seq_lib::lemma_multiset_commutative(left1, right1);
    }
    assert(array@ == left2 + right2);
}

/// Merges `left` and `right`, and writes the result back across both: the
/// first `left.len()` elements into `left`, the rest into `right`.
/// Nothing changes when either side is empty.
pub fn merge(left: &mut [usize], right: &mut [usize])
    requires
        old(left)@.len() + old(right)@.len() <= usize::MAX,
    ensures
        final(left)@.len() == old(left)@.len(),
        final(right)@.len() == old(right)@.len(),
        final(left)@ + final(right)@ == merged(old(left)@, old(right)@),
{
    proof {
        lemma_merged_permutation(left@, right@);
    }
    let ln = left.len();
    let rn = right.len();
    if ln == 0 || rn == 0 {
        assert(left@ + right@ =~= merged(left@, right@));
        return;
    }
    let ghost target = merged(left@, right@);
    let mut merged_array: Vec<usize> = Vec::with_capacity(ln + rn);
    let mut i: usize = 0;
    let mut j: usize = 0;
    assert(left@.skip(0) =~= left@);
    assert(right@.skip(0) =~= right@);
    while i < ln && j < rn
        invariant
            ln == left@.len(),
            rn == right@.len(),
            i <= ln,
            j <= rn,
            target == merged(left@, right@),
            merged_array@ + merged(left@.skip(i as int), right@.skip(j as int)) == target,
        decreases ln + rn - i - j,
    {
        let ghost ls = left@.skip(i as int);
        let ghost rs = right@.skip(j as int);
        assert(ls.drop_first() =~= left@.skip(i + 1));
        assert(rs.drop_first() =~= right@.skip(j + 1));
        if left[i] < right[j] {
            merged_array.push(left[i]);
            i += 1;
            assert(merged_array@ + merged(left@.skip(i as int), right@.skip(j as int)) =~= target);
        } else {
            merged_array.push(right[j]);
            j += 1;
            assert(merged_array@ + merged(left@.skip(i as int), right@.skip(j as int)) =~= target);
        }
    }
    if j == rn {
        assert(right@.skip(j as int) =~= Seq::<usize>::empty());
        assert(merged(left@.skip(i as int), right@.skip(j as int)) =~= left@.skip(i as int));
    } else {
        assert(left@.skip(i as int) =~= Seq::<usize>::empty());
        assert(merged(left@.skip(i as int), right@.skip(j as int)) =~= right@.skip(j as int));
    }
    assert(merged_array@ + left@.skip(i as int) + right@.skip(j as int) =~= target);
    while i < ln
        invariant
            ln == left@.len(),
            rn == right@.len(),
            i <= ln,
            j <= rn,
            j == rn || i == ln,
            merged_array@ + left@.skip(i as int) + right@.skip(j as int) == target,
        decreases ln - i,
    {
        assert(right@.skip(j as int) =~= Seq::<usize>::empty());
        assert(left@.skip(i as int) =~= seq![left@[i as int]] + left@.skip(i + 1));
        merged_array.push(left[i]);
        i += 1;
        assert(merged_array@ + left@.skip(i as int) + right@.skip(j as int) =~= target);
    }
    assert(left@.skip(i as int) =~= Seq::<usize>::empty());
    assert(merged_array@ + right@.skip(j as int) =~= target);
    while j < rn
        invariant
            rn == right@.len(),
            j <= rn,
            merged_array@ + right@.skip(j as int) == target,
        decreases rn - j,
    {
        assert(right@.skip(j as int) =~= seq![right@[j as int]] + right@.skip(j + 1));
        merged_array.push(right[j]);
        j += 1;
        assert(merged_array@ + right@.skip(j as int) =~= target);
    }
    assert(right@.skip(j as int) =~= Seq::<usize>::empty());
    assert(merged_array@ =~= target);
    let mut k: usize = 0;
    while k < ln
        invariant
            ln == left@.len(),
            rn == right@.len(),
            merged_array@ == target,
            target.len() == ln + rn,
            k <= ln,
            forall|t: int| 0 <= t < k ==> left@[t] == target[t],
        decreases ln - k,
    {
        left[k] = merged_array[k];
        k += 1;
    }
    let mut k: usize = 0;
    while k < rn
        invariant
            ln == left@.len(),
            rn == right@.len(),
            merged_array@ == target,
            target.len() == ln + rn,
            k <= rn,
            ln + rn <= usize::MAX,
            forall|t: int| 0 <= t < k ==> right@[t] == target[ln + t],
        decreases rn - k,
    {
        right[k] = merged_array[ln + k];
        k += 1;
    }
    assert(left@ + right@ =~= target);
}

} // verus!
