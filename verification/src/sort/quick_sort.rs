//! Randomized three-way quicksort: a pivot drawn at random splits the slice
//! into the elements below it, those equal to it and those above it; the
//! outer two parts are sorted recursively.

use vstd::prelude::*;

use crate::sort::{is_permutation, is_sorted, swap};

verus! {

broadcast use vstd::seq_lib::group_to_multiset_ensures, vstd::multiset::group_multiset_axioms;

/// Draws the pivot position: calls `rand::random_range` on the range
/// `0..n`, which panics on an empty range and otherwise returns a value of
/// that range. Only the bound is promised; which index comes back is chance.
#[verifier::external_body]
fn random_index(n: usize) -> (index: usize)
    requires
        n > 0,
    ensures
        index < n,
{
    rand::random_range(0..n)
}

/// If `a` is a rearrangement of `b` and every element of `b` satisfies a
/// bound, so does every element of `a`.
proof fn lemma_permutation_keeps_bounds(a: Seq<usize>, b: Seq<usize>, lo: int, hi: int)
    requires
        is_permutation(a, b),
        forall|k: int| 0 <= k < b.len() ==> lo <= #[trigger] b[k] <= hi,
    ensures
        forall|k: int| 0 <= k < a.len() ==> lo <= #[trigger] a[k] <= hi,
{
    assert forall|k: int| 0 <= k < a.len() implies lo <= #[trigger] a[k] <= hi by {
        assert(a.contains(a[k]));
        assert(a.to_multiset().count(a[k]) > 0);
        assert(b.to_multiset().count(a[k]) > 0);
        assert(b.contains(a[k]));
        let t = choose|t: int| 0 <= t < b.len() && b[t] == a[k];
        assert(lo <= b[t] <= hi);
    }
}

/// Dutch-flag partition around `pivot`. On return `(lt, gt)`, the elements
/// before `lt` are below the pivot and those after `gt` above it; when the
/// pivot occurs in the slice, `lt <= gt` and the block `lt..=gt` holds
/// exactly the copies of the pivot.
fn partition(array: &mut [usize], pivot: usize) -> (bounds: (usize, usize))
    requires
        old(array)@.len() > 0,
    ensures
        is_permutation(final(array)@, old(array)@),
        final(array)@.len() == old(array)@.len(),
        bounds.0 <= final(array)@.len(),
        bounds.1 < final(array)@.len(),
        forall|k: int| 0 <= k < bounds.0 ==> final(array)@[k] < pivot,
        forall|k: int| bounds.1 < k < final(array)@.len() ==> final(array)@[k] > pivot,
        old(array)@.contains(pivot) ==> bounds.0 <= bounds.1 && forall|k: int|
            bounds.0 <= k <= bounds.1 ==> final(array)@[k] == pivot,
{
    let n = array.len();
    let mut lt: usize = 0;
    let mut i: usize = 0;
    let mut gt: usize = n - 1;
    while i <= gt
        invariant
            n == array@.len(),
            n > 0,
            lt <= i,
            i <= gt + 1,
            gt < n,
            is_permutation(array@, old(array)@),
            array@.len() == old(array)@.len(),
            forall|k: int| 0 <= k < lt ==> array@[k] < pivot,
            forall|k: int| lt <= k < i ==> array@[k] == pivot,
            forall|k: int| gt < k < n ==> array@[k] > pivot,
        decreases gt + 1 - i,
    {
        if array[i] < pivot {
            swap(array, lt, i);
            lt += 1;
            i += 1;
        } else if array[i] > pivot {
            swap(array, i, gt);
            if gt == 0 {
                proof {
                    if old(array)@.contains(pivot) {
                        let t = choose|t: int| 0 <= t < n && old(array)@[t] == pivot;
                        assert(old(array)@.to_multiset().count(pivot) > 0);
                        assert(array@.to_multiset().count(pivot) > 0);
                        assert(array@.contains(pivot));
                        let u = choose|u: int| 0 <= u < n && array@[u] == pivot;
                        assert(array@[u] > pivot);
                    }
                }
                return (lt, gt);
            }
            gt -= 1;
        } else {
            i += 1;
        }
    }
    proof {
        if old(array)@.contains(pivot) {
            let t = choose|t: int| 0 <= t < n && old(array)@[t] == pivot;
            assert(old(array)@.to_multiset().count(pivot) > 0);
            assert(array@.to_multiset().count(pivot) > 0);
            assert(array@.contains(pivot));
            let u = choose|u: int| 0 <= u < n && array@[u] == pivot;
            assert(lt <= u <= gt);
        }
    }
    (lt, gt)
}

/// Sorts `array` in place in non-decreasing order.
pub fn quick_sort(array: &mut [usize])
    ensures
        is_sorted(final(array)@),
        is_permutation(final(array)@, old(array)@),
    decreases old(array)@.len(),
{
    let n = array.len();
    if n <= 1 {
        return;
    }
    let pivot_index = random_index(n);
    let pivot = array[pivot_index];
    assert(array@[pivot_index as int] == pivot);
    assert(array@.contains(pivot));
    let (part_i, part_j) = partition(array, pivot);
    assert(part_i <= part_j < n);
    let ghost parted = array@;
    let (left, right) = array.split_at_mut(part_i);
    let (middle, right) = right.split_at_mut(part_j - part_i);
    let (pivot_copy, rest) = right.split_at_mut(1);
    let ghost left0 = left@;
    let ghost rest0 = rest@;
    assert(left0.len() == part_i);
    assert(rest0.len() == n - part_j - 1);
    quick_sort(left);
    quick_sort(rest);
    let ghost left1 = left@;
    let ghost rest1 = rest@;
    let ghost middle1 = middle@;
    let ghost pivot1 = pivot_copy@;
    proof {
        let lt = part_i as int;
        let gt = part_j as int;
        assert(left0 =~= parted.subrange(0, lt));
        assert(middle1 =~= parted.subrange(lt, gt));
        assert(pivot1 =~= parted.subrange(gt, gt + 1));
        assert(rest0 =~= parted.subrange(gt + 1, n as int));
        lemma_permutation_keeps_bounds(left1, left0, 0, pivot - 1);
        lemma_permutation_keeps_bounds(rest1, rest0, pivot + 1, usize::MAX as int);
        assert(left1.len() == left0.len()) by {
            assert(left1.to_multiset().len() == left0.to_multiset().len());
        }
        assert(rest1.len() == rest0.len()) by {
            assert(rest1.to_multiset().len() == rest0.to_multiset().len());
        }
        let whole = left1 + (middle1 + (pivot1 + rest1));
        assert forall|a: int, b: int| 0 <= a <= b < n implies whole[a] <= whole[b] by {
            if a < lt {
                assert(whole[a] == left1[a]);
                if b < lt {
                    assert(whole[b] == left1[b]);
                } else if b <= gt {
                    assert(whole[b] == parted[b]);
                } else {
                    assert(whole[b] == rest1[b - gt - 1]);
                }
            } else if a <= gt {
                assert(whole[a] == parted[a]);
                if b <= gt {
                    assert(whole[b] == parted[b]);
                } else {
                    assert(whole[b] == rest1[b - gt - 1]);
                }
            } else {
                assert(whole[a] == rest1[a - gt - 1]);
                assert(whole[b] == rest1[b - gt - 1]);
            }
        }
        assert(parted =~= left0 + (middle1 + (pivot1 + rest0)));
        vstd::seq_lib::lemma_multiset_commutative(pivot1, rest0);
        vstd::seq_lib::lemma_multiset_commutative(pivot1, rest1);
        vstd::seq_lib::lemma_multiset_commutative(middle1, pivot1 + rest0);
        vstd::seq_lib::lemma_multiset_commutative(middle1, pivot1 + rest1);
        vstd::seq_lib::lemma_multiset_commutative(left0, middle1 + (pivot1 + rest0));
        vstd::seq_lib::lemma_multiset_commutative(left1, middle1 + (pivot1 + rest1));
    }
}

} // verus!
