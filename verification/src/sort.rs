//! Sorting algorithms on slices of indices, together with the order and
//! permutation predicates that their contracts are stated in.

pub mod merge_sort;
pub mod quick_sort;
pub mod selection_sort;

use vstd::prelude::*;

verus! {

broadcast use vstd::seq_lib::group_to_multiset_ensures, vstd::multiset::group_multiset_axioms;

/// Every element is at most every element that follows it.
pub open spec fn is_sorted(s: Seq<usize>) -> bool {
    forall|i: int, j: int| 0 <= i <= j < s.len() ==> s[i] <= s[j]
}

/// `a` and `b` hold the same elements, each as many times.
pub open spec fn is_permutation(a: Seq<usize>, b: Seq<usize>) -> bool {
    a.to_multiset() == b.to_multiset()
}

/// A multiset has only one sorted arrangement: two sorted sequences that are
/// rearrangements of each other are equal. Hence every correct sort, whatever
/// pivots or splits it uses, returns the same sequence for the same input.
pub proof fn lemma_sorted_permutation_unique(a: Seq<usize>, b: Seq<usize>)
    requires
        is_sorted(a),
        is_sorted(b),
        is_permutation(a, b),
    ensures
        a == b,
    decreases a.len(),
{
    assert(a.len() == a.to_multiset().len());
    assert(b.len() == b.to_multiset().len());
    if a.len() == 0 {
        assert(a =~= b);
    } else {
        assert(a.contains(a[0]));
        assert(b.to_multiset().count(a[0]) > 0);
        let j = choose|j: int| 0 <= j < b.len() && b[j] == a[0];
        assert(b.contains(b[0]));
        assert(a.to_multiset().count(b[0]) > 0);
        let k = choose|k: int| 0 <= k < a.len() && a[k] == b[0];
        assert(b[0] <= b[j]);
        assert(a[0] <= a[k]);
        assert(a[0] == b[0]);
        assert(a.remove(0) =~= a.drop_first());
        assert(b.remove(0) =~= b.drop_first());
        assert(a.remove(0).to_multiset() == a.to_multiset().remove(a[0]));
        assert(b.remove(0).to_multiset() == b.to_multiset().remove(b[0]));
        lemma_sorted_permutation_unique(a.drop_first(), b.drop_first());
        assert(a =~= b) by {
            assert forall|t: int| 0 <= t < a.len() implies a[t] == b[t] by {
                if t > 0 {
                    assert(a[t] == a.drop_first()[t - 1]);
                    assert(b[t] == b.drop_first()[t - 1]);
                }
            }
        }
    }
}

/// Exchanging two positions keeps the multiset of a sequence.
pub proof fn lemma_swap_permutation(s: Seq<usize>, i: int, j: int)
    requires
        0 <= i < s.len(),
        0 <= j < s.len(),
    ensures
        is_permutation(s.update(i, s[j]).update(j, s[i]), s),
        s.update(i, s[j]).update(j, s[i]).len() == s.len(),
{
    let t = s.update(i, s[j]);
    assert(t.to_multiset() == s.to_multiset().insert(s[j]).remove(s[i]));
    assert(t.update(j, s[i]).to_multiset() == t.to_multiset().insert(s[i]).remove(t[j]));
    if i == j {
        assert(t =~= s);
        assert(t.update(j, s[i]) =~= s);
    } else {
        assert(t[j] == s[j]);
        assert(s.to_multiset().count(s[i]) > 0);
        assert(s.to_multiset().count(s[j]) > 0);
        assert(t.update(j, s[i]).to_multiset() =~= s.to_multiset());
    }
}

/// Exchanges the elements at positions `i` and `j`.
pub(crate) fn swap(array: &mut [usize], i: usize, j: usize)
    requires
        i < old(array)@.len(),
        j < old(array)@.len(),
    ensures
        final(array)@ == old(array)@.update(i as int, old(array)@[j as int]).update(
            j as int,
            old(array)@[i as int],
        ),
        is_permutation(final(array)@, old(array)@),
{
    proof {
        lemma_swap_permutation(array@, i as int, j as int);
    }
    let a = array[i];
    let b = array[j];
    array[i] = b;
    array[j] = a;
}

/// Tells whether `array` is in non-decreasing order, by comparing each
/// element with the one before it.
pub fn check_sort(array: &[usize]) -> (sorted: bool)
    ensures
        sorted == is_sorted(array@),
{
    let n = array.len();
    let mut i: usize = 1;
    while i < n
        invariant
            n == array@.len(),
            1 <= i,
            i <= n || n == 0,
            forall|a: int, b: int| 0 <= a <= b < i && b < n ==> array@[a] <= array@[b],
        decreases n - i,
    {
        if array[i] < array[i - 1] {
            assert(array@[i - 1] > array@[i as int]);
            return false;
        }
        assert forall|a: int, b: int| 0 <= a <= b < i + 1 implies array@[a] <= array@[b] by {
            if b == i && a < i {
                assert(array@[a] <= array@[i - 1]);
            }
        }
        i = i + 1;
    }
    true
}

} // verus!
