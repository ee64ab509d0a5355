//! Selection sort: repeatedly moves the smallest remaining element to the
//! front of the unsorted part.

use vstd::prelude::*;

use crate::sort::{is_permutation, is_sorted, swap};

verus! {

/// Sorts `array` in place in non-decreasing order.
pub fn selection_sort(array: &mut [usize])
    ensures
        is_sorted(final(array)@),
        is_permutation(final(array)@, old(array)@),
{
    let n = array.len();
    if n <= 1 {
        return;
    }
    for i in 0..n - 1
        invariant
            n == array@.len(),
            n > 1,
            is_permutation(array@, old(array)@),
            forall|a: int, b: int| 0 <= a <= b < i ==> array@[a] <= array@[b],
            forall|a: int, b: int| 0 <= a < i <= b < n ==> array@[a] <= array@[b],
    {
        let mut min_index = i;
        for j in i + 1..n
            invariant
                n == array@.len(),
                i < n - 1,
                i <= min_index < j,
                forall|k: int| i <= k < j ==> array@[min_index as int] <= array@[k],
        {
            if array[j] < array[min_index] {
                min_index = j;
            }
        }
        let ghost before = array@;
        swap(array, i, min_index);
        proof {
            let after = array@;
            assert forall|a: int, b: int| 0 <= a <= b < i + 1 implies after[a] <= after[b] by {
                if b == i && a < i {
                    assert(before[a] <= before[min_index as int]);
                }
            }
            assert forall|a: int, b: int| 0 <= a < i + 1 <= b < n implies after[a] <= after[b] by {
                if a < i {
                    if b == min_index {
                        assert(before[a] <= before[i as int]);
                    } else {
                        assert(before[a] <= before[b]);
                    }
                } else {
                    if b == min_index {
                        assert(before[min_index as int] <= before[i as int]);
                    } else {
                        assert(before[min_index as int] <= before[b]);
                    }
                }
            }
        }
    }
    assert forall|a: int, b: int| 0 <= a <= b < n implies array@[a] <= array@[b] by {
        if b == n - 1 && a < n - 1 {
            assert(array@[a] <= array@[b]);
        }
    }
}

} // verus!
