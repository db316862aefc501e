//! A single median-of-three partition step on a fixed array of ten integers.

use vstd::prelude::*;
use vstd::seq_lib::group_to_multiset_ensures;

verus! {

/// The sequence with the elements at `i` and `j` exchanged.
pub open spec fn swapped_ints(s: Seq<i32>, i: int, j: int) -> Seq<i32> {
    s.update(i, s[j]).update(j, s[i])
}

proof fn lemma_swap_keeps_multiset(s: Seq<i32>, i: int, j: int)
    requires
        0 <= i < s.len(),
        0 <= j < s.len(),
    ensures
        swapped_ints(s, i, j).to_multiset() == s.to_multiset(),
{
    broadcast use group_to_multiset_ensures;

    let s1 = s.update(i, s[j]);
    assert(s1.to_multiset() =~= s.to_multiset().insert(s[j]).remove(s[i]));
    assert(swapped_ints(s, i, j).to_multiset() =~= s1.to_multiset().insert(s[i]).remove(s1[j]));
}

/// The value at `j` splits the sequence: smaller values before it, none smaller after it.
pub open spec fn partitioned_at(s: Seq<i32>, j: int) -> bool {
    &&& 0 <= j < s.len()
    &&& forall|k: int| 0 <= k < j ==> #[trigger] s[k] < s[j]
    &&& forall|k: int| j < k < s.len() ==> #[trigger] s[k] >= s[j]
}

fn swap_at(arr: &mut [i32; 10], i: usize, j: usize)
    requires
        i < 10,
        j < 10,
    ensures
        final(arr)@ == swapped_ints(old(arr)@, i as int, j as int),
{
    let a = arr[i];
    let b = arr[j];
    arr[i] = b;
    arr[j] = a;
}

/// The position that the median-of-three pick chooses among `low`, `mid` and `high`.
pub open spec fn median_pick(s: Seq<i32>, low: int, mid: int, high: int) -> int {
    let (l, m, h) = (s[low], s[mid], s[high]);
    if (l > m) != (l > h) {
        low
    } else if (m > l) != (m > h) {
        mid
    } else {
        high
    }
}

/// Picks, among positions `low`, `mid` and `high`, the one holding the median of the
/// three values; with ties it may pick another.
pub fn pivot(arr: &mut [i32; 10], low: usize, mid: usize, high: usize) -> (r: usize)
    requires
        low < 10,
        mid < 10,
        high < 10,
    ensures
        final(arr)@ == old(arr)@,
        ({
            let (l, m, h) = (old(arr)@[low as int], old(arr)@[mid as int], old(arr)@[high as int]);
            &&& r == median_pick(old(arr)@, low as int, mid as int, high as int)
            &&& (l != m && l != h && m != h) ==> {
                let v = old(arr)@[r as int];
                &&& (v == l || v == m || v == h)
                &&& (l <= v || m <= v) && (l <= v || h <= v) && (m <= v || h <= v)
                &&& (l >= v || m >= v) && (l >= v || h >= v) && (m >= v || h >= v)
            }
        }),
{
    let low_value = arr[low];
    let mid_value = arr[mid];
    let high_value = arr[high];
    if (low_value > mid_value) != (low_value > high_value) {
        return low;
    } else if (mid_value > low_value) != (mid_value > high_value) {
        return mid;
    } else {
        return high;
    }
}

/// Partitions the array around a median-of-three pivot: afterwards the pivot sits at
/// some position `j`, every value before it is smaller and none after it is.
pub fn quick_sort(arr: &mut [i32; 10]) -> (sorted: &mut [i32; 10])
    ensures
        sorted@.to_multiset() == old(arr)@.to_multiset(),
        exists|j: int|
            #[trigger] partitioned_at(sorted@, j) && sorted@[j] == old(arr)@[median_pick(old(arr)@, 0, 5, 9)],
        *final(arr) == *final(sorted),
{
    let ghost initial = arr@;
    // select pivot
    let p = pivot(arr, 0, 5, 9);
    let pivot_value = arr[p];
    proof {
        lemma_swap_keeps_multiset(arr@, p as int, 9);
    }
    swap_at(arr, p, 9);  // move pivot to end
    let mut partition_index: usize = 0;
    let mut i: usize = 0;
    while i < 9
        invariant
            partition_index <= i <= 9,
            arr@.to_multiset() == initial.to_multiset(),
            arr@[9] == pivot_value,
            initial[p as int] == pivot_value,
            forall|k: int| 0 <= k < partition_index ==> #[trigger] arr@[k] < pivot_value,
            forall|k: int| partition_index <= k < i ==> #[trigger] arr@[k] >= pivot_value,
        decreases 9 - i,
    {
        if arr[i] < pivot_value {
            proof {
                lemma_swap_keeps_multiset(arr@, i as int, partition_index as int);
            }
            swap_at(arr, i, partition_index);
            partition_index = partition_index + 1;
        }
        i = i + 1;
    }
    proof {
        lemma_swap_keeps_multiset(arr@, partition_index as int, 9);
    }
    swap_at(arr, partition_index, 9);  // final position
    proof {
        let j = partition_index as int;
        assert(arr@[j] == pivot_value);
        assert(partitioned_at(arr@, j));
    }
    arr
}

} // verus!
