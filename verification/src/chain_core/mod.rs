pub mod block;

use vstd::prelude::*;
use vstd::seq_lib::group_to_multiset_ensures;
use vstd::seq_lib::lemma_multiset_commutative;
use crate::chain_core::block::{Block, data_lt, lex_lt, lex_le, lemma_lex_order};

verus! {

/// The key a slot of the ring buffer is ordered by: its block's data.
pub open spec fn block_key(slot: Option<Block>) -> Seq<u8> {
    match slot {
        Some(block) => block.data@,
        None => Seq::empty(),
    }
}

/// Every slot holds a block.
pub open spec fn all_present(s: Seq<Option<Block>>) -> bool {
    forall|i: int| 0 <= i < s.len() ==> (#[trigger] s[i]) is Some
}

/// The slots are in non-decreasing order of their blocks' data.
pub open spec fn sorted_by_data(s: Seq<Option<Block>>) -> bool {
    forall|i: int, j: int| 0 <= i < j < s.len() ==> lex_le(#[trigger] block_key(s[i]), #[trigger] block_key(s[j]))
}

/// `m` is a median of `x`, `y` and `z` in the order of block data: at least two of
/// them are at most `m`, and at least two are at least `m`.
pub open spec fn is_median(m: Seq<u8>, x: Seq<u8>, y: Seq<u8>, z: Seq<u8>) -> bool {
    &&& ((lex_le(x, m) && lex_le(y, m)) || (lex_le(x, m) && lex_le(z, m)) || (lex_le(y, m) && lex_le(z, m)))
    &&& ((lex_le(m, x) && lex_le(m, y)) || (lex_le(m, x) && lex_le(m, z)) || (lex_le(m, y) && lex_le(m, z)))
}

/// The sequence with the elements at `i` and `j` exchanged.
pub open spec fn swapped<A>(s: Seq<A>, i: int, j: int) -> Seq<A> {
    s.update(i, s[j]).update(j, s[i])
}

/// The slots outside `lo..hi` are the same in `s1` and `s2`.
pub open spec fn same_outside<A>(s1: Seq<A>, s2: Seq<A>, lo: int, hi: int) -> bool {
    &&& s1.len() == s2.len()
    &&& forall|k: int| 0 <= k < s1.len() && !(lo <= k < hi) ==> s1[k] == s2[k]
}

proof fn lemma_block_key_len(slot: Option<Block>)
    requires
        slot is Some,
    ensures
        block_key(slot).len() == 16,
{
}

proof fn lemma_swap_multiset<A>(s: Seq<A>, lo: int, hi: int, i: int, j: int)
    requires
        0 <= lo <= i < hi <= s.len(),
        lo <= j < hi,
    ensures
        swapped(s, i, j).subrange(lo, hi).to_multiset() == s.subrange(lo, hi).to_multiset(),
{
    broadcast use group_to_multiset_ensures;

    let t = s.subrange(lo, hi);
    let t1 = t.update(i - lo, s[j]);
    let t2 = t1.update(j - lo, s[i]);
    assert(swapped(s, i, j).subrange(lo, hi) =~= t2);
    assert(t1.to_multiset() =~= t.to_multiset().insert(s[j]).remove(s[i]));
    assert(t2.to_multiset() =~= t1.to_multiset().insert(s[i]).remove(t1[j - lo]));
    assert(t2.to_multiset() =~= t.to_multiset());
}

/// Permuting an inner range `a..b` of `lo..hi`, and touching nothing else in `lo..hi`,
/// permutes `lo..hi`.
proof fn lemma_inner_permutation<A>(s1: Seq<A>, s2: Seq<A>, lo: int, a: int, b: int, hi: int)
    requires
        0 <= lo <= a <= b <= hi <= s1.len(),
        same_outside(s1, s2, a, b),
        s1.subrange(a, b).to_multiset() == s2.subrange(a, b).to_multiset(),
    ensures
        s1.subrange(lo, hi).to_multiset() == s2.subrange(lo, hi).to_multiset(),
{
    let l1 = s1.subrange(lo, a);
    let m1 = s1.subrange(a, b);
    let r1 = s1.subrange(b, hi);
    let l2 = s2.subrange(lo, a);
    let m2 = s2.subrange(a, b);
    let r2 = s2.subrange(b, hi);
    assert(l1 =~= l2);
    assert(r1 =~= r2);
    assert(s1.subrange(lo, hi) =~= l1 + m1 + r1);
    assert(s2.subrange(lo, hi) =~= l2 + m2 + r2);
    lemma_multiset_commutative(l1 + m1, r1);
    lemma_multiset_commutative(l1, m1);
    lemma_multiset_commutative(l2 + m2, r2);
    lemma_multiset_commutative(l2, m2);
}

/// An element of a permutation of `s1` is an element of `s1`.
pub proof fn lemma_permutation_member<A>(s1: Seq<A>, s2: Seq<A>, k: int) -> (k1: int)
    requires
        s1.to_multiset() == s2.to_multiset(),
        0 <= k < s2.len(),
    ensures
        0 <= k1 < s1.len(),
        s1[k1] == s2[k],
{
    broadcast use group_to_multiset_ensures;

    assert(s2.contains(s2[k]));
    assert(s2.to_multiset().count(s2[k]) > 0);
    assert(s1.contains(s2[k]));
    choose|k1: int| 0 <= k1 < s1.len() && s1[k1] == s2[k]
}

/// Exchanges two slots.
fn swap_slots(v: &mut [Option<Block>], i: usize, j: usize)
    requires
        i < old(v)@.len(),
        j < old(v)@.len(),
    ensures
        final(v)@ == swapped(old(v)@, i as int, j as int),
{
    let a = v[i];
    let b = v[j];
    v[i] = b;
    v[j] = a;
}

/// Sorts the blocks of a ring buffer in place by their data, in the order of
/// `[u8; 16]`, with quicksort (median-of-three pivot).
pub fn quick_sort(ringbuffer_flush_candidate: &mut [Option<Block>])
    requires
        old(ringbuffer_flush_candidate)@.len() <= 1 || all_present(old(ringbuffer_flush_candidate)@),
    ensures
        final(ringbuffer_flush_candidate)@.to_multiset() == old(ringbuffer_flush_candidate)@.to_multiset(),
        sorted_by_data(final(ringbuffer_flush_candidate)@),
{
    let len = ringbuffer_flush_candidate.len();
    proof {
        assert(old(ringbuffer_flush_candidate)@.subrange(0, len as int) =~= old(ringbuffer_flush_candidate)@);
    }
    sort_range(ringbuffer_flush_candidate, 0, len);
    proof {
        assert(ringbuffer_flush_candidate@.subrange(0, len as int) =~= ringbuffer_flush_candidate@);
        let s = ringbuffer_flush_candidate@;
        assert forall|i: int, j: int| 0 <= i < j < s.len() implies lex_le(
            #[trigger] block_key(s[i]),
            #[trigger] block_key(s[j]),
        ) by {
            assert(s.subrange(0, len as int)[i] == s[i]);
            assert(s.subrange(0, len as int)[j] == s[j]);
        }
    }
}

/// Sorts the slots `lo..hi` of `v` in place, as `quick_sort` does on a whole slice.
fn sort_range(v: &mut [Option<Block>], lo: usize, hi: usize)
    requires
        lo <= hi <= old(v)@.len(),
        hi - lo <= 1 || all_present(old(v)@.subrange(lo as int, hi as int)),
    ensures
        same_outside(old(v)@, final(v)@, lo as int, hi as int),
        final(v)@.subrange(lo as int, hi as int).to_multiset() == old(v)@.subrange(
            lo as int,
            hi as int,
        ).to_multiset(),
        sorted_by_data(final(v)@.subrange(lo as int, hi as int)),
    decreases hi - lo,
{
    if hi - lo <= 1 {
        return;
    }
    let ghost s0 = v@;
    let last = hi - 1;
    let mid = lo + (hi - lo) / 2;
    proof {
        assert(v@.subrange(lo as int, hi as int)[lo - lo] == v@[lo as int]);
        assert(v@.subrange(lo as int, hi as int)[mid - lo] == v@[mid as int]);
        assert(v@.subrange(lo as int, hi as int)[last - lo] == v@[last as int]);
    }
    let pivot_index = pivot_selector(v, lo, mid, last);
    let new_pivot_index = partition(v, lo, hi, pivot_index);
    let ghost s1 = v@;
    let ghost p = s1[new_pivot_index as int];
    proof {
        assert(p is Some);
        assert forall|k: int| lo <= k < new_pivot_index implies (#[trigger] s1.subrange(
            lo as int,
            new_pivot_index as int,
        )[k - lo]) is Some by {
            assert(s1.subrange(lo as int, hi as int)[k - lo] == s1[k]);
        }
        assert forall|k: int| new_pivot_index + 1 <= k < hi implies (#[trigger] s1.subrange(
            new_pivot_index + 1,
            hi as int,
        )[k - new_pivot_index - 1]) is Some by {
            assert(s1.subrange(lo as int, hi as int)[k - lo] == s1[k]);
        }
        assert(all_present(s1.subrange(lo as int, new_pivot_index as int)));
        assert(all_present(s1.subrange(new_pivot_index + 1, hi as int)));
    }
    sort_range(v, lo, new_pivot_index);
    let ghost s2 = v@;
    sort_range(v, new_pivot_index + 1, hi);
    let ghost s3 = v@;
    proof {
        let np = new_pivot_index as int;
        // permutation of the whole range
        lemma_inner_permutation(s1, s2, lo as int, lo as int, np, hi as int);
        lemma_inner_permutation(s2, s3, lo as int, np + 1, hi as int, hi as int);
        assert(same_outside(s0, s3, lo as int, hi as int));
        // order
        let pk = block_key(p);
        lemma_block_key_len(p);
        assert(s3[np] == p);
        assert forall|k: int| lo <= k < np implies lex_lt(#[trigger] block_key(s3[k]), pk) && s3[k] is Some by {
            let t2 = s2.subrange(lo as int, np);
            let t1 = s1.subrange(lo as int, np);
            assert(t2[k - lo] == s2[k]);
            let k1 = lemma_permutation_member(t1, t2, k - lo);
            assert(t1[k1] == s1[k1 + lo]);
            assert(s3[k] == s2[k]);
        }
        assert forall|k: int| np < k < hi implies !lex_lt(#[trigger] block_key(s3[k]), pk) && s3[k] is Some by {
            let t3 = s3.subrange(np + 1, hi as int);
            let t2 = s2.subrange(np + 1, hi as int);
            assert(t3[k - np - 1] == s3[k]);
            let k1 = lemma_permutation_member(t2, t3, k - np - 1);
            assert(t2[k1] == s2[k1 + np + 1]);
            assert(s2[k1 + np + 1] == s1[k1 + np + 1]);
        }
        assert(s3.subrange(lo as int, np) =~= s2.subrange(lo as int, np));
        let t = s3.subrange(lo as int, hi as int);
        let m = np - lo;
        assert(t.subrange(0, m) =~= s3.subrange(lo as int, np));
        assert(t.subrange(m + 1, t.len() as int) =~= s3.subrange(np + 1, hi as int));
        assert(t[m] == p);
        assert forall|k: int| 0 <= k < m implies (#[trigger] t[k]) is Some && lex_lt(block_key(t[k]), block_key(t[m])) by {
            assert(t[k] == s3[k + lo]);
            assert(lex_lt(block_key(s3[k + lo]), pk) && s3[k + lo] is Some);
        }
        assert forall|k: int| m < k < t.len() implies (#[trigger] t[k]) is Some && !lex_lt(block_key(t[k]), block_key(t[m])) by {
            assert(t[k] == s3[k + lo]);
            assert(!lex_lt(block_key(s3[k + lo]), pk) && s3[k + lo] is Some);
        }
        lemma_sorted_around_pivot(t, m);
    }
}

/// A range split by a pivot, smaller data before it and no smaller data after it,
/// is sorted when both sides are.
proof fn lemma_sorted_around_pivot(t: Seq<Option<Block>>, m: int)
    requires
        0 <= m < t.len(),
        t[m] is Some,
        sorted_by_data(t.subrange(0, m)),
        sorted_by_data(t.subrange(m + 1, t.len() as int)),
        forall|k: int| 0 <= k < m ==> (#[trigger] t[k]) is Some && lex_lt(block_key(t[k]), block_key(t[m])),
        forall|k: int| m < k < t.len() ==> (#[trigger] t[k]) is Some && !lex_lt(block_key(t[k]), block_key(t[m])),
    ensures
        sorted_by_data(t),
{
    let pk = block_key(t[m]);
    assert forall|i: int, j: int| 0 <= i < j < t.len() implies lex_le(
        #[trigger] block_key(t[i]),
        #[trigger] block_key(t[j]),
    ) by {
        if j < m {
            let tl = t.subrange(0, m);
            assert(tl[i] == t[i] && tl[j] == t[j]);
        } else if i > m {
            let tr = t.subrange(m + 1, t.len() as int);
            assert(tr[i - m - 1] == t[i] && tr[j - m - 1] == t[j]);
        } else {
            assert(t[i] is Some);
            assert(t[j] is Some);
            lemma_block_key_len(t[i]);
            lemma_block_key_len(t[j]);
            lemma_block_key_len(t[m]);
            lemma_lex_order(block_key(t[i]), pk, block_key(t[j]));
            lemma_lex_order(pk, block_key(t[j]), block_key(t[i]));
        }
    }
}

/// Moves the pivot at `pivot_index` to its place in `lo..hi`: the blocks before it
/// have smaller data, those after it do not. Returns the pivot's new index.
fn partition(v: &mut [Option<Block>], lo: usize, hi: usize, pivot_index: usize) -> (j: usize)
    requires
        lo <= pivot_index < hi <= old(v)@.len(),
        all_present(old(v)@.subrange(lo as int, hi as int)),
    ensures
        lo <= j < hi,
        same_outside(old(v)@, final(v)@, lo as int, hi as int),
        final(v)@.subrange(lo as int, hi as int).to_multiset() == old(v)@.subrange(
            lo as int,
            hi as int,
        ).to_multiset(),
        final(v)@[j as int] == old(v)@[pivot_index as int],
        forall|k: int|
            lo <= k < hi ==> (#[trigger] final(v)@[k]) is Some,
        forall|k: int|
            lo <= k < j ==> lex_lt(#[trigger] block_key(final(v)@[k]), block_key(final(v)@[j as int])),
        forall|k: int|
            j < k < hi ==> !lex_lt(#[trigger] block_key(final(v)@[k]), block_key(final(v)@[j as int])),
{
    let ghost s0 = v@;
    proof {
        assert(s0.subrange(lo as int, hi as int)[pivot_index - lo] == s0[pivot_index as int]);
    }
    let pivot_value = v[pivot_index].unwrap().data;
    let last = hi - 1;
    proof {
        lemma_swap_multiset(v@, lo as int, hi as int, pivot_index as int, last as int);
    }
    swap_slots(v, pivot_index, last);
    proof {
        assert forall|k: int| lo <= k < hi implies (#[trigger] v@[k]) is Some by {
            assert(s0.subrange(lo as int, hi as int)[k - lo] == s0[k]);
            assert(s0.subrange(lo as int, hi as int)[pivot_index - lo] == s0[pivot_index as int]);
            assert(s0.subrange(lo as int, hi as int)[last - lo] == s0[last as int]);
        }
    }
    let mut j = lo;
    let mut i = lo;
    while i < last
        invariant
            lo <= j <= i <= last,
            last == hi - 1,
            hi <= v@.len(),
            same_outside(s0, v@, lo as int, hi as int),
            v@.subrange(lo as int, hi as int).to_multiset() == s0.subrange(lo as int, hi as int).to_multiset(),
            v@[last as int] == s0[pivot_index as int],
            s0[pivot_index as int] is Some,
            pivot_value@ == block_key(s0[pivot_index as int]),
            forall|k: int| lo <= k < hi ==> (#[trigger] v@[k]) is Some,
            forall|k: int| lo <= k < j ==> lex_lt(#[trigger] block_key(v@[k]), pivot_value@),
            forall|k: int| j <= k < i ==> !lex_lt(#[trigger] block_key(v@[k]), pivot_value@),
        decreases last - i,
    {
        let current = v[i].unwrap().data;
        if data_lt(&current, &pivot_value) {
            proof {
                lemma_swap_multiset(v@, lo as int, hi as int, i as int, j as int);
            }
            swap_slots(v, i, j);
            j = j + 1;
        }
        i = i + 1;
    }
    proof {
        lemma_swap_multiset(v@, lo as int, hi as int, j as int, last as int);
    }
    swap_slots(v, j, last);
    j
}

/// Picks, among the slots `a`, `b` and `c`, the one whose block data is the
/// median of the three.
fn pivot_selector(arr: &mut [Option<Block>], a: usize, b: usize, c: usize) -> (r: usize)
    requires
        a < old(arr)@.len(),
        b < old(arr)@.len(),
        c < old(arr)@.len(),
        old(arr)@[a as int] is Some,
        old(arr)@[b as int] is Some,
        old(arr)@[c as int] is Some,
    ensures
        final(arr)@ == old(arr)@,
        ({
            let ka = block_key(old(arr)@[a as int]);
            let kb = block_key(old(arr)@[b as int]);
            let kc = block_key(old(arr)@[c as int]);
            r == if lex_lt(kb, ka) != lex_lt(kc, ka) {
                a
            } else if lex_lt(ka, kb) != lex_lt(kc, kb) {
                b
            } else {
                c
            }
        }),
        ({
            let ka = block_key(old(arr)@[a as int]);
            let kb = block_key(old(arr)@[b as int]);
            let kc = block_key(old(arr)@[c as int]);
            ka != kb && ka != kc && kb != kc ==> is_median(block_key(old(arr)@[r as int]), ka, kb, kc)
        }),
{
    let val_a = arr[a].unwrap().data;
    let val_b = arr[b].unwrap().data;
    let val_c = arr[c].unwrap().data;
    proof {
        lemma_lex_order(val_a@, val_b@, val_c@);
        lemma_lex_order(val_a@, val_c@, val_b@);
        lemma_lex_order(val_b@, val_a@, val_c@);
        lemma_lex_order(val_b@, val_c@, val_a@);
        lemma_lex_order(val_c@, val_a@, val_b@);
        lemma_lex_order(val_c@, val_b@, val_a@);
    }
    if data_lt(&val_b, &val_a) != data_lt(&val_c, &val_a) {
        a
    } else if data_lt(&val_a, &val_b) != data_lt(&val_c, &val_b) {
        b
    } else {
        c
    }
}

} // verus!
pub mod skip_list;
pub mod ringbuffer;
pub mod merkle;
pub mod skip_node_order;
