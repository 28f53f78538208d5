//! Sorting algorithms over mutable slices: merge sort, quick sort and
//! count sort, with the partitioning step they share.
pub mod merge;
pub mod quick;
pub mod count;

use vstd::prelude::*;
use crate::order::{leq, total_order, lemma_total_order, is_greater};
use crate::seqs::{spec_swap, lemma_swap_perm, lomuto, lomuto_partition, lomuto_count, sorted, merge_seq, merge_count, inversions, is_selected,
    lemma_perm_all, lemma_sorted_around, lemma_perm_concat3, lemma_inversions_concat, lemma_merge_seq_len};
use crate::sort::merge::lemma_merge_halves;
use crate::random::random_index;

verus! {

/// Exchanges two elements of a slice.
pub fn swap_at<T: Copy>(v: &mut [T], a: usize, b: usize)
    requires
        a < old(v)@.len(),
        b < old(v)@.len(),
    ensures
        final(v)@ == spec_swap(old(v)@, a as int, b as int),
{
    let x = v[a];
    let y = v[b];
    v[a] = y;
    v[b] = x;
    assert(v@ =~= spec_swap(old(v)@, a as int, b as int));
}

/// Splits a slice into two mutable slices/partitions around the element at
/// `idx` (the pivot), so that
/// *[values in left partition] < [pivot] <= [values in right partition]*.
pub fn partition_at_index<T: Copy + Ord>(v: &mut [T], idx: usize) -> (res: (&mut [T], &mut T, &mut [T]))
    requires
        total_order::<T>(),
        idx < old(v)@.len(),
    ensures
        *res.1 == old(v)@[idx as int],
        (res.0@ + seq![*res.1] + res.2@).to_multiset() == old(v)@.to_multiset(),
        res.0@.len() + 1 + res.2@.len() == old(v)@.len(),
        forall|k: int| 0 <= k < res.0@.len() ==> !leq(old(v)@[idx as int], #[trigger] res.0@[k]),
        forall|k: int| 0 <= k < res.2@.len() ==> leq(old(v)@[idx as int], #[trigger] res.2@[k]),
        final(v)@ == final(res.0)@ + seq![*final(res.1)] + final(res.2)@,
        res.0@ + seq![*res.1] + res.2@ == lomuto_partition(old(v)@, idx as int),
        res.0@.len() == lomuto_count(old(v)@, idx as int),
{
    proof {
        lemma_total_order::<T>();
    }
    let len = v.len();
    let mut i: usize = 0;
    // swap v[idx] to v[0]
    proof {
        lemma_swap_perm(v@, 0, idx as int);
    }
    swap_at(v, 0, idx);
    let ghost s1 = v@;
    let pivot = v[0];
    // v[0] holds the pivot, hence compare from v[1]
    // j : next element to check
    // i : position so that v[1..=i] < pivot <= v[i+1..j]
    let mut j: usize = 1;
    while j < len
        invariant
            total_order::<T>(),
            len == v@.len(),
            1 <= j <= len,
            i < j,
            v@[0] == pivot,
            pivot == old(v)@[idx as int],
            v@.to_multiset() == old(v)@.to_multiset(),
            forall|k: int| 1 <= k <= i ==> !leq(pivot, #[trigger] v@[k]),
            forall|k: int| i < k < j ==> leq(pivot, #[trigger] v@[k]),
            s1.len() == len,
            s1[0] == pivot,
            s1 == spec_swap(old(v)@, 0, idx as int),
            v@ == lomuto(s1, j as int).0,
            i == lomuto(s1, j as int).1,
        decreases len - j,
    {
        if is_greater(&pivot, &v[j]) {
            i = i + 1;
            proof {
                lemma_swap_perm(v@, i as int, j as int);
            }
            swap_at(v, i, j);
        }
        j = j + 1;
    }
    // we found the correct position for pivot, hence swap v[i] with v[0]
    proof {
        lemma_swap_perm(v@, 0, i as int);
    }
    swap_at(v, 0, i);
    let ghost w = v@;
    // split the array into [left part], [pivot + right partition]
    let (l, r) = v.split_at_mut(i);
    // split further into [pivot], [right partition]
    let (p, r) = r.split_at_mut(1);
    let pr = p.first_mut().unwrap();
    assert(w =~= l@ + seq![*pr] + r@);
    proof {
        assert forall|k: int| 0 <= k < l@.len() implies !leq(pivot, #[trigger] l@[k]) by {
            assert(l@[k] == w[k]);
            if k == 0 {
            }
        }
        assert forall|k: int| 0 <= k < r@.len() implies leq(pivot, #[trigger] r@[k]) by {
            assert(r@[k] == w[i + 1 + k]);
        }
    }
    (l, pr, r)
}


/// Merges in place the two sorted runs `ws[..mid]` and `ws[mid..]` of a
/// slice, rotating each right item into place, and returns the inversions
/// resolved.
pub fn merge_mut<T: Copy + Ord>(ws: &mut [T], mid: usize) -> (inv: u32)
    requires
        total_order::<T>(),
        mid <= old(ws)@.len(),
        merge_count(old(ws)@.subrange(0, mid as int), old(ws)@.subrange(mid as int, old(ws)@.len() as int)) <= u32::MAX,
    ensures
        final(ws)@ == merge_seq(old(ws)@.subrange(0, mid as int), old(ws)@.subrange(mid as int, old(ws)@.len() as int)),
        inv == merge_count(old(ws)@.subrange(0, mid as int), old(ws)@.subrange(mid as int, old(ws)@.len() as int)),
{
    proof {
        lemma_total_order::<T>();
    }
    let ghost l = ws@.subrange(0, mid as int);
    let ghost r = ws@.subrange(mid as int, ws@.len() as int);
    // i = position so that ... [merged elements] < ws[i] < [unmerged elements]
    // j = position of the next right element
    let len = ws.len();
    let mut i: usize = 0;
    let mut j: usize = mid;
    let mut inv_count: usize = 0;
    assert(l.skip(0) =~= l);
    assert(r.skip(0) =~= r);
    while j < len && i != j
        invariant
            total_order::<T>(),
            len == ws@.len(),
            mid <= j <= len,
            i <= j,
            j - i <= mid,
            l.len() == mid,
            r.len() == len - mid,
            ws@.subrange(0, i as int) + merge_seq(l.skip(mid - (j - i)), r.skip(j - mid)) == merge_seq(l, r),
            inv_count + merge_count(l.skip(mid - (j - i)), r.skip(j - mid)) == merge_count(l, r),
            merge_count(l, r) <= u32::MAX,
            ws@.subrange(i as int, j as int) == l.skip(mid - (j - i)),
            ws@.subrange(j as int, len as int) == r.skip(j - mid),
        decreases len - i,
    {
        let ghost w0 = ws@;
        let ghost lr = l.skip(mid - (j - i));
        let ghost rr = r.skip(j - mid);
        assert(lr[0] == w0[i as int]) by {
            assert(w0.subrange(i as int, j as int)[0] == w0[i as int]);
        }
        assert(rr[0] == w0[j as int]) by {
            assert(w0.subrange(j as int, len as int)[0] == w0[j as int]);
        }
        if is_greater(&ws[i], &ws[j]) {
            // rotate ws[i..=j] right by one, so ws[j] moves to ws[i]
            // and the left elements in between shift up keeping their order
            let tmp = ws[j];
            let mut k = j;
            while k > i
                invariant
                    i <= k <= j,
                    j < len,
                    len == ws@.len(),
                    forall|x: int| 0 <= x < i ==> ws@[x] == w0[x],
                    forall|x: int| i <= x <= k ==> ws@[x] == w0[x],
                    forall|x: int| k < x <= j ==> ws@[x] == w0[x - 1],
                    forall|x: int| j < x < len ==> ws@[x] == w0[x],
                decreases k,
            {
                ws[k] = ws[k - 1];
                k = k - 1;
            }
            ws[i] = tmp;
            inv_count = inv_count + (j - i);
            j = j + 1;
            proof {
                assert(merge_seq(lr, rr) == seq![rr[0]] + merge_seq(lr, rr.drop_first()));
                assert(r.skip(j - mid) =~= rr.drop_first());
                assert(ws@.subrange(0, i + 1) =~= w0.subrange(0, i as int).push(rr[0]));
                assert(ws@.subrange(i + 1, j as int) =~= lr);
                assert(ws@.subrange(j as int, len as int) =~= r.skip(j - mid));
                assert(ws@.subrange(0, i + 1) + merge_seq(lr, rr.drop_first()) =~= w0.subrange(0, i as int) + merge_seq(lr, rr));
            }
        } else {
            proof {
                assert(merge_seq(lr, rr) == seq![lr[0]] + merge_seq(lr.drop_first(), rr));
                assert(l.skip(mid - (j - i - 1)) =~= lr.drop_first());
                assert(ws@.subrange(0, i + 1) =~= w0.subrange(0, i as int).push(lr[0]));
                assert(ws@.subrange(i + 1, j as int) =~= lr.drop_first());
                assert(ws@.subrange(0, i + 1) + merge_seq(lr.drop_first(), rr) =~= w0.subrange(0, i as int) + merge_seq(lr, rr));
            }
        }
        // sorted partition (left) increased by 1
        i = i + 1;
    }
    proof {
        let w = ws@;
        let lr = l.skip(mid - (j - i));
        let rr = r.skip(j - mid);
        if j == len {
            assert(rr.len() == 0);
            assert(merge_seq(lr, rr) == lr);
            assert(w =~= w.subrange(0, i as int) + w.subrange(i as int, j as int));
        } else {
            assert(lr.len() == 0);
            assert(merge_seq(lr, rr) == rr);
            assert(w =~= w.subrange(0, i as int) + w.subrange(j as int, len as int));
        }
    }
    inv_count as u32
}

/// Sorts the slice in place with merge sort, merging the sorted halves by
/// in-place rotations, and returns the number of inversions it held.
pub fn merge_sort<T: Copy + Ord>(v: &mut [T]) -> (inv: u32)
    requires
        total_order::<T>(),
        inversions(old(v)@) <= u32::MAX,
    ensures
        inv == inversions(old(v)@),
        final(v)@.len() == old(v)@.len(),
        sorted(final(v)@),
        final(v)@.to_multiset() == old(v)@.to_multiset(),
    decreases old(v)@.len(),
{
    proof {
        lemma_total_order::<T>();
    }
    let len = v.len();
    if len <= 1 {
        proof {
            crate::sort::merge::lemma_inversions_short(v@);
        }
        0
    } else if len == 2 {
        proof {
            crate::sort::merge::lemma_inversions_pair(v@);
        }
        if is_greater(&v[0], &v[1]) {
            proof {
                lemma_swap_perm(v@, 0, 1);
            }
            swap_at(v, 0, 1);
            return 1;
        }
        0
    } else {
        let mid = len / 2;
        let ghost s0 = v@;
        let (left, right) = v.split_at_mut(mid);
        let ghost l0 = left@;
        let ghost r0 = right@;
        assert(s0 =~= l0 + r0);
        proof {
            lemma_inversions_concat(l0, r0);
        }
        let left_inv = merge_sort(left);
        let right_inv = merge_sort(right);
        let ghost l1 = left@;
        let ghost r1 = right@;
        proof {
            assert(has_resolved(left));
            assert(has_resolved(right));
            lemma_merge_halves(l0, r0, l1, r1);
        }
        assert(v@ =~= l1 + r1);
        assert(v@.subrange(0, mid as int) =~= l1);
        assert(v@.subrange(mid as int, len as int) =~= r1);
        let merge_inv = merge_mut(v, mid);
        proof {
            lemma_merge_seq_len(l1, r1);
        }
        left_inv + right_inv + merge_inv
    }
}

/// Sorts the slice in place with quick sort, picking each pivot at random.
pub fn quick_sort<T: Copy + Ord>(v: &mut [T])
    requires
        total_order::<T>(),
    ensures
        sorted(final(v)@),
        final(v)@.to_multiset() == old(v)@.to_multiset(),
    decreases old(v)@.len(),
{
    proof {
        lemma_total_order::<T>();
    }
    // have we reached the end of the recursion ?
    if v.len() < 2 {
        return;
    }
    // pick an index at random
    let idx = random_index(0, v.len() - 1);
    let ghost pivot = v@[idx as int];
    // partition into two mutable slices for further sorting
    let (left_partition, p, right_partition) = partition_at_index(v, idx);
    let ghost l0 = left_partition@;
    let ghost r0 = right_partition@;
    proof {
        assert(has_resolved(p));
    }
    // recurse against left and right partitions
    quick_sort(left_partition);
    quick_sort(right_partition);
    proof {
        lemma_perm_all(l0, left_partition@, |x: T| leq(x, pivot));
        lemma_perm_all(r0, right_partition@, |x: T| leq(pivot, x));
        lemma_sorted_around(left_partition@, pivot, right_partition@);
        lemma_perm_concat3(left_partition@, pivot, right_partition@, l0, r0);
    }
}

/// Finds the `nth_min` order statistic (1 = smallest) picking pivots at
/// random; the same selection as `select::r_selection`.
pub fn rand_selection<T: Copy + Ord>(v: &mut [T], nth_min: usize) -> (r: &T)
    requires
        total_order::<T>(),
        old(v)@.len() >= 1,
        old(v)@.len() == 1 || 1 <= nth_min <= old(v)@.len(),
    ensures
        final(v)@.to_multiset() == old(v)@.to_multiset(),
        old(v)@.len() == 1 ==> *r == old(v)@[0] && final(v)@ == old(v)@,
        1 <= nth_min <= old(v)@.len() ==> is_selected(final(v)@, nth_min - 1, *r),
{
    crate::select::r_selection(v, nth_min)
}

} // verus!
