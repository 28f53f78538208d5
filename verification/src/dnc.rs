//! Divide and conquer: merge sort into a new vector, counting inversions,
//! and a single partitioning step of quick sort.
use vstd::prelude::*;
use crate::order::{leq, total_order, lemma_total_order, is_greater, lemma_i32_total_order};
use crate::seqs::{sorted, merge_seq, merge_count, inversions, lemma_swap_perm, lemma_inversions_concat,
    spec_swap, lomuto, lomuto_partition, lomuto_count};
use crate::sort::merge::{lemma_inversions_short, lemma_inversions_pair, lemma_merge_halves};
use crate::sort::swap_at;
use crate::merge::MergeIterator;

verus! {

/// Sort function based on the merge sort algorithm, returning a sorted
/// vector plus the count of inversions the input held.
pub fn merge_sort<T: Copy + Ord>(v: &[T]) -> (res: (u32, Vec<T>))
    requires
        total_order::<T>(),
        inversions(v@) <= u32::MAX,
    ensures
        res.0 == inversions(v@),
        sorted(res.1@),
        res.1@.to_multiset() == v@.to_multiset(),
    decreases v@.len(),
{
    proof {
        lemma_total_order::<T>();
    }
    let len = v.len();
    if len <= 1 {
        proof {
            lemma_inversions_short(v@);
        }
        (0, vstd::slice::slice_to_vec(v))
    } else if len == 2 {
        proof {
            lemma_inversions_pair(v@);
        }
        let mut inv_count: u32 = 0;
        let mut output = vstd::slice::slice_to_vec(v);
        if v[0] > v[1] {
            let a = output[0];
            let b = output[1];
            output[0] = b;
            output[1] = a;
            inv_count = inv_count + 1;
            assert(output@.to_multiset() =~= v@.to_multiset()) by {
                broadcast use vstd::seq_lib::group_to_multiset_ensures;
                broadcast use vstd::multiset::group_multiset_axioms;
                assert(output@ =~= seq![b].push(a));
                assert(v@ =~= seq![a].push(b));
                assert(seq![b] =~= Seq::<T>::empty().push(b));
                assert(seq![a] =~= Seq::<T>::empty().push(a));
            }
        }
        (inv_count, output)
    } else {
        let (left, right) = v.split_at(len / 2);
        assert(v@ =~= left@ + right@);
        proof {
            lemma_inversions_concat(left@, right@);
        }
        let (left_inv, left_sorted) = merge_sort(left);
        let (right_inv, right_sorted) = merge_sort(right);
        let ghost l1 = left_sorted@;
        let ghost r1 = right_sorted@;
        proof {
            lemma_merge_halves(left@, right@, l1, r1);
        }
        // collect the merged order, summing up the inversions per position
        let mut iter = MergeIterator::new(left_sorted.as_slice(), right_sorted.as_slice());
        let mut output: Vec<T> = Vec::new();
        let mut merge_inv: u32 = 0;
        loop
            invariant
                total_order::<T>(),
                iter.wf(),
                output@ + merge_seq(iter.rest_left(), iter.rest_right()) == merge_seq(l1, r1),
                merge_inv + merge_count(iter.rest_left(), iter.rest_right()) == merge_count(l1, r1),
                merge_count(l1, r1) <= u32::MAX,
            ensures
                output@ == merge_seq(l1, r1),
                merge_inv == merge_count(l1, r1),
            decreases iter.rest_left().len() + iter.rest_right().len(),
        {
            let ghost ol = iter.rest_left();
            let ghost or = iter.rest_right();
            let ghost out0 = output@;
            match iter.next() {
                Some((inv, x)) => {
                    output.push(*x);
                    merge_inv = merge_inv + inv as u32;
                    proof {
                        if or.len() == 0 {
                            assert(merge_seq(ol, or) == ol);
                            assert(ol =~= seq![ol[0]] + ol.drop_first());
                        } else if ol.len() == 0 {
                            assert(merge_seq(ol, or) == or);
                            assert(or =~= seq![or[0]] + or.drop_first());
                        }
                        assert(output@ + merge_seq(iter.rest_left(), iter.rest_right()) =~= out0 + merge_seq(ol, or));
                    }
                },
                None => {
                    assert(output@ =~= merge_seq(l1, r1));
                    break;
                },
            }
        }
        (left_inv + right_inv + merge_inv, output)
    }
}

/// Whether `s` is split at `p` around its element there: everything before
/// it is smaller and nothing after it is.
pub open spec fn partitioned_at<T: Ord>(s: Seq<T>, p: int) -> bool {
    &&& 0 <= p < s.len()
    &&& forall|k: int| 0 <= k < p ==> !leq(s[p], #[trigger] s[k])
    &&& forall|k: int| p < k < s.len() ==> leq(s[p], #[trigger] s[k])
}

/// Moves the element at `idx` (the pivot) to its sorted position, with the
/// smaller elements before it and the rest after, and returns that position.
pub fn partition_at_index<T: Copy + Ord>(v: &mut [T], idx: usize) -> (p: usize)
    requires
        total_order::<T>(),
        idx < old(v)@.len(),
    ensures
        final(v)@.len() == old(v)@.len(),
        final(v)@.to_multiset() == old(v)@.to_multiset(),
        final(v)@[p as int] == old(v)@[idx as int],
        partitioned_at(final(v)@, p as int),
        final(v)@ == lomuto_partition(old(v)@, idx as int),
        p == lomuto_count(old(v)@, idx as int),
{
    proof {
        lemma_total_order::<T>();
        lemma_swap_perm(v@, 0, idx as int);
    }
    let len = v.len();
    let mut i: usize = 1;
    swap_at(v, 0, idx);
    let ghost pivot = v@[0];
    let ghost s1 = v@;
    let mut j: usize = 1;
    while j < len
        invariant
            total_order::<T>(),
            len == v@.len(),
            1 <= i <= j <= len,
            v@[0] == pivot,
            pivot == old(v)@[idx as int],
            v@.to_multiset() == old(v)@.to_multiset(),
            forall|k: int| 1 <= k < i ==> !leq(pivot, #[trigger] v@[k]),
            forall|k: int| i <= k < j ==> leq(pivot, #[trigger] v@[k]),
            s1.len() == len,
            s1[0] == pivot,
            s1 == spec_swap(old(v)@, 0, idx as int),
            v@ == lomuto(s1, j as int).0,
            i - 1 == lomuto(s1, j as int).1,
        decreases len - j,
    {
        proof {
            lemma_total_order::<T>();
        }
        if is_greater(&v[0], &v[j]) {
            proof {
                lemma_swap_perm(v@, i as int, j as int);
            }
            swap_at(v, i, j);
            i = i + 1;
        }
        j = j + 1;
    }
    proof {
        lemma_swap_perm(v@, 0, i - 1);
    }
    swap_at(v, 0, i - 1);
    i - 1
}

/// A single step of quick sort: partitions the slice around its fourth
/// element.
pub fn quick_sort<T: Copy + Ord>(v: &mut [T])
    requires
        total_order::<T>(),
        old(v)@.len() > 3,
    ensures
        final(v)@.to_multiset() == old(v)@.to_multiset(),
        exists|p: int| #![auto] partitioned_at(final(v)@, p) && final(v)@[p] == old(v)@[3],
{
    let idx = partition_at_index(v, 3);
    assert(partitioned_at(v@, idx as int) && v@[idx as int] == old(v)@[3]);
}

/// Merges two sorted, non-empty vectors into a new one, taking the left
/// item while the right one is greater.
fn merge_sorted<T: Copy + Ord>(left: &Vec<T>, right: &Vec<T>) -> (output: Vec<T>)
    requires
        total_order::<T>(),
        left@.len() > 0,
        right@.len() > 0,
        sorted(left@),
        sorted(right@),
    ensures
        sorted(output@),
        output@.to_multiset() == (left@ + right@).to_multiset(),
        output@.len() == left@.len() + right@.len(),
{
    broadcast use vstd::seq_lib::group_to_multiset_ensures;
    proof {
        lemma_total_order::<T>();
        vstd::seq_lib::lemma_multiset_commutative(left@, right@);
    }
    let ghost total = left@.to_multiset().add(right@.to_multiset());
    let mut output: Vec<T> = Vec::new();
    let mut l: usize = 0;
    let mut r: usize = 0;
    assert(left@.skip(0) =~= left@);
    assert(right@.skip(0) =~= right@);
    while l < left.len() || r < right.len()
        invariant
            total_order::<T>(),
            sorted(left@),
            sorted(right@),
            l <= left@.len(),
            r <= right@.len(),
            sorted(output@),
            output@.to_multiset().add(left@.skip(l as int).to_multiset()).add(right@.skip(r as int).to_multiset()) == total,
            output@.len() > 0 && l < left@.len() ==> leq(output@.last(), left@[l as int]),
            output@.len() > 0 && r < right@.len() ==> leq(output@.last(), right@[r as int]),
        decreases left@.len() - l + right@.len() - r,
    {
        let ghost o0 = output@;
        proof {
            lemma_total_order::<T>();
        }
        let take_left = if l < left.len() && r < right.len() {
            is_greater(&right[r], &left[l])
        } else {
            l < left.len()
        };
        let x = if take_left { left[l] } else { right[r] };
        output.push(x);
        proof {
            assert(output@ =~= o0.push(x));
            if take_left && r < right@.len() {
                assert(leq(left@[l as int], right@[r as int]) || leq(right@[r as int], left@[l as int]));
                assert(leq(x, right@[r as int]));
            }
            if !take_left && l < left@.len() {
                assert(leq(x, left@[l as int]));
            }
            assert(o0.len() > 0 ==> leq(o0.last(), x)) by {
                if o0.len() > 0 && !take_left {
                    assert(leq(o0.last(), right@[r as int]));
                }
            }
            assert forall|i: int, j: int| 0 <= i < j < output@.len() implies leq(#[trigger] output@[i], #[trigger] output@[j]) by {
                if j == o0.len() {
                    if i < o0.len() - 1 {
                        assert(leq(o0[i], o0[o0.len() - 1]));
                        assert(leq(o0[o0.len() - 1], x));
                        assert(leq(o0[i], x));
                    } else {
                        assert(o0[i] == o0.last());
                    }
                    assert(output@[j] == x);
                    assert(output@[i] == o0[i]);
                } else {
                    assert(output@[i] == o0[i] && output@[j] == o0[j]);
                    assert(leq(o0[i], o0[j]));
                }
            }
            vstd::seq_lib::to_multiset_build(o0, x);
        }
        let ghost l0 = left@.skip(l as int);
        let ghost r0 = right@.skip(r as int);
        if take_left {
            proof {
                assert(l0.remove(0) =~= left@.skip(l + 1));
                vstd::seq_lib::to_multiset_remove(l0, 0);
                l0.to_multiset_ensures();
                assert(l0.contains(x)) by {
                    assert(l0[0] == x);
                }
            }
            l = l + 1;
        } else {
            proof {
                assert(r0.remove(0) =~= right@.skip(r + 1));
                vstd::seq_lib::to_multiset_remove(r0, 0);
                r0.to_multiset_ensures();
                assert(r0.contains(x)) by {
                    assert(r0[0] == x);
                }
            }
            r = r + 1;
        }
        proof {
            broadcast use vstd::multiset::group_multiset_axioms;
            assert(output@.to_multiset() == o0.to_multiset().insert(x));
            assert(output@.to_multiset().add(left@.skip(l as int).to_multiset()).add(right@.skip(r as int).to_multiset())
                =~= total);
        }
    }
    proof {
        assert(left@.skip(l as int) =~= Seq::<T>::empty());
        assert(right@.skip(r as int) =~= Seq::<T>::empty());
        assert(output@.to_multiset() =~= total);
        output@.to_multiset_ensures();
        (left@ + right@).to_multiset_ensures();
    }
    output
}

/// Sorts a vector of `i32`s by merge sort into a new vector.  Two items
/// are sorted in place, and so are returned; longer vectors are split in
/// halves that are sorted and merged, leaving `v` as it was.
pub fn merge_sort_vec(v: &mut Vec<i32>) -> (r: Vec<i32>)
    requires
        old(v)@.len() > 0,
    ensures
        sorted(r@),
        r@.to_multiset() == old(v)@.to_multiset(),
        r@.len() == old(v)@.len(),
        old(v)@.len() == 2 ==> final(v)@ == r@,
        old(v)@.len() != 2 ==> final(v)@ == old(v)@,
    decreases old(v)@.len(),
{
    proof {
        lemma_i32_total_order();
        lemma_total_order::<i32>();
    }
    let len = v.len();
    if len == 1 {
        return v.clone();
    }
    if len == 2 {
        if v[0] > v[1] {
            let ghost v0 = v@;
            let a = v[0];
            let b = v[1];
            v.set(0, b);
            v.set(1, a);
            proof {
                broadcast use vstd::seq_lib::group_to_multiset_ensures;
                assert(v@ =~= seq![v0[1]].push(v0[0]));
                assert(v0 =~= seq![v0[0]].push(v0[1]));
                assert(seq![v0[1]] =~= Seq::<i32>::empty().push(v0[1]));
                assert(seq![v0[0]] =~= Seq::<i32>::empty().push(v0[0]));
            }
        }
        let r = v.clone();
        assert(r@ =~= v@);
        return r;
    }
    assert(len >= 3 ==> 1 <= len >> 1 && len >> 1 < len) by (bit_vector);
    let (left, right) = v.as_slice().split_at(len >> 1);
    assert(v@ =~= left@ + right@);
    let mut lv = vstd::slice::slice_to_vec(left);
    let mut rv = vstd::slice::slice_to_vec(right);
    assert(lv@.len() > 0 && rv@.len() > 0);
    let l = merge_sort_vec(&mut lv);
    let r = merge_sort_vec(&mut rv);
    proof {
        vstd::seq_lib::lemma_multiset_commutative(l@, r@);
        vstd::seq_lib::lemma_multiset_commutative(left@, right@);
    }
    merge_sorted(&l, &r)
}

} // verus!
