//! Merge sort over slices, returning the number of inversions it resolved.
use vstd::prelude::*;
use crate::order::{leq, total_order, lemma_total_order};
use crate::seqs::{sorted, merge_seq, merge_count, inversions, count_gt, lemma_inversions_concat,
    lemma_merge_count_cross, lemma_cross_perm, lemma_merge_seq_sorted, lemma_merge_seq_perm};
use crate::merge::MergeIterator;

verus! {

/// Merge sort, both in place and into a new vector.
pub trait MergeSort<T>: View<V = Seq<T>> where T: Ord {
    /// Sorts the slice in place, merging sorted halves with `fn_merge`,
    /// and returns the number of inversions the slice held.
    fn mergesort_mut<F>(&mut self, fn_merge: F) -> (inv: usize)
        where F: Copy + Fn(&mut [T], &mut [T]) -> usize
        requires
            total_order::<T>(),
            inversions(old(self)@) <= usize::MAX,
            forall|x: &mut [T], y: &mut [T]| merge_count(x@, y@) <= usize::MAX ==> #[trigger] fn_merge.requires((x, y)),
            forall|x: &mut [T], y: &mut [T], r: usize| #[trigger] fn_merge.ensures((x, y), r) ==>
                final(x)@ + final(y)@ == merge_seq(x@, y@) && r == merge_count(x@, y@),
        ensures
            inv == inversions(old(self)@),
            sorted(final(self)@),
            final(self)@.to_multiset() == old(self)@.to_multiset(),
    ;

    /// Returns a new sorted vector along with the number of inversions the
    /// input held.
    fn mergesort(&self) -> (res: (usize, Vec<T>))
        requires
            total_order::<T>(),
            inversions(self@) <= usize::MAX,
        ensures
            res.0 == inversions(self@),
            sorted(res.1@),
            res.1@.to_multiset() == self@.to_multiset(),
    ;
}


/// The copying and the in-place merge sorts agree: on the same input they
/// return the same inversion count and the same sorted sequence, whatever
/// merge the in-place one uses.
pub proof fn lemma_mergesorts_agree<T: Ord>(s: Seq<T>, inv_copy: usize, sorted_copy: Seq<T>, inv_mut: usize, sorted_mut: Seq<T>)
    requires
        total_order::<T>(),
        inv_copy == inversions(s),
        sorted(sorted_copy),
        sorted_copy.to_multiset() == s.to_multiset(),
        inv_mut == inversions(s),
        sorted(sorted_mut),
        sorted_mut.to_multiset() == s.to_multiset(),
    ensures
        inv_copy == inv_mut,
        sorted_copy == sorted_mut,
{
    crate::seqs::lemma_sort_spec(s, sorted_copy);
    crate::seqs::lemma_sort_spec(s, sorted_mut);
}

/// A sequence of at most one element holds no inversion.
pub proof fn lemma_inversions_short<T: Ord>(s: Seq<T>)
    requires
        s.len() <= 1,
    ensures
        inversions(s) == 0,
{
    if s.len() == 1 {
        assert(s.drop_last().len() == 0);
        assert(inversions(s.drop_last()) == 0);
        assert(count_gt(s.drop_last(), s.last()) == 0);
    }
}

/// The inversions of a two-element sequence.
pub proof fn lemma_inversions_pair<T: Ord>(s: Seq<T>)
    requires
        s.len() == 2,
    ensures
        inversions(s) == if leq(s[0], s[1]) { 0nat } else { 1nat },
{
    let a = s.drop_last();
    assert(a.drop_last().len() == 0);
    assert(inversions(a) == inversions(a.drop_last()) + count_gt(a.drop_last(), a.last()));
    assert(count_gt(a, s[1]) == count_gt(a.drop_last(), s[1]) + if leq(a.last(), s[1]) { 0nat } else { 1nat });
}

/// The facts that join two sorted halves: the merge of the sorted halves is a
/// sorted permutation of the whole, and the inversions add up.
pub proof fn lemma_merge_halves<T: Ord>(l0: Seq<T>, r0: Seq<T>, l1: Seq<T>, r1: Seq<T>)
    requires
        total_order::<T>(),
        sorted(l1),
        sorted(r1),
        l1.to_multiset() == l0.to_multiset(),
        r1.to_multiset() == r0.to_multiset(),
    ensures
        inversions(l0 + r0) == inversions(l0) + inversions(r0) + merge_count(l1, r1),
        sorted(merge_seq(l1, r1)),
        merge_seq(l1, r1).to_multiset() == (l0 + r0).to_multiset(),
{
    lemma_inversions_concat(l0, r0);
    lemma_merge_count_cross(l1, r1);
    lemma_cross_perm(l1, l0, r1, r0);
    lemma_merge_seq_sorted(l1, r1);
    lemma_merge_seq_perm(l1, r1);
    vstd::seq_lib::lemma_multiset_commutative(l1, r1);
    vstd::seq_lib::lemma_multiset_commutative(l0, r0);
}

impl<T> MergeSort<T> for [T] where T: Copy + Ord {
    fn mergesort_mut<F>(&mut self, fn_merge: F) -> (inv: usize)
        where F: Copy + Fn(&mut [T], &mut [T]) -> usize
        decreases old(self)@.len(),
    {
        proof {
            lemma_total_order::<T>();
        }
        let len = self.len();
        if len <= 1 {
            // unity slice, nothing to do
            proof {
                lemma_inversions_short(old(self)@);
            }
            0
        } else if len == 2 {
            // sort the binary slice and exit
            proof {
                lemma_inversions_pair(self@);
            }
            if self[0] > self[1] {
                let a = self[0];
                let b = self[1];
                self[0] = b;
                self[1] = a;
                assert(self@.to_multiset() =~= old(self)@.to_multiset()) by {
                    broadcast use vstd::seq_lib::group_to_multiset_ensures;
                    broadcast use vstd::multiset::group_multiset_axioms;
                    assert(self@ =~= seq![b].push(a));
                    assert(old(self)@ =~= seq![a].push(b));
                    assert(seq![b] =~= Seq::<T>::empty().push(b));
                    assert(seq![a] =~= Seq::<T>::empty().push(a));
                }
                return 1;
            }
            0
        } else {
            // split recursively
            let ghost s0 = self@;
            let (left, right) = self.split_at_mut(len / 2);
            let ghost l0 = left@;
            let ghost r0 = right@;
            assert(s0 =~= l0 + r0);
            proof {
                lemma_inversions_concat(l0, r0);
            }
            let left_inv = left.mergesort_mut(fn_merge);
            let right_inv = right.mergesort_mut(fn_merge);
            let ghost l1 = left@;
            let ghost r1 = right@;
            proof {
                lemma_merge_halves(l0, r0, l1, r1);
            }
            // merge the two slices in place and count the inversions across them
            let merge_inv = fn_merge(left, right);
            left_inv + right_inv + merge_inv
        }
    }

    fn mergesort(&self) -> (res: (usize, Vec<T>))
        decreases self@.len(),
    {
        proof {
            lemma_total_order::<T>();
        }
        let len = self.len();
        if len <= 1 {
            proof {
                lemma_inversions_short(self@);
            }
            (0, vstd::slice::slice_to_vec(self))
        } else if len == 2 {
            proof {
                lemma_inversions_pair(self@);
            }
            let mut inv_count: usize = 0;
            let mut output = vstd::slice::slice_to_vec(self);
            if self[0] > self[1] {
                let a = output[0];
                let b = output[1];
                output[0] = b;
                output[1] = a;
                inv_count = inv_count + 1;
                assert(output@.to_multiset() =~= self@.to_multiset()) by {
                    broadcast use vstd::seq_lib::group_to_multiset_ensures;
                    broadcast use vstd::multiset::group_multiset_axioms;
                    assert(output@ =~= seq![b].push(a));
                    assert(self@ =~= seq![a].push(b));
                    assert(seq![b] =~= Seq::<T>::empty().push(b));
                    assert(seq![a] =~= Seq::<T>::empty().push(a));
                }
            }
            (inv_count, output)
        } else {
            let (left, right) = self.split_at(len / 2);
            assert(self@ =~= left@ + right@);
            proof {
                lemma_inversions_concat(left@, right@);
            }
            let (left_inv, left_sorted) = left.mergesort();
            let (right_inv, right_sorted) = right.mergesort();
            let ghost l1 = left_sorted@;
            let ghost r1 = right_sorted@;
            proof {
                lemma_merge_halves(left@, right@, l1, r1);
            }
            // collect the merged order, summing up the inversions per position
            let mut iter = MergeIterator::new(left_sorted.as_slice(), right_sorted.as_slice());
            let mut output: Vec<T> = Vec::new();
            let mut merge_inv: usize = 0;
            loop
                invariant
                    total_order::<T>(),
                    iter.wf(),
                    output@ + merge_seq(iter.rest_left(), iter.rest_right()) == merge_seq(l1, r1),
                    merge_inv + merge_count(iter.rest_left(), iter.rest_right()) == merge_count(l1, r1),
                    merge_count(l1, r1) <= usize::MAX,
                ensures
                    output@ == merge_seq(l1, r1),
                    merge_inv == merge_count(l1, r1),
                decreases iter.rest_left().len() + iter.rest_right().len(),
            {
                let ghost ol = iter.rest_left();
                let ghost or = iter.rest_right();
                let ghost out0 = output@;
                match iter.next() {
                    Some((inv, x)) => {
                        output.push(*x);
                        merge_inv = merge_inv + inv;
                        proof {
                            if or.len() == 0 {
                                assert(merge_seq(ol, or) == ol);
                                assert(ol =~= seq![ol[0]] + ol.drop_first());
                            } else if ol.len() == 0 {
                                assert(merge_seq(ol, or) == or);
                                assert(or =~= seq![or[0]] + or.drop_first());
                            }
                            assert(output@ + merge_seq(iter.rest_left(), iter.rest_right()) =~= out0 + merge_seq(ol, or));
                        }
                    },
                    None => {
                        assert(output@ =~= merge_seq(l1, r1));
                        break;
                    },
                }
            }
            (left_inv + right_inv + merge_inv, output)
        }
    }
}

} // verus!
