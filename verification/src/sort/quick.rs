//! Quick sort with the middle element as pivot.
use vstd::prelude::*;
use crate::order::{leq, total_order, lemma_total_order};
use crate::seqs::{sorted, lemma_perm_all, lemma_sorted_around, lemma_perm_concat3};
use super::partition_at_index;

verus! {

/// Sorting in place with the Quick Sort algorithm.
pub trait QuickSort<T>: View<V = Seq<T>> where T: Ord {
    /// Rearranges the contents in ascending order.
    fn quick_sort(&mut self)
        requires
            total_order::<T>(),
        ensures
            sorted(final(self)@),
            final(self)@.to_multiset() == old(self)@.to_multiset(),
    ;
}

impl<T> QuickSort<T> for [T] where T: Copy + Ord {
    fn quick_sort(&mut self)
        decreases old(self)@.len(),
    {
        proof {
            lemma_total_order::<T>();
        }
        // have we reached the end of the recursion ?
        if self.len() < 2 {
            return;
        }
        // pick the middle index as pivot
        let idx = self.len() / 2;
        let ghost pivot = self@[idx as int];
        // partition into two mutable slices for further sorting
        let (left_partition, p, right_partition) = partition_at_index(self, idx);
        let ghost l0 = left_partition@;
        let ghost r0 = right_partition@;
        let ghost pv = *p;
        proof {
            assert(has_resolved(p));
        }
        // recurse against left and right partitions
        left_partition.quick_sort();
        right_partition.quick_sort();
        proof {
            lemma_perm_all(l0, left_partition@, |x: T| leq(x, pivot));
            lemma_perm_all(r0, right_partition@, |x: T| leq(pivot, x));
            lemma_sorted_around(left_partition@, pivot, right_partition@);
            lemma_perm_concat3(left_partition@, pivot, right_partition@, l0, r0);
        }
    }
}

} // verus!
