//! Selection of the n-th smallest item (order statistic) of an unordered
//! slice, with a random or a deterministically chosen pivot.
use vstd::prelude::*;
use crate::order::{leq, total_order, lemma_total_order, is_equal};
use crate::seqs::{is_selected, lemma_perm_all, lemma_perm_concat3, lemma_selected_around, lemma_selected_pivot,
    sorted, sort_spec, lemma_sort_spec, lemma_inversions_bound, num_groups, group_end, group5, medians_spec,
    lemma_in_multiset, lemma_groups_perm};
use crate::sort::merge::MergeSort;
use crate::merge::Merge;
use crate::sort::partition_at_index;
use crate::random::random_index;

verus! {

/// Finds the `nth_min` order statistic (1 = smallest, 2 = second smallest,
/// ...) in expected linear time, picking pivots at random.  When it returns,
/// the slice has been rearranged so that the item sits at position
/// `nth_min - 1`, with smaller-or-equal items before it and
/// greater-or-equal items after it.  A single-item slice returns that item
/// whatever `nth_min` is.
pub fn r_selection<T: Copy + Ord>(v: &mut [T], nth_min: usize) -> (r: &T)
    requires
        total_order::<T>(),
        old(v)@.len() >= 1,
        old(v)@.len() == 1 || 1 <= nth_min <= old(v)@.len(),
    ensures
        final(v)@.to_multiset() == old(v)@.to_multiset(),
        old(v)@.len() == 1 ==> *r == old(v)@[0] && final(v)@ == old(v)@,
        1 <= nth_min <= old(v)@.len() ==> is_selected(final(v)@, nth_min - 1, *r),
    decreases old(v)@.len(),
{
    proof {
        lemma_total_order::<T>();
    }
    if v.len() == 1 {
        return &v[0];
    }
    // pick an index at random
    let idx = random_index(0, v.len() - 1);
    let ghost pivot = v@[idx as int];
    // find out the order of this sample
    let (left_partition, nth, right_partition) = partition_at_index(v, idx);
    let ghost l0 = left_partition@;
    let ghost r0 = right_partition@;
    let order = left_partition.len() + 1;
    if nth_min == order {
        // we've found the item in nth_min order
        proof {
            assert(has_resolved(left_partition));
            assert(has_resolved(right_partition));
            lemma_selected_pivot(l0, pivot, r0);
        }
        nth
    } else if nth_min < order {
        // recurse on the left partition
        proof {
            assert(has_resolved(nth));
            assert(has_resolved(right_partition));
        }
        let ghost lf = final(left_partition)@;
        let r = r_selection(left_partition, nth_min);
        proof {
            lemma_perm_all(l0, lf, |x: T| leq(x, pivot) && x != pivot);
            lemma_selected_around(lf, pivot, r0, nth_min - 1, *r, true);
            lemma_perm_concat3(lf, pivot, r0, l0, r0);
        }
        r
    } else {
        // recurse on the right partition with adjusted order
        proof {
            assert(has_resolved(nth));
            assert(has_resolved(left_partition));
        }
        let ghost rf = final(right_partition)@;
        let r = r_selection(right_partition, nth_min - order);
        proof {
            lemma_perm_all(r0, rf, |x: T| leq(pivot, x));
            lemma_selected_around(l0, pivot, rf, nth_min - order - 1, *r, false);
            lemma_perm_concat3(l0, pivot, rf, l0, r0);
        }
        r
    }
}


/// Returns the medians of the groups of five items of `v` (the last group may
/// be shorter), sorting each group in place to pick its middle item.
pub fn medians_of_medians<T: Copy + Ord>(v: &mut [T]) -> (medians: Vec<T>)
    requires
        total_order::<T>(),
    ensures
        medians@ == medians_spec(old(v)@),
        final(v)@.len() == old(v)@.len(),
        forall|k: int| 0 <= k < num_groups(old(v)@.len() as int) ==> #[trigger] group5(final(v)@, k) == sort_spec(group5(old(v)@, k)),
{
    let ghost s0 = v@;
    let vlen = v.len();
    let ghost len = s0.len() as int;
    let mut medians: Vec<T> = Vec::new();
    let mut start: usize = 0;
    let ghost mut done: Seq<T> = Seq::empty();
    let mut rest = v;
    while rest.len() > 0
        invariant
            total_order::<T>(),
            s0 == old(v)@,
            len == s0.len(),
            len == vlen,
            start + rest@.len() == len,
            rest@ == s0.subrange(start as int, len),
            start == group_end(len, medians@.len() - 1) || (start == 0 && medians@.len() == 0),
            medians@.len() <= num_groups(len),
            start < len ==> start == 5 * medians@.len(),
            done.len() == start,
            forall|k: int| 0 <= k < medians@.len() ==> #[trigger] done.subrange(5 * k, group_end(len, k)) == sort_spec(group5(s0, k)),
            forall|k: int| 0 <= k < medians@.len() ==> #[trigger] medians@[k] == medians_spec(s0)[k],
            final(v)@.len() == start + final(rest)@.len(),
            final(v)@.subrange(0, start as int) == done,
            final(v)@.subrange(start as int, final(v)@.len() as int) == final(rest)@,
        decreases rest.len(),
    {
        let n = if rest.len() < 5 { rest.len() } else { 5 };
        let ghost k = medians@.len() as int;
        let ghost fr = final(rest)@;
        let (chunk, tail) = rest.split_at_mut(n);
        let ghost fc = final(chunk)@;
        let ghost ft = final(tail)@;
        let ghost fv = final(v)@;
        let ghost st0 = start as int;
        assert(fr == fc + ft);
        let ghost c0 = chunk@;
        assert(c0 == group5(s0, k));
        proof {
            lemma_inversions_bound(c0);
            assert(c0.len() * c0.len() <= 25) by (nonlinear_arith)
                requires
                    c0.len() <= 5;
        }
        chunk.mergesort_mut(<[T] as Merge<T>>::merge_mut_adjacent);
        proof {
            lemma_sort_spec(c0, chunk@);
        }
        medians.push(chunk[chunk.len() / 2]);
        proof {
            assert(has_resolved(chunk));
            assert(fc == chunk@);
        }
        let ghost done0 = done;
        proof {
            done = done + chunk@;
        }
        start = start + n;
        rest = tail;
        proof {
            assert(fv.len() == st0 + fr.len());
            assert forall|i: int| 0 <= i < start implies fv[i] == #[trigger] done[i] by {
                if i < st0 {
                    assert(fv.subrange(0, st0)[i] == fv[i]);
                } else {
                    assert(fv.subrange(st0, fv.len() as int)[i - st0] == fv[i]);
                    assert(fr[i - st0] == fc[i - st0]);
                }
            }
            assert(fv.subrange(0, start as int) =~= done);
            assert forall|i: int| 0 <= i < ft.len() implies fv[start + i] == #[trigger] ft[i] by {
                assert(fv.subrange(st0, fv.len() as int)[start + i - st0] == fv[start + i]);
                assert(fr[n + i] == ft[i]);
            }
            assert(fv.subrange(start as int, fv.len() as int) =~= ft);
            assert(group_end(len, k) == start);
            assert forall|q: int| 0 <= q < medians@.len() implies #[trigger] done.subrange(5 * q, group_end(len, q)) == sort_spec(group5(s0, q)) by {
                if q < k {
                    assert(group_end(len, q) <= done0.len());
                    assert(done.subrange(5 * q, group_end(len, q)) =~= done0.subrange(5 * q, group_end(len, q)));
                } else {
                    assert(done.subrange(5 * q, group_end(len, q)) =~= chunk@);
                }
            }
        }
    }
    proof {
        assert(has_resolved(rest));
        assert(final(v)@ =~= done);
        assert(medians@.len() == num_groups(len));
        assert(medians@ =~= medians_spec(s0));
    }
    medians
}


/// Finds the median value of `v`: the item that would sit in the middle
/// once `v` is sorted, the lower of the two middle items for an even
/// length.  `v` is rearranged as `d_selection` leaves it.
pub fn find_median<T: Copy + Ord>(v: &mut [T]) -> (m: T)
    requires
        total_order::<T>(),
        old(v)@.len() >= 1,
    ensures
        final(v)@.to_multiset() == old(v)@.to_multiset(),
        is_selected(final(v)@, (old(v)@.len() - 1) / 2, m),
{
    let k = (v.len() - 1) / 2 + 1;
    let r = d_selection(v, k);
    *r
}

proof fn lemma_median_in_place<T: Ord>(s0: Seq<T>, s1: Seq<T>, q: int)
    requires
        total_order::<T>(),
        s1.len() == s0.len(),
        0 <= q < num_groups(s0.len() as int),
        forall|k: int| 0 <= k < num_groups(s0.len() as int) ==> #[trigger] group5(s1, k) == sort_spec(group5(s0, k)),
    ensures
        0 <= 5 * q + group5(s0, q).len() / 2 < s1.len(),
        s1[5 * q + group5(s0, q).len() / 2] == medians_spec(s0)[q],
{
    let g = group5(s0, q);
    lemma_sort_spec(g, g);
    assert(group5(s1, q) == sort_spec(g));
    assert(group5(s1, q)[(g.len() / 2) as int] == s1[5 * q + g.len() / 2]);
}

/// Finds the `nth_min` order statistic (1 = smallest, 2 = second smallest,
/// ...) choosing each pivot deterministically from the medians of the
/// groups of five.  When it returns, the slice has been rearranged so that
/// the item sits at position `nth_min - 1`, with smaller-or-equal items
/// before it and greater-or-equal items after it.  A single-item slice
/// returns that item whatever `nth_min` is.
pub fn d_selection<T: Copy + Ord>(v: &mut [T], nth_min: usize) -> (r: &T)
    requires
        total_order::<T>(),
        old(v)@.len() >= 1,
        old(v)@.len() == 1 || 1 <= nth_min <= old(v)@.len(),
    ensures
        final(v)@.to_multiset() == old(v)@.to_multiset(),
        old(v)@.len() == 1 ==> *r == old(v)@[0] && final(v)@ == old(v)@,
        1 <= nth_min <= old(v)@.len() ==> is_selected(final(v)@, nth_min - 1, *r),
    decreases old(v)@.len(),
{
    proof {
        lemma_total_order::<T>();
    }
    if v.len() == 1 {
        return &v[0];
    }
    let ghost s0 = v@;
    // pick the pivot deterministically: extract the medians vector
    let mut c = medians_of_medians(v);
    let ghost s1 = v@;
    let ghost c0 = c@;
    // recurse within the medians to zoom into the pivot value;
    // with fewer than ten medians the smallest one is taken
    let idx = c.len() / 10;
    let idx = if idx == 0 { 1 } else { idx };
    let p = *d_selection(c.as_mut_slice(), idx);
    // find the position of the pivot value
    proof {
        let c1 = c@;
        assert(c1[idx - 1] == p);
        lemma_in_multiset(c1, c0, idx - 1);
        let q = choose|q: int| 0 <= q < c0.len() && c0[q] == p;
        lemma_median_in_place(s0, s1, q);
    }
    let mut pos: usize = 0;
    while pos < v.len() && !is_equal(&v[pos], &p)
        invariant
            total_order::<T>(),
            v@ == s1,
            pos <= v@.len(),
            exists|w: int| pos <= w < v@.len() && v@[w] == p,
        decreases v@.len() - pos,
    {
        pos = pos + 1;
    }
    proof {
        lemma_groups_perm(s0, s1);
    }
    let ghost pivot = p;
    // find out the order of this pivot
    let (left_partition, nth, right_partition) = partition_at_index(v, pos);
    let ghost l0 = left_partition@;
    let ghost r0 = right_partition@;
    let order = left_partition.len() + 1;
    if nth_min == order {
        // we've found the item in nth_min order
        proof {
            assert(has_resolved(left_partition));
            assert(has_resolved(right_partition));
            lemma_selected_pivot(l0, pivot, r0);
        }
        nth
    } else if nth_min < order {
        // recurse on the left partition
        proof {
            assert(has_resolved(nth));
            assert(has_resolved(right_partition));
        }
        let ghost lf = final(left_partition)@;
        let r = d_selection(left_partition, nth_min);
        proof {
            lemma_perm_all(l0, lf, |x: T| leq(x, pivot) && x != pivot);
            lemma_selected_around(lf, pivot, r0, nth_min - 1, *r, true);
            lemma_perm_concat3(lf, pivot, r0, l0, r0);
        }
        r
    } else {
        // recurse on the right partition with adjusted order
        proof {
            assert(has_resolved(nth));
            assert(has_resolved(left_partition));
        }
        let ghost rf = final(right_partition)@;
        let r = d_selection(right_partition, nth_min - order);
        proof {
            lemma_perm_all(r0, rf, |x: T| leq(pivot, x));
            lemma_selected_around(l0, pivot, rf, nth_min - order - 1, *r, false);
            lemma_perm_concat3(l0, pivot, rf, l0, r0);
        }
        r
    }
}

} // verus!
