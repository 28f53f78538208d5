//! Merging of ordered sequences: an iterator that yields the merged order
//! together with the inversions each item resolves, and in-place merging of
//! two mutable slices through a `VirtualSlice`.
pub mod vs;

use vstd::prelude::*;
use crate::order::{leq, total_order, lemma_total_order};
use crate::seqs::{merge_seq, merge_count};
use vs::VirtualSlice;

verus! {

/// Takes two slices and yields, one at a time, the next item in merged order
/// together with the number of inversions it resolves: when the item comes
/// from the right slice, the number of left items not yet yielded.
pub struct MergeIterator<'a, T> {
    right: &'a [T],
    left: &'a [T],
    r: usize,
    l: usize,
    left_count: usize,
    left_len: usize,
}

impl<'a, T: Ord> MergeIterator<'a, T> {
    /// Items of the left slice not yet yielded.
    pub closed spec fn rest_left(&self) -> Seq<T> {
        self.left@.skip(self.l as int)
    }

    /// Items of the right slice not yet yielded.
    pub closed spec fn rest_right(&self) -> Seq<T> {
        self.right@.skip(self.r as int)
    }

    /// Internal consistency of the iterator's counters.
    pub closed spec fn wf(&self) -> bool {
        &&& self.l <= self.left@.len()
        &&& self.r <= self.right@.len()
        &&& self.left_len == self.left@.len()
        &&& (self.left_count == self.l || self.r == self.right@.len())
    }

    /// Constructs a new MergeIterator given two slices
    pub fn new(left: &'a [T], right: &'a [T]) -> (mi: Self)
        ensures
            mi.wf(),
            mi.rest_left() == left@,
            mi.rest_right() == right@,
    {
        let mi = MergeIterator { right, left, r: 0, l: 0, left_count: 0, left_len: left.len() };
        assert(mi.left@.skip(0) =~= left@);
        assert(mi.right@.skip(0) =~= right@);
        mi
    }

    /// Outputs the next in order value out of the two slices in the form of
    /// `Some((inversions at position, value at position))`, or `None` once
    /// both are exhausted.
    pub fn next(&mut self) -> (res: Option<(usize, &'a T)>)
        requires
            total_order::<T>(),
            old(self).wf(),
        ensures
            final(self).wf(),
            ({
                let l = old(self).rest_left();
                let r = old(self).rest_right();
                if l.len() == 0 && r.len() == 0 {
                    &&& res is None
                    &&& final(self).rest_left() == l
                    &&& final(self).rest_right() == r
                } else if r.len() == 0 || (l.len() != 0 && leq(l[0], r[0])) {
                    &&& res == Some((0usize, &l[0]))
                    &&& final(self).rest_left() == l.drop_first()
                    &&& final(self).rest_right() == r
                } else if l.len() == 0 {
                    &&& res == Some((0usize, &r[0]))
                    &&& final(self).rest_left() == l
                    &&& final(self).rest_right() == r.drop_first()
                } else {
                    &&& res == Some((l.len() as usize, &r[0]))
                    &&& final(self).rest_left() == l
                    &&& final(self).rest_right() == r.drop_first()
                }
            }),
    {
        proof {
            lemma_total_order::<T>();
        }
        let ghost l0 = self.rest_left();
        let ghost r0 = self.rest_right();
        if self.l < self.left.len() && self.r < self.right.len() {
            let lv = &self.left[self.l];
            let rv = &self.right[self.r];
            if lv <= rv {
                // left is smaller hence move to output, there are no inversions to count
                self.left_count = self.left_count + 1;
                self.l = self.l + 1;
                assert(self.rest_left() =~= l0.drop_first());
                Some((0, lv))
            } else {
                // right is smaller hence move to output
                // inversions are equal to the left items remaining to iterate over
                let inv = self.left_len - self.left_count;
                self.r = self.r + 1;
                assert(self.rest_right() =~= r0.drop_first());
                Some((inv, rv))
            }
        } else if self.l < self.left.len() {
            // right part out of bounds, hence move left item to output
            let lv = &self.left[self.l];
            self.l = self.l + 1;
            assert(self.rest_left() =~= l0.drop_first());
            Some((0, lv))
        } else if self.r < self.right.len() {
            // left part out of bounds, hence move right item to output
            let rv = &self.right[self.r];
            self.r = self.r + 1;
            assert(self.rest_right() =~= r0.drop_first());
            Some((0, rv))
        } else {
            // both left & right parts out of bounds
            None
        }
    }
}


/// Merge capabilities for slices
pub trait Merge<T>: View<V = Seq<T>> where T: Ord {
    /// Returns a merged representation (a virtual slice) over `self` and `s`
    /// without mutating their contents.
    fn merge_virtual<'a>(&'a mut self, s: &'a mut [T]) -> (vs: VirtualSlice<'a, T>)
        requires
            total_order::<T>(),
            merge_count(old(self)@, old(s)@) <= usize::MAX,
        ensures
            vs@ == merge_seq(old(self)@, old(s)@),
            !vs.is_adjacent(),
            vs.wf(),
            vs.attached().len() == old(self)@.len() + old(s)@.len(),
            final(self)@.len() == old(self)@.len(),
            final(s)@.len() == old(s)@.len(),
            forall|k: int| 0 <= k < old(self)@.len() ==> #[trigger] final(self)@[k] == *final(vs.attached()[k]),
            forall|k: int| 0 <= k < old(s)@.len() ==> #[trigger] final(s)@[k] == *final(vs.attached()[old(self)@.len() + k]),
    ;

    /// In-place merge of two slices meant to be adjacent (split from the
    /// same slice); returns the inversions resolved.
    fn merge_mut_adjacent(&mut self, s: &mut [T]) -> (inv: usize)
        requires
            total_order::<T>(),
            merge_count(old(self)@, old(s)@) <= usize::MAX,
        ensures
            final(self)@ + final(s)@ == merge_seq(old(self)@, old(s)@),
            inv == merge_count(old(self)@, old(s)@),
    ;

    /// In-place merge of two slices, adjacent or not, using swaps and no
    /// rotations; returns the inversions resolved.
    fn merge_mut(&mut self, s: &mut [T]) -> (inv: usize)
        requires
            total_order::<T>(),
            merge_count(old(self)@, old(s)@) <= usize::MAX,
        ensures
            final(self)@ + final(s)@ == merge_seq(old(self)@, old(s)@),
            inv == merge_count(old(self)@, old(s)@),
    ;
}

impl<T> Merge<T> for [T] where T: Copy + Ord {
    fn merge_virtual<'a>(&'a mut self, s: &'a mut [T]) -> (vs: VirtualSlice<'a, T>) {
        let ghost fl = final(self)@;
        let mut vs = VirtualSlice::new(self.len());
        vs.attach(self);
        assert(vs@ =~= old(self)@);
        let ghost a1 = vs.attached();
        assert(a1 =~= vs.refs());
        vs.merge_lazy(s);
        proof {
            assert forall|k: int| 0 <= k < old(self)@.len() implies #[trigger] fl[k] == *final(vs.attached()[k]) by {
                assert(a1[k] == a1[k]);
            }
        }
        vs
    }

    fn merge_mut_adjacent(&mut self, s: &mut [T]) -> (inv: usize) {
        let ghost l = self@;
        let ghost r = s@;
        let mut ws = VirtualSlice::new_adjacent(self);
        let ghost r0 = ws.refs();
        let inv = ws.merge(s);
        let ghost r1 = ws.refs();
        proof {
            crate::seqs::lemma_merge_seq_len(l, r);
            ws.lemma_resolved();
        }
        let ghost wv = ws@;
        proof {
            assert(final(self)@ + final(s)@ =~= merge_seq(l, r)) by {
                assert forall|k: int| 0 <= k < l.len() + r.len() implies #[trigger] (final(self)@ + final(s)@)[k] == merge_seq(l, r)[k] by {
                    if k < l.len() {
                        assert(final(self)@[k] == *final(r0[k]));
                        assert(*final(r1[k]) == *final(r0[k]));
                        assert(*final(r1[k]) == wv[k]);
                    } else {
                        assert(final(s)@[k - l.len()] == wv[k]);
                    }
                }
            }
        }
        inv
    }

    fn merge_mut(&mut self, s: &mut [T]) -> (inv: usize) {
        let ghost l = self@;
        let ghost r = s@;
        let mut ws = VirtualSlice::new(self.len());
        ws.attach(self);
        assert(ws@ =~= l);
        let ghost r0 = ws.refs();
        let inv = ws.merge(s);
        let ghost r1 = ws.refs();
        proof {
            crate::seqs::lemma_merge_seq_len(l, r);
            ws.lemma_resolved();
        }
        let ghost wv = ws@;
        proof {
            assert(final(self)@ + final(s)@ =~= merge_seq(l, r)) by {
                assert forall|k: int| 0 <= k < l.len() + r.len() implies #[trigger] (final(self)@ + final(s)@)[k] == merge_seq(l, r)[k] by {
                    if k < l.len() {
                        assert(final(self)@[k] == *final(r0[k]));
                        assert(*final(r1[k]) == *final(r0[k]));
                        assert(*final(r1[k]) == wv[k]);
                    } else {
                        assert(final(s)@[k - l.len()] == wv[k]);
                    }
                }
            }
        }
        inv
    }
}

} // verus!
