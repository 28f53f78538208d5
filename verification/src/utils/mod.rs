//! A virtual slice that starts empty and grows as slice segments are
//! chained onto it, merging each new segment into the ordered contents.
use vstd::prelude::*;
use crate::order::{total_order, leq, is_greater, is_equal};
use core::cmp::Ordering;
use crate::seqs::{merge_seq, merge_count, spec_swap, sorted};
use crate::merge::vs;
pub use crate::merge::vs::{VSIter, VSIterMut};

verus! {

/// Several mutable slice segments chained into one continuous slice.
///
/// A shallow merge only reorders the positions; it leaves behind the order
/// that `superimpose_shallow_merge` later writes onto the segments.
pub struct VirtualSlice<'a, T> {
    inner: vs::VirtualSlice<'a, T>,
    reflected: bool,
    lens: Ghost<Seq<nat>>,
}

/// The sum of the lengths.
pub open spec fn total_len(s: Seq<nat>) -> nat
    decreases s.len(),
{
    if s.len() == 0 { 0 } else { total_len(s.drop_last()) + s.last() }
}

impl<'a, T> View for VirtualSlice<'a, T> {
    type V = Seq<T>;

    /// The current values at each position.
    closed spec fn view(&self) -> Seq<T> {
        self.inner@
    }
}

impl<'a, T> VirtualSlice<'a, T> {
    /// The references held, one per position.
    pub closed spec fn refs(&self) -> Seq<&'a mut T> {
        self.inner.refs()
    }

    /// The references held, in the order their elements were chained.
    pub closed spec fn attached(&self) -> Seq<&'a mut T> {
        self.inner.attached()
    }

    /// Made with `new_adjacent`: shallow operations are not available.
    pub closed spec fn is_adjacent(&self) -> bool {
        self.inner.is_adjacent()
    }

    /// A shallow merge has left an order to superimpose.
    pub closed spec fn has_reflector(&self) -> bool {
        self.reflected
    }

    /// The lengths of the segments chained, in order.
    pub closed spec fn segment_lens(&self) -> Seq<nat> {
        self.lens@
    }

    /// The positions are a permutation of the chained elements, one per
    /// element of the segments chained.
    pub closed spec fn wf(&self) -> bool {
        &&& self.inner.wf()
        &&& self.inner@.len() == total_len(self.lens@)
    }

    /// A virtual slice is as long as the segments chained onto it together.
    pub proof fn lemma_len_is_sum(&self)
        requires
            self.wf(),
        ensures
            self@.len() == total_len(self.segment_lens()),
    {
    }

    /// Once the virtual slice is no longer used, every element referred to
    /// holds the value of its position.
    pub proof fn lemma_resolved(&self)
        requires
            has_resolved(*self),
        ensures
            forall|k: int| 0 <= k < self.refs().len() ==> *final(#[trigger] self.refs()[k]) == self@[k],
    {
        assert(has_resolved(self.inner));
        self.inner.lemma_resolved();
    }

    /// An empty virtual slice.
    pub fn new() -> (v: VirtualSlice<'a, T>)
        ensures
            v@ == Seq::<T>::empty(),
            v.attached() == Seq::<&'a mut T>::empty(),
            v.refs() == Seq::<&'a mut T>::empty(),
            v.segment_lens() == Seq::<nat>::empty(),
            !v.is_adjacent(),
            !v.has_reflector(),
            v.wf(),
    {
        VirtualSlice { inner: vs::VirtualSlice::new(0), reflected: false, lens: Ghost(Seq::empty()) }
    }

    /// A virtual slice over one segment that only accepts deep operations.
    pub fn new_adjacent(s: &'a mut [T]) -> (v: VirtualSlice<'a, T>)
        ensures
            v@ == old(s)@,
            v.segment_lens() == seq![old(s)@.len()],
            v.is_adjacent(),
            !v.has_reflector(),
            v.wf(),
            v.attached() == v.refs(),
            v.attached().len() == old(s)@.len(),
            final(s)@.len() == old(s)@.len(),
            forall|i: int| 0 <= i < old(s)@.len() ==> #[trigger] final(s)@[i] == *final(v.attached()[i]),
    {
        let ghost l: Seq<nat> = seq![s@.len()];
        let v = VirtualSlice { inner: vs::VirtualSlice::new_adjacent(s), reflected: false, lens: Ghost(l) };
        assert(l.drop_last() =~= Seq::<nat>::empty());
        assert(l.last() == v@.len());
        assert(total_len(l) == total_len(l.drop_last()) + l.last());
        v
    }

    /// Current length, the sum of the lengths of the segments chained.
    pub fn len(&self) -> (n: usize)
        ensures
            n == self@.len(),
    {
        self.inner.len()
    }

    /// Whether nothing has been chained yet.
    pub fn is_empty(&self) -> (b: bool)
        ensures
            b == (self@.len() == 0),
    {
        self.inner.is_empty()
    }

    /// Append a slice segment onto the virtual slice.
    pub fn chain(&mut self, s: &'a mut [T])
        requires
            old(self).wf(),
        ensures
            final(self).wf(),
            final(self).segment_lens() == old(self).segment_lens().push(old(s)@.len()),
            final(self)@ == old(self)@ + old(s)@,
            final(self).is_adjacent() == old(self).is_adjacent(),
            final(self).has_reflector() == old(self).has_reflector(),
            final(self).attached().len() == old(self).attached().len() + old(s)@.len(),
            forall|i: int| 0 <= i < old(self).attached().len() ==> #[trigger] final(self).attached()[i] == old(self).attached()[i],
            final(s)@.len() == old(s)@.len(),
            forall|i: int| 0 <= i < old(s)@.len() ==> #[trigger] final(s)@[i] == *final(final(self).attached()[old(self).attached().len() + i]),
            final(self).refs().len() == old(self).refs().len() + old(s)@.len(),
            forall|i: int| 0 <= i < old(self).refs().len() ==> #[trigger] final(self).refs()[i] == old(self).refs()[i],
            final(self).attached() == old(self).attached() + final(self).refs().subrange(old(self).refs().len() as int, final(self).refs().len() as int),
            forall|i: int| 0 <= i < old(s)@.len() ==> #[trigger] final(s)@[i] == *final(final(self).refs()[old(self).refs().len() + i]),
            old(self).refs() == old(self).attached() ==> final(self).refs() == final(self).attached(),
    {
        self.attach(s);
    }

    /// Attach a slice segment onto the virtual slice, as `chain` does.
    pub fn attach(&mut self, s: &'a mut [T])
        requires
            old(self).wf(),
        ensures
            final(self).wf(),
            final(self).segment_lens() == old(self).segment_lens().push(old(s)@.len()),
            final(self)@ == old(self)@ + old(s)@,
            final(self).is_adjacent() == old(self).is_adjacent(),
            final(self).has_reflector() == old(self).has_reflector(),
            final(self).attached().len() == old(self).attached().len() + old(s)@.len(),
            forall|i: int| 0 <= i < old(self).attached().len() ==> #[trigger] final(self).attached()[i] == old(self).attached()[i],
            final(s)@.len() == old(s)@.len(),
            forall|i: int| 0 <= i < old(s)@.len() ==> #[trigger] final(s)@[i] == *final(final(self).attached()[old(self).attached().len() + i]),
            final(self).refs().len() == old(self).refs().len() + old(s)@.len(),
            forall|i: int| 0 <= i < old(self).refs().len() ==> #[trigger] final(self).refs()[i] == old(self).refs()[i],
            final(self).attached() == old(self).attached() + final(self).refs().subrange(old(self).refs().len() as int, final(self).refs().len() as int),
            forall|i: int| 0 <= i < old(s)@.len() ==> #[trigger] final(s)@[i] == *final(final(self).refs()[old(self).refs().len() + i]),
            old(self).refs() == old(self).attached() ==> final(self).refs() == final(self).attached(),
    {
        let ghost fs = final(s)@;
        let ghost n = s@.len();
        let ghost n0 = self.inner.refs().len();
        proof {
            self.inner.lemma_wf();
        }
        self.inner.attach(s);
        let ghost l0 = self.lens@;
        self.lens = Ghost(l0.push(n as nat));
        proof {
            assert(self.lens@.drop_last() =~= l0);
            let r = self.inner.refs();
            if old(self).refs() == old(self).attached() {
                assert(self.inner.refs() =~= self.inner.attached());
            }
            assert forall|i: int| 0 <= i < fs.len() implies #[trigger] fs[i] == *final(self.inner.attached()[n0 + i]) by {
                assert(self.inner.attached()[n0 + i] == r[n0 + i]);
            }
        }
    }

    /// The current value at a position.
    pub fn get(&self, index: usize) -> (r: &T)
        requires
            index < self@.len(),
        ensures
            *r == self@[index as int],
    {
        self.inner.get(index)
    }

    /// An iterator over the current values.
    pub fn iter(&self) -> (it: VSIter<'_, 'a, T>)
        ensures
            it.rest() == self@,
            it.wf(),
    {
        self.inner.iter()
    }

    /// An iterator over the positions.  Each position ends up holding,
    /// through the reference the iterator handed out for it, the value last
    /// written there; the segments get those values once the virtual slice
    /// is no longer used (`lemma_resolved`).
    pub fn iter_mut<'b>(&'b mut self) -> (it: VSIterMut<'b, 'a, T>)
        ensures
            it.rest() == old(self)@,
            it.live(),
            it.slots()@ == old(self).refs(),
            final(self).refs() == final(it.slots())@,
            final(self).attached() == old(self).attached(),
            final(self).is_adjacent() == old(self).is_adjacent(),
            final(self).has_reflector() == old(self).has_reflector(),
    {
        self.inner.iter_mut()
    }
}

impl<'a, T: Copy> VirtualSlice<'a, T> {
    /// Swap the values at two positions, writing through to the segments.
    pub fn swap(&mut self, a: usize, b: usize)
        requires
            old(self).wf(),
            a < old(self)@.len(),
            b < old(self)@.len(),
        ensures
            final(self).wf(),
            final(self).segment_lens() == old(self).segment_lens(),
            final(self)@ == spec_swap(old(self)@, a as int, b as int),
            final(self).is_adjacent() == old(self).is_adjacent(),
            final(self).has_reflector() == old(self).has_reflector(),
            final(self).attached().len() == old(self).attached().len(),
            forall|x: int| 0 <= x < old(self).attached().len() ==> *final(#[trigger] final(self).attached()[x]) == *final(old(self).attached()[x]),
            final(self).refs().len() == old(self).refs().len(),
            forall|k: int| 0 <= k < old(self).refs().len() ==> *final(#[trigger] final(self).refs()[k]) == *final(old(self).refs()[k]),
    {
        self.inner.swap(a, b);
    }

    /// Store a value at a position, writing through to the segment.
    pub fn set(&mut self, index: usize, v: T)
        requires
            old(self).wf(),
            index < old(self)@.len(),
        ensures
            final(self).wf(),
            final(self).segment_lens() == old(self).segment_lens(),
            final(self)@ == old(self)@.update(index as int, v),
            final(self).is_adjacent() == old(self).is_adjacent(),
            final(self).has_reflector() == old(self).has_reflector(),
            final(self).attached().len() == old(self).attached().len(),
            forall|x: int| 0 <= x < old(self).attached().len() ==> *final(#[trigger] final(self).attached()[x]) == *final(old(self).attached()[x]),
            final(self).refs().len() == old(self).refs().len(),
            forall|k: int| 0 <= k < old(self).refs().len() ==> *final(#[trigger] final(self).refs()[k]) == *final(old(self).refs()[k]),
    {
        self.inner.set(index, v);
    }

    /// Swap two positions themselves, leaving the segments as they are.
    pub fn swap_shallow(&mut self, a: usize, b: usize)
        requires
            old(self).wf(),
            !old(self).is_adjacent(),
            a < old(self)@.len(),
            b < old(self)@.len(),
        ensures
            final(self).wf(),
            final(self).segment_lens() == old(self).segment_lens(),
            final(self)@ == spec_swap(old(self)@, a as int, b as int),
            !final(self).is_adjacent(),
            final(self).has_reflector() == old(self).has_reflector(),
            final(self).refs() == spec_swap(old(self).refs(), a as int, b as int),
            final(self).attached() == old(self).attached(),
    {
        self.inner.swap_shallow(a, b);
    }

    /// Writes the order left by a shallow merge onto the chained segments:
    /// afterwards the element chained `a`-th holds the value that position
    /// `a` held, and the positions are back in the order of chaining.
    pub fn superimpose_shallow_merge(&mut self)
        requires
            old(self).wf(),
            !old(self).is_adjacent(),
            old(self).has_reflector(),
            old(self)@.len() >= 2,
        ensures
            final(self).wf(),
            final(self).segment_lens() == old(self).segment_lens(),
            !final(self).is_adjacent(),
            final(self).has_reflector(),
            final(self)@ == old(self)@,
            final(self).refs() == final(self).attached(),
            final(self).attached().len() == old(self).attached().len(),
            forall|x: int| 0 <= x < old(self).attached().len() ==> *final(#[trigger] final(self).attached()[x]) == *final(old(self).attached()[x]),
    {
        self.inner.superimpose_shallow_merge();
    }
}

impl<'a, T: Copy + Ord> VirtualSlice<'a, T> {
    /// Chains `s` and merges it into the ordered contents, writing through to
    /// the segments; returns the inversions resolved.
    pub fn merge(&mut self, s: &'a mut [T]) -> (inv: usize)
        requires
            old(self).wf(),
            total_order::<T>(),
            merge_count(old(self)@, old(s)@) <= usize::MAX,
        ensures
            final(self).wf(),
            final(self).segment_lens() == old(self).segment_lens().push(old(s)@.len()),
            final(self)@ == merge_seq(old(self)@, old(s)@),
            inv == merge_count(old(self)@, old(s)@),
            final(self).is_adjacent() == old(self).is_adjacent(),
            final(self).has_reflector() == old(self).has_reflector(),
            final(self).attached().len() == old(self).attached().len() + old(s)@.len(),
            forall|x: int| 0 <= x < old(self).attached().len() ==> *final(#[trigger] final(self).attached()[x]) == *final(old(self).attached()[x]),
            final(s)@.len() == old(s)@.len(),
            forall|k: int| 0 <= k < old(s)@.len() ==> #[trigger] final(s)@[k] == *final(final(self).attached()[old(self).attached().len() + k]),
            final(self).refs().len() == old(self).refs().len() + old(s)@.len(),
            forall|k: int| 0 <= k < old(self).refs().len() ==> *final(#[trigger] final(self).refs()[k]) == *final(old(self).refs()[k]),
            forall|k: int| 0 <= k < old(s)@.len() ==> #[trigger] final(s)@[k] == *final(final(self).refs()[old(self).refs().len() + k]),
    {
        let ghost n = s@.len();
        proof {
            crate::seqs::lemma_merge_seq_len(self@, s@);
        }
        let inv = self.inner.merge(s);
        let ghost l0 = self.lens@;
        self.lens = Ghost(l0.push(n as nat));
        assert(self.lens@.drop_last() =~= l0);
        inv
    }

    /// Chains `s` and merges it by reordering the positions only, leaving
    /// the segments as they are; returns the inversions resolved.
    pub fn merge_shallow(&mut self, s: &'a mut [T]) -> (inv: usize)
        requires
            old(self).wf(),
            total_order::<T>(),
            !old(self).is_adjacent(),
            merge_count(old(self)@, old(s)@) <= usize::MAX,
        ensures
            final(self).wf(),
            final(self).segment_lens() == old(self).segment_lens().push(old(s)@.len()),
            final(self)@ == merge_seq(old(self)@, old(s)@),
            inv == merge_count(old(self)@, old(s)@),
            !final(self).is_adjacent(),
            final(self).has_reflector() == (old(self)@.len() > 0),
            final(self).attached().len() == old(self).attached().len() + old(s)@.len(),
            forall|x: int| 0 <= x < old(self).attached().len() ==> *final(#[trigger] final(self).attached()[x]) == *final(old(self).attached()[x]),
            final(s)@.len() == old(s)@.len(),
            forall|k: int| 0 <= k < old(s)@.len() ==> #[trigger] final(s)@[k] == *final(final(self).attached()[old(self).attached().len() + k]),
            forall|x: int| 0 <= x < old(self).attached().len() ==> *#[trigger] final(self).attached()[x] == *old(self).attached()[x],
            forall|k: int| 0 <= k < old(s)@.len() ==> *#[trigger] final(self).attached()[old(self).attached().len() + k] == old(s)@[k],
    {
        self.reflected = !self.inner.is_empty();
        let ghost n = s@.len();
        proof {
            crate::seqs::lemma_merge_seq_len(self@, s@);
        }
        let inv = self.inner.merge_lazy(s);
        let ghost l0 = self.lens@;
        self.lens = Ghost(l0.push(n as nat));
        assert(self.lens@.drop_last() =~= l0);
        inv
    }

    /// Merges the ordered parts before and after the pivot position `j`,
    /// writing through to the segments; returns the inversions resolved.
    /// A pivot at either end leaves the contents as they are.
    pub fn reorder_around_pivot(&mut self, j: usize) -> (inv: usize)
        requires
            old(self).wf(),
            total_order::<T>(),
            old(self)@.len() > 0,
            0 < j < old(self)@.len() ==> sorted(old(self)@.take(j as int)) && sorted(old(self)@.skip(j as int))
                && merge_count(old(self)@.take(j as int), old(self)@.skip(j as int)) <= usize::MAX,
        ensures
            final(self).wf(),
            final(self).segment_lens() == old(self).segment_lens(),
            0 < j < old(self)@.len() ==> final(self)@ == merge_seq(old(self)@.take(j as int), old(self)@.skip(j as int))
                && inv == merge_count(old(self)@.take(j as int), old(self)@.skip(j as int)),
            (j == 0 || j >= old(self)@.len()) ==> final(self)@ == old(self)@ && inv == 0,
            final(self).is_adjacent() == old(self).is_adjacent(),
            final(self).has_reflector() == old(self).has_reflector(),
            final(self).attached().len() == old(self).attached().len(),
            forall|x: int| 0 <= x < old(self).attached().len() ==> *final(#[trigger] final(self).attached()[x]) == *final(old(self).attached()[x]),
            final(self).refs().len() == old(self).refs().len(),
            forall|k: int| 0 <= k < old(self).refs().len() ==> *final(#[trigger] final(self).refs()[k]) == *final(old(self).refs()[k]),
    {
        if j == 0 || j >= self.inner.len() {
            return 0;
        }
        proof {
            crate::seqs::lemma_merge_seq_len(self@.take(j as int), self@.skip(j as int));
        }
        self.inner.reorder(j, false)
    }
}

/// The lexicographic order of two sequences: the first position where they
/// differ decides, and a proper prefix comes first.
pub open spec fn lex_order<T: Ord>(a: Seq<T>, b: Seq<T>) -> Ordering
    decreases a.len(),
{
    if a.len() == 0 {
        if b.len() == 0 { Ordering::Equal } else { Ordering::Less }
    } else if b.len() == 0 {
        Ordering::Greater
    } else if a[0] != b[0] {
        if leq(a[0], b[0]) { Ordering::Less } else { Ordering::Greater }
    } else {
        lex_order(a.drop_first(), b.drop_first())
    }
}

impl<'a, T: Ord> VirtualSlice<'a, T> {
    /// Whether two virtual slices hold the same values, position by
    /// position.  Both must be adjacent, or neither.
    pub fn eq(&self, other: &Self) -> (b: bool)
        requires
            total_order::<T>(),
            self.is_adjacent() == other.is_adjacent(),
        ensures
            b == (self@ == other@),
    {
        if self.len() != other.len() {
            return false;
        }
        let n = self.len();
        let mut k: usize = 0;
        while k < n
            invariant
                total_order::<T>(),
                k <= n,
                n == self@.len(),
                n == other@.len(),
                forall|q: int| 0 <= q < k ==> self@[q] == other@[q],
            decreases n - k,
        {
            if !is_equal(self.get(k), other.get(k)) {
                return false;
            }
            k = k + 1;
        }
        assert(self@ =~= other@);
        true
    }

    /// The first position where the two virtual slices hold different
    /// values, or the length of the shorter one.
    fn mismatch(&self, other: &Self) -> (r: (usize, Ghost<int>))
        requires
            total_order::<T>(),
        ensures
            r.1@ == r.0 as int,
            r.0 <= self@.len(),
            r.0 <= other@.len(),
            forall|q: int| 0 <= q < r.0 ==> self@[q] == other@[q],
            r.0 < self@.len() && r.0 < other@.len() ==> self@[r.0 as int] != other@[r.0 as int],
    {
        let n = self.len();
        let m = other.len();
        let mut k: usize = 0;
        while k < n && k < m
            invariant
                total_order::<T>(),
                k <= n,
                k <= m,
                n == self@.len(),
                m == other@.len(),
                forall|q: int| 0 <= q < k ==> self@[q] == other@[q],
            decreases n - k,
        {
            if !is_equal(self.get(k), other.get(k)) {
                return (k, Ghost(k as int));
            }
            k = k + 1;
        }
        (k, Ghost(k as int))
    }

    /// Compares two virtual slices in lexicographic order of their values.
    /// Both must be adjacent, or neither.
    pub fn partial_cmp(&self, other: &Self) -> (r: Option<Ordering>)
        requires
            total_order::<T>(),
            self.is_adjacent() == other.is_adjacent(),
        ensures
            r == Some(lex_order(self@, other@)),
    {
        let n = self.len();
        let m = other.len();
        let (k, Ghost(ki)) = self.mismatch(other);
        proof {
            lemma_lex_at(self@, other@, ki);
        }
        if k < n && k < m {
            if is_greater(self.get(k), other.get(k)) {
                Some(Ordering::Greater)
            } else {
                Some(Ordering::Less)
            }
        } else if k < n {
            Some(Ordering::Greater)
        } else if k < m {
            Some(Ordering::Less)
        } else {
            Some(Ordering::Equal)
        }
    }
}

/// Two sequences that agree before position `k` compare as they do at `k`.
pub proof fn lemma_lex_at<T: Ord>(a: Seq<T>, b: Seq<T>, k: int)
    requires
        0 <= k <= a.len(),
        k <= b.len(),
        forall|q: int| 0 <= q < k ==> a[q] == b[q],
        k < a.len() && k < b.len() ==> a[k] != b[k],
    ensures
        lex_order(a, b) == if k < a.len() && k < b.len() {
            if leq(a[k], b[k]) { Ordering::Less } else { Ordering::Greater }
        } else if k < a.len() {
            Ordering::Greater
        } else if k < b.len() {
            Ordering::Less
        } else {
            Ordering::Equal
        },
    decreases k,
{
    if k > 0 {
        assert(a[0] == b[0]);
        lemma_lex_at(a.drop_first(), b.drop_first(), k - 1);
    }
}

impl<'a, T> Default for VirtualSlice<'a, T> {
    /// An empty virtual slice, as `new` makes.
    fn default() -> (v: Self)
        ensures
            v@ == Seq::<T>::empty(),
            v.attached() == Seq::<&'a mut T>::empty(),
            v.refs() == Seq::<&'a mut T>::empty(),
            v.segment_lens() == Seq::<nat>::empty(),
            !v.is_adjacent(),
            !v.has_reflector(),
            v.wf(),
    {
        Self::new()
    }
}

} // verus!
