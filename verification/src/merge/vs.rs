//! A `VirtualSlice` joins several mutable slice segments into one continuous
//! sequence of positions, so that algorithms can read, swap and merge across
//! the segments while every write lands in the segment it belongs to.
use vstd::prelude::*;
use crate::order::{leq, total_order, lemma_total_order, is_greater};
use crate::seqs::{merge_seq, merge_count, spec_swap};

verus! {

/// Several mutable slice segments seen as one continuous slice.
///
/// Position `k` refers to the `k`-th element attached, in attachment order,
/// until a shallow swap reorders the positions themselves.  A virtual slice
/// made with `new_adjacent` accepts only deep operations (those that move
/// values between the segments); one made with `new` also accepts the
/// shallow ones (those that only reorder its positions).
///
/// `order[k]` is the attachment index of the element at position `k`, and
/// `place[a]` the position of the element attached `a`-th, so that the
/// attachment order can be restored after shallow operations.
pub struct VirtualSlice<'a, T> {
    refs: Vec<&'a mut T>,
    order: Vec<usize>,
    place: Vec<usize>,
    home: Ghost<Seq<&'a mut T>>,
    adjacent: bool,
}

impl<'a, T> View for VirtualSlice<'a, T> {
    type V = Seq<T>;

    /// The current values at each position.
    closed spec fn view(&self) -> Seq<T> {
        Seq::new(self.refs@.len(), |i: int| *self.refs@[i])
    }
}

impl<'a, T> VirtualSlice<'a, T> {
    /// The references held, one per position.
    pub closed spec fn refs(&self) -> Seq<&'a mut T> {
        self.refs@
    }

    /// The references held, in the order their elements were attached.
    pub closed spec fn attached(&self) -> Seq<&'a mut T> {
        self.home@
    }

    /// For each position, the attachment index of the element it refers to.
    pub closed spec fn order(&self) -> Seq<usize> {
        self.order@
    }

    /// Made with `new_adjacent`: shallow operations are not available.
    pub closed spec fn is_adjacent(&self) -> bool {
        self.adjacent
    }

    /// The positions are a permutation of the attached elements, and
    /// `order` and `place` record it in both directions.
    pub closed spec fn wf(&self) -> bool {
        let n = self.refs@.len();
        &&& self.order@.len() == n
        &&& self.place@.len() == n
        &&& self.home@.len() == n
        &&& forall|k: int| 0 <= k < n ==> #[trigger] self.order@[k] < n
            && self.place@[self.order@[k] as int] == k
            && self.refs@[k] == self.home@[self.order@[k] as int]
        &&& forall|a: int| 0 <= a < n ==> #[trigger] self.place@[a] < n
            && self.order@[self.place@[a] as int] == a
    }

    /// A well-formed virtual slice has one attached element per position.
    pub proof fn lemma_wf(&self)
        requires
            self.wf(),
        ensures
            self.attached().len() == self.refs().len(),
            self.order().len() == self.refs().len(),
    {
    }

    /// Create a new VirtualSlice for use with non-adjacent slice segments
    pub fn new(length: usize) -> (vs: VirtualSlice<'a, T>)
        ensures
            vs@ == Seq::<T>::empty(),
            vs.refs() == Seq::<&'a mut T>::empty(),
            vs.attached() == Seq::<&'a mut T>::empty(),
            !vs.is_adjacent(),
            vs.wf(),
    {
        let refs: Vec<&'a mut T> = Vec::with_capacity(length);
        let vs = VirtualSlice {
            refs,
            order: Vec::with_capacity(length),
            place: Vec::with_capacity(length),
            home: Ghost(Seq::empty()),
            adjacent: false,
        };
        assert(vs@ =~= Seq::<T>::empty());
        vs
    }

    /// Create a new VirtualSlice for use with adjacent slice segments
    pub fn new_adjacent(s: &'a mut [T]) -> (vs: VirtualSlice<'a, T>)
        ensures
            vs@ == old(s)@,
            vs.is_adjacent(),
            vs.refs().len() == old(s)@.len(),
            vs.attached() == vs.refs(),
            vs.wf(),
            final(s)@.len() == old(s)@.len(),
            forall|i: int| 0 <= i < old(s)@.len() ==> #[trigger] final(s)@[i] == *final(vs.refs()[i]),
    {
        let mut vs = VirtualSlice {
            refs: Vec::new(),
            order: Vec::new(),
            place: Vec::new(),
            home: Ghost(Seq::empty()),
            adjacent: true,
        };
        assert(vs@ =~= Seq::<T>::empty());
        vs.attach(s);
        assert(vs@ =~= old(s)@);
        vs
    }

    /// Current length of the VirtualSlice is equal to sum of all attached slice segments
    pub fn len(&self) -> (n: usize)
        ensures
            n == self@.len(),
    {
        self.refs.len()
    }

    /// Whether no element has been attached
    pub fn is_empty(&self) -> (b: bool)
        ensures
            b == (self@.len() == 0),
    {
        self.refs.len() == 0
    }

    /// The current value at a position
    pub fn get(&self, index: usize) -> (r: &T)
        requires
            index < self@.len(),
        ensures
            *r == self@[index as int],
    {
        &*self.refs[index]
    }

    /// Attach a slice segment onto the VirtualSlice
    pub fn attach(&mut self, s: &'a mut [T])
        requires
            old(self).wf(),
        ensures
            final(self).wf(),
            final(self)@ == old(self)@ + old(s)@,
            final(self).is_adjacent() == old(self).is_adjacent(),
            final(self).refs().len() == old(self).refs().len() + old(s)@.len(),
            forall|i: int| 0 <= i < old(self).refs().len() ==> #[trigger] final(self).refs()[i] == old(self).refs()[i],
            final(self).attached() == old(self).attached() + final(self).refs().subrange(old(self).refs().len() as int, final(self).refs().len() as int),
            final(s)@.len() == old(s)@.len(),
            forall|i: int| 0 <= i < old(s)@.len() ==> #[trigger] final(s)@[i] == *final(final(self).refs()[old(self).refs().len() + i]),
    {
        let ghost n0 = self.refs@.len();
        let ghost c0 = self@;
        let ghost v0 = self.refs@;
        let mut rest = s;
        let ghost s0 = rest@;
        while rest.len() > 0
            invariant
                n0 <= self.refs@.len(),
                self.refs@.len() - n0 <= s0.len(),
                c0.len() == n0,
                v0.len() == n0,
                self.adjacent == old(self).adjacent,
                self.order@ == old(self).order@,
                self.place@ == old(self).place@,
                self.home@ == old(self).home@,
                self@ == c0 + s0.take(self.refs@.len() - n0),
                rest@ == s0.skip(self.refs@.len() - n0),
                forall|i: int| 0 <= i < n0 ==> #[trigger] self.refs@[i] == v0[i],
                final(s)@.len() == (self.refs@.len() - n0) + final(rest)@.len(),
                forall|i: int| 0 <= i < self.refs@.len() - n0 ==> #[trigger] final(s)@[i] == *final(self.refs@[n0 + i]),
                forall|i: int| 0 <= i < final(rest)@.len() ==> final(s)@[self.refs@.len() - n0 + i] == #[trigger] final(rest)@[i],
            decreases rest.len(),
        {
            let ghost k = self.refs@.len() - n0;
            let ghost oldv = self.refs@;
            let ghost oldcur = self@;
            let ghost fr = final(rest)@;
            let ghost fs = final(s)@;
            assert(forall|i: int| 0 <= i < k ==> #[trigger] fs[i] == *final(self.refs@[n0 + i]));
            let (h, t) = rest.split_at_mut(1);
            let ghost fh = final(h)@;
            let ghost ft = final(t)@;
            let e = h.first_mut().unwrap();
            let ghost ev = *e;
            let ghost fe = *final(e);
            assert(fh[0] == fe);
            assert(fr == fh + ft);
            assert(fs[k] == fr[0]);
            assert(ev == s0[k]);
            self.refs.push(e);
            assert(*self.refs@[n0 + k] == ev);
            assert(*final(self.refs@[n0 + k]) == fe);
            rest = t;
            proof {
                assert(self.refs@.len() == oldv.len() + 1);
                assert(forall|i: int| 0 <= i < oldv.len() ==> self.refs@[i] == oldv[i]);
                assert(s0.take(k + 1) == s0.take(k).push(s0[k]));
                assert forall|i: int| 0 <= i < self.refs@.len() implies #[trigger] self@[i] == (c0 + s0.take(self.refs@.len() - n0))[i] by {
                    if i < oldv.len() {
                        assert(self.refs@[i] == oldv[i]);
                        assert(self@[i] == oldcur[i]);
                    }
                }
                assert(self@ =~= c0 + s0.take(self.refs@.len() - n0));
                assert forall|i: int| 0 <= i < self.refs@.len() - n0 implies #[trigger] final(s)@[i] == *final(self.refs@[n0 + i]) by {
                    if i < k {
                        assert(self.refs@[n0 + i] == oldv[n0 + i]);
                        assert(fs[i] == *final(oldv[n0 + i]));
                    } else {
                        assert(i == k);
                        assert(fs[k] == fe);
                    }
                }
                assert(rest@ =~= s0.skip(self.refs@.len() - n0));
                assert forall|i: int| 0 <= i < ft.len() implies fs[self.refs@.len() - n0 + i] == #[trigger] ft[i] by {
                    assert(fr[1 + i] == ft[i]);
                }
            }
        }
        proof {
            assert(has_resolved(rest));
            assert(s0.take(s0.len() as int) =~= s0);
        }
        // the new positions hold the new elements in attachment order
        let ghost r1 = self.refs@;
        let n1 = self.refs.len();
        let mut k = self.order.len();
        while k < n1
            invariant
                n0 <= k <= n1,
                n1 == r1.len(),
                self.refs@ == r1,
                self.adjacent == old(self).adjacent,
                self.home@ == old(self).home@,
                self.order@.len() == k,
                self.place@.len() == k,
                forall|x: int| 0 <= x < n0 ==> #[trigger] self.order@[x] == old(self).order@[x],
                forall|x: int| 0 <= x < n0 ==> #[trigger] self.place@[x] == old(self).place@[x],
                forall|x: int| n0 <= x < k ==> #[trigger] self.order@[x] == x,
                forall|x: int| n0 <= x < k ==> #[trigger] self.place@[x] == x,
            decreases n1 - k,
        {
            self.order.push(k);
            self.place.push(k);
            k = k + 1;
        }
        self.home = Ghost(self.home@ + self.refs@.subrange(n0 as int, n1 as int));
        proof {
            assert forall|x: int| 0 <= x < n1 implies #[trigger] self.order@[x] < n1
                && self.place@[self.order@[x] as int] == x
                && self.refs@[x] == self.home@[self.order@[x] as int] by {
                if x < n0 {
                    assert(self.refs@[x] == v0[x]);
                }
            }
        }
    }
}


impl<'a, T: Copy> VirtualSlice<'a, T> {
    /// Deep swap; exchanges the values at two positions, writing through to
    /// the underlying slice segments.  Works for adjacent and non-adjacent
    /// virtual slices.
    pub fn swap(&mut self, a: usize, b: usize)
        requires
            old(self).wf(),
            a < old(self)@.len(),
            b < old(self)@.len(),
        ensures
            final(self).wf(),
            final(self)@ == spec_swap(old(self)@, a as int, b as int),
            final(self).is_adjacent() == old(self).is_adjacent(),
            final(self).refs().len() == old(self).refs().len(),
            forall|k: int| 0 <= k < old(self).refs().len() ==> *final(#[trigger] final(self).refs()[k]) == *final(old(self).refs()[k]),
            final(self).attached().len() == old(self).attached().len(),
            forall|x: int| 0 <= x < old(self).attached().len() ==> *final(#[trigger] final(self).attached()[x]) == *final(old(self).attached()[x]),
    {
        if a == b {
            assert(spec_swap(self@, a as int, b as int) =~= self@);
            return;
        }
        let ghost v0 = self.refs@;
        let x = *self.refs[a];
        let y = *self.refs[b];
        let ra = &mut self.refs[a];
        **ra = y;
        let rb = &mut self.refs[b];
        **rb = x;
        assert(self@ =~= spec_swap(old(self)@, a as int, b as int));
        let ghost oa = self.order@[a as int] as int;
        let ghost ob = self.order@[b as int] as int;
        assert(oa != ob) by {
            assert(self.place@[oa] == a && self.place@[ob] == b);
        }
        self.home = Ghost(self.home@.update(oa, self.refs@[a as int]).update(ob, self.refs@[b as int]));
        proof {
            assert forall|k: int| 0 <= k < v0.len() implies #[trigger] self.order@[k] < v0.len()
                && self.place@[self.order@[k] as int] == k
                && self.refs@[k] == self.home@[self.order@[k] as int] by {
                if k != a && k != b {
                    assert(self.order@[k] != oa) by {
                        assert(self.place@[oa] == a);
                    }
                    assert(self.order@[k] != ob) by {
                        assert(self.place@[ob] == b);
                    }
                }
            }
            assert forall|x: int| 0 <= x < v0.len() implies *final(#[trigger] self.home@[x]) == *final(old(self).home@[x]) by {
                if x == oa {
                    assert(old(self).refs@[a as int] == old(self).home@[oa]);
                } else if x == ob {
                    assert(old(self).refs@[b as int] == old(self).home@[ob]);
                }
            }
        }
    }

    /// Shallow swap; exchanges the two positions themselves, so the slice
    /// segments are left as they are.  Only for non-adjacent virtual slices.
    pub fn swap_shallow(&mut self, a: usize, b: usize)
        requires
            old(self).wf(),
            !old(self).is_adjacent(),
            a < old(self)@.len(),
            b < old(self)@.len(),
        ensures
            final(self)@ == spec_swap(old(self)@, a as int, b as int),
            !final(self).is_adjacent(),
            final(self).refs() == spec_swap(old(self).refs(), a as int, b as int),
            final(self).attached() == old(self).attached(),
            final(self).order() == spec_swap(old(self).order(), a as int, b as int),
            final(self).wf(),
    {
        if a == b {
            assert(spec_swap(self@, a as int, b as int) =~= self@);
            assert(spec_swap(self.refs@, a as int, b as int) =~= self.refs@);
            assert(spec_swap(self.order@, a as int, b as int) =~= self.order@);
            return;
        }
        let (lo, hi) = if a < b { (a, b) } else { (b, a) };
        let ghost v0 = self.refs@;
        let sl = self.refs.as_mut_slice();
        let (left, right) = sl.split_at_mut(hi);
        let (_, mid) = left.split_at_mut(lo);
        let x = mid.first_mut().unwrap();
        let y = right.first_mut().unwrap();
        std::mem::swap(x, y);
        assert(self.refs@ =~= spec_swap(v0, a as int, b as int));
        assert(self@ =~= spec_swap(old(self)@, a as int, b as int));
        let oa = self.order[a];
        let ob = self.order[b];
        self.order.set(a, ob);
        self.order.set(b, oa);
        self.place.set(oa, b);
        self.place.set(ob, a);
        assert(self.order@ =~= spec_swap(old(self).order@, a as int, b as int));
        proof {
            assert(oa != ob) by {
                assert(old(self).place@[oa as int] == a && old(self).place@[ob as int] == b);
            }
            let n = v0.len();
            assert forall|k: int| 0 <= k < n implies #[trigger] self.order@[k] < n
                && self.place@[self.order@[k] as int] == k
                && self.refs@[k] == self.home@[self.order@[k] as int] by {
                if k != a && k != b {
                    assert(old(self).order@[k] != oa) by {
                        assert(old(self).place@[oa as int] == a);
                    }
                    assert(old(self).order@[k] != ob) by {
                        assert(old(self).place@[ob as int] == b);
                    }
                }
            }
            assert forall|x: int| 0 <= x < n implies #[trigger] self.place@[x] < n
                && self.order@[self.place@[x] as int] == x by {
                if x != oa && x != ob {
                    assert(old(self).place@[x] != a) by {
                        assert(old(self).order@[a as int] == oa);
                    }
                    assert(old(self).place@[x] != b) by {
                        assert(old(self).order@[b as int] == ob);
                    }
                }
            }
        }
    }
}


impl<'a, T: Copy> VirtualSlice<'a, T> {
    /// Deep write; stores a value at a position, writing through to the
    /// slice segment the position refers to.
    pub fn set(&mut self, k: usize, v: T)
        requires
            old(self).wf(),
            k < old(self)@.len(),
        ensures
            final(self).wf(),
            final(self)@ == old(self)@.update(k as int, v),
            final(self).is_adjacent() == old(self).is_adjacent(),
            final(self).order() == old(self).order(),
            final(self).refs().len() == old(self).refs().len(),
            forall|j: int| 0 <= j < old(self).refs().len() ==> *final(#[trigger] final(self).refs()[j]) == *final(old(self).refs()[j]),
            final(self).attached().len() == old(self).attached().len(),
            forall|x: int| 0 <= x < old(self).attached().len() ==> *final(#[trigger] final(self).attached()[x]) == *final(old(self).attached()[x]),
    {
        let ghost v0 = self.refs@;
        let r = &mut self.refs[k];
        **r = v;
        assert(self@ =~= old(self)@.update(k as int, v));
        let ghost o = self.order@[k as int] as int;
        self.home = Ghost(self.home@.update(o, self.refs@[k as int]));
        proof {
            assert forall|q: int| 0 <= q < v0.len() implies #[trigger] self.order@[q] < v0.len()
                && self.place@[self.order@[q] as int] == q
                && self.refs@[q] == self.home@[self.order@[q] as int] by {
                if q != k {
                    assert(self.order@[q] != o) by {
                        assert(self.place@[o] == k);
                    }
                }
            }
            assert forall|x: int| 0 <= x < v0.len() implies *final(#[trigger] self.home@[x]) == *final(old(self).home@[x]) by {
                if x == o {
                    assert(old(self).refs@[k as int] == old(self).home@[o]);
                }
            }
        }
    }

    /// Writes the order of the positions onto the attached slice segments:
    /// afterwards the element attached `a`-th holds the value that position
    /// `a` held, and the positions are back in attachment order.  Only for
    /// non-adjacent virtual slices.
    pub fn superimpose_shallow_merge(&mut self)
        requires
            old(self).wf(),
            !old(self).is_adjacent(),
        ensures
            final(self).wf(),
            !final(self).is_adjacent(),
            final(self)@ == old(self)@,
            final(self).refs() == final(self).attached(),
            final(self).attached().len() == old(self).attached().len(),
            forall|x: int| 0 <= x < old(self).attached().len() ==> *final(#[trigger] final(self).attached()[x]) == *final(old(self).attached()[x]),
    {
        let n = self.len();
        let ghost v0 = self@;
        let ghost att = self.home@;
        // keep the values in the order of the positions
        let mut vals: Vec<T> = Vec::with_capacity(n);
        let mut k: usize = 0;
        while k < n
            invariant
                k <= n,
                n == v0.len(),
                self@ == v0,
                vals@ == v0.take(k as int),
            decreases n - k,
        {
            vals.push(*self.get(k));
            k = k + 1;
            assert(vals@ =~= v0.take(k as int));
        }
        assert(vals@ =~= v0);
        // bring the positions back into attachment order
        let mut a: usize = 0;
        while a < n
            invariant
                self.wf(),
                !self.is_adjacent(),
                a <= n,
                n == self.refs@.len(),
                self.home@ == att,
                forall|b: int| 0 <= b < a ==> #[trigger] self.order@[b] == b,
            decreases n - a,
        {
            let k = self.place[a];
            assert(k >= a) by {
                if k < a {
                    assert(self.order@[k as int] == k);
                    assert(self.order@[self.place@[a as int] as int] == a);
                }
            }
            if k != a {
                self.swap_shallow(a, k);
            }
            a = a + 1;
        }
        // write the values back in that order
        let mut a: usize = 0;
        while a < n
            invariant
                self.wf(),
                !self.is_adjacent(),
                a <= n,
                n == self.refs@.len(),
                n == v0.len(),
                vals@ == v0,
                forall|b: int| 0 <= b < n ==> #[trigger] self.order@[b] == b,
                forall|b: int| 0 <= b < a ==> #[trigger] self@[b] == v0[b],
                self.home@.len() == att.len(),
                forall|x: int| 0 <= x < att.len() ==> *final(#[trigger] self.home@[x]) == *final(att[x]),
            decreases n - a,
        {
            self.set(a, vals[a]);
            a = a + 1;
        }
        proof {
            assert(self@ =~= v0);
            assert forall|b: int| 0 <= b < n implies #[trigger] self.refs@[b] == self.home@[b] by {
                assert(self.order@[b] == b);
            }
            assert(self.refs@ =~= self.home@);
        }
    }
}

impl<'a, T: Copy + Ord> VirtualSlice<'a, T> {
    /// Swap two positions deeply or shallowly.
    fn swap_by(&mut self, a: usize, b: usize, shallow: bool)
        requires
            old(self).wf(),
            a < old(self)@.len(),
            b < old(self)@.len(),
            shallow ==> !old(self).is_adjacent(),
        ensures
            final(self).wf(),
            final(self).attached().len() == old(self).attached().len(),
            forall|x: int| 0 <= x < old(self).attached().len() ==> *final(#[trigger] final(self).attached()[x]) == *final(old(self).attached()[x]),
            final(self)@ == spec_swap(old(self)@, a as int, b as int),
            final(self).is_adjacent() == old(self).is_adjacent(),
            final(self).refs().len() == old(self).refs().len(),
            !shallow ==> forall|k: int| 0 <= k < old(self).refs().len() ==> *final(#[trigger] final(self).refs()[k]) == *final(old(self).refs()[k]),
            shallow ==> final(self).attached() == old(self).attached(),
    {
        if shallow {
            self.swap_shallow(a, b);
        } else {
            self.swap(a, b);
        }
    }

    /// Merge Self with another slice using in-place swaps: after the call the
    /// positions hold the two-way merge of the previous contents with `s`.
    fn _merge(&mut self, s: &'a mut [T], shallow: bool) -> (inv: usize)
        requires
            old(self).wf(),
            total_order::<T>(),
            shallow ==> !old(self).is_adjacent(),
            merge_count(old(self)@, old(s)@) <= usize::MAX,
        ensures
            final(self).wf(),
            final(self)@ == merge_seq(old(self)@, old(s)@),
            inv == merge_count(old(self)@, old(s)@),
            final(self).is_adjacent() == old(self).is_adjacent(),
            final(self).refs().len() == old(self).refs().len() + old(s)@.len(),
            final(s)@.len() == old(s)@.len(),
            !shallow ==> forall|k: int| 0 <= k < old(self).refs().len() ==> *final(#[trigger] final(self).refs()[k]) == *final(old(self).refs()[k]),
            !shallow ==> forall|k: int| 0 <= k < old(s)@.len() ==> #[trigger] final(s)@[k] == *final(final(self).refs()[old(self).refs().len() + k]),
            final(self).attached().len() == old(self).attached().len() + old(s)@.len(),
            forall|x: int| 0 <= x < old(self).attached().len() ==> *final(#[trigger] final(self).attached()[x]) == *final(old(self).attached()[x]),
            forall|k: int| 0 <= k < old(s)@.len() ==> #[trigger] final(s)@[k] == *final(final(self).attached()[old(self).attached().len() + k]),
            shallow ==> forall|x: int| 0 <= x < old(self).attached().len() ==> *#[trigger] final(self).attached()[x] == *old(self).attached()[x],
            shallow ==> forall|k: int| 0 <= k < old(s)@.len() ==> *#[trigger] final(self).attached()[old(self).attached().len() + k] == old(s)@[k],
    {
        let ghost lseq = self@;
        let ghost rseq = s@;
        let ghost fs = final(s)@;
        let ghost a0 = self.home@;
        if self.is_empty() {
            self.attach(s);
            assert(lseq.len() == 0);
            assert(self@ =~= rseq);
            return 0;
        }
        // j = position of the first item attached from s
        let j = self.len();
        // attach slice to be merged with self
        self.attach(s);
        let ghost a1 = self.home@;
        let ghost r1 = self.refs@;
        assert(self@.take(j as int) =~= lseq);
        assert(self@.skip(j as int) =~= rseq);
        proof {
            assert forall|k: int| 0 <= k < rseq.len() implies *#[trigger] a1[a0.len() + k] == rseq[k] by {
                assert(a1[j + k] == r1[j + k]);
                assert(self@[j + k] == rseq[k]);
            }
        }
        let inv = self.reorder(j, shallow);
        proof {
            assert forall|k: int| 0 <= k < rseq.len() implies #[trigger] fs[k] == *final(self.home@[a0.len() + k]) by {
                assert(a1[j + k] == r1[j + k]);
            }
        }
        inv
    }

    /// Merges the two ordered parts of the virtual slice, positions `[0, j)`
    /// and `[j, len)`, using in-place swaps; returns the inversions resolved.
    ///
    /// The positions `[0, i)` hold the merged output so far, the right part
    /// not yet merged stays in order at `[j, len)`, and the left items not yet
    /// merged sit, in some order, at `[i, j)`.  The index reflector tracks
    /// them: for a left item `k` not yet merged, `idx_rfl[k]` is its current
    /// position; for a position `x >= p` that holds a left item,
    /// `idx_rfl[x]` is that item's index; positions in `[i, p)` still hold
    /// their own left item.
    #[verifier::rlimit(100)]
    pub(crate) fn reorder(&mut self, pivot: usize, shallow: bool) -> (inv: usize)
        requires
            old(self).wf(),
            total_order::<T>(),
            shallow ==> !old(self).is_adjacent(),
            0 < pivot <= old(self)@.len(),
            merge_count(old(self)@.take(pivot as int), old(self)@.skip(pivot as int)) <= usize::MAX,
        ensures
            final(self).wf(),
            final(self)@ == merge_seq(old(self)@.take(pivot as int), old(self)@.skip(pivot as int)),
            inv == merge_count(old(self)@.take(pivot as int), old(self)@.skip(pivot as int)),
            final(self).is_adjacent() == old(self).is_adjacent(),
            final(self).refs().len() == old(self).refs().len(),
            final(self).attached().len() == old(self).attached().len(),
            forall|x: int| 0 <= x < old(self).attached().len() ==> *final(#[trigger] final(self).attached()[x]) == *final(old(self).attached()[x]),
            !shallow ==> forall|k: int| 0 <= k < old(self).refs().len() ==> *final(#[trigger] final(self).refs()[k]) == *final(old(self).refs()[k]),
            shallow ==> final(self).attached() == old(self).attached(),
    {
        proof {
            lemma_total_order::<T>();
        }
        let ghost lseq = self@.take(pivot as int);
        let ghost rseq = self@.skip(pivot as int);
        let ghost mid = self.refs@;
        let ghost att = self.home@;
        // j = position of the next right item within the working slice
        let mut j = pivot;
        // p = number of left items; ws_len = working slice's length
        let p = j;
        let ws_len = self.len();
        let mut inv_count: usize = 0;
        let mut c: usize = 0;
        let mut i: usize = 0;
        let mut idx_rfl: Vec<usize> = Vec::with_capacity(ws_len);
        let mut k: usize = 0;
        while k < ws_len
            invariant
                k <= ws_len,
                idx_rfl@.len() == k,
                forall|x: int| 0 <= x < k ==> #[trigger] idx_rfl@[x] == x,
            decreases ws_len - k,
        {
            idx_rfl.push(k);
            k = k + 1;
        }
        assert(rseq.skip(0) =~= rseq);
        assert(lseq.skip(0) =~= lseq);
        assert(self@.subrange(0, 0) =~= Seq::<T>::empty());
        assert(self@.subrange(p as int, ws_len as int) =~= rseq);
        loop
            invariant
                total_order::<T>(),
                shallow ==> !self.is_adjacent(),
                self.is_adjacent() == old(self).is_adjacent(),
                self.wf(),
                self.attached().len() == att.len(),
                forall|x: int| 0 <= x < att.len() ==> *final(#[trigger] self.attached()[x]) == *final(att[x]),
                p == lseq.len(),
                ws_len == p + rseq.len(),
                self@.len() == ws_len,
                self.refs().len() == ws_len,
                mid.len() == ws_len,
                idx_rfl@.len() == ws_len,
                c < p,
                c <= i,
                i < j <= ws_len,
                j - i == p - c,
                self@.subrange(0, i as int) + merge_seq(lseq.skip(c as int), rseq.skip(j - p)) == merge_seq(lseq, rseq),
                inv_count + merge_count(lseq.skip(c as int), rseq.skip(j - p)) == merge_count(lseq, rseq),
                merge_count(lseq, rseq) <= usize::MAX,
                self@.subrange(j as int, ws_len as int) == rseq.skip(j - p),
                // where the left items not yet merged are
                forall|q: int| c <= q < p ==> i <= #[trigger] idx_rfl@[q] < j && self@[idx_rfl@[q] as int] == lseq[q],
                forall|q: int| c <= q < p ==> (#[trigger] idx_rfl@[q] < p ==> idx_rfl@[q] == q) && (idx_rfl@[q] >= p ==> idx_rfl@[idx_rfl@[q] as int] == q),
                forall|x: int| i <= x < p ==> #[trigger] idx_rfl@[x] == x,
                forall|x: int| p <= x < j && i <= x ==> c <= #[trigger] idx_rfl@[x] < p && idx_rfl@[idx_rfl@[x] as int] == x,
                !shallow ==> forall|q: int| 0 <= q < ws_len ==> *final(#[trigger] self.refs()[q]) == *final(mid[q]),
                shallow ==> self.attached() == att,
            ensures
                self.wf(),
                self.attached().len() == att.len(),
                forall|x: int| 0 <= x < att.len() ==> *final(#[trigger] self.attached()[x]) == *final(att[x]),
                self@ == merge_seq(lseq, rseq),
                inv_count == merge_count(lseq, rseq),
                self.is_adjacent() == old(self).is_adjacent(),
                self.refs().len() == ws_len,
                !shallow ==> forall|q: int| 0 <= q < ws_len ==> *final(#[trigger] self.refs()[q]) == *final(mid[q]),
                shallow ==> self.attached() == att,
            decreases ws_len - i,
        {
            let ghost w0 = self@;
            let ghost r0 = idx_rfl@;
            let ghost lrest = lseq.skip(c as int);
            let ghost rrest = rseq.skip(j - p);
            assert(lrest[0] == lseq[c as int]);
            // translate index_reflector[c] --> position c' of the left item c
            let cc = idx_rfl[c];
            // translate index_reflector[i] --> the left item i' at position i
            let ii = idx_rfl[i];
            assert(c <= ii < p && idx_rfl@[ii as int] == i) by {
                if i < p {
                } else {
                }
            }
            assert(w0[cc as int] == lseq[c as int]);
            assert(j < ws_len ==> w0[j as int] == rrest[0]) by {
                if j < ws_len {
                    assert(w0.subrange(j as int, ws_len as int)[0] == w0[j as int]);
                }
            }
            let take_right = if j < ws_len && i != j {
                is_greater(self.get(cc), self.get(j))
            } else {
                false
            };
            if take_right {
                // take the right item: it goes before every left item not yet merged
                assert(rrest[0] == w0[j as int]);
                assert(!leq(lrest[0], rrest[0]));
                assert(merge_seq(lrest, rrest) == seq![rrest[0]] + merge_seq(lrest, rrest.drop_first()));
                inv_count = inv_count + (j - i);
                self.swap_by(i, j, shallow);
                idx_rfl.set(ii, j);
                idx_rfl.set(j, ii);
                j = j + 1;
                proof {
                    assert(rseq.skip(j - p) =~= rrest.drop_first());
                    assert(self@.subrange(0, i + 1) =~= w0.subrange(0, i as int).push(rrest[0]));
                    assert(self@.subrange(0, i + 1) + merge_seq(lrest, rrest.drop_first())
                        =~= w0.subrange(0, i as int) + merge_seq(lrest, rrest));
                    assert(self@.subrange(j as int, ws_len as int) =~= rseq.skip(j - p));
                }
            } else if i < ws_len - 1 && c < p - 1 {
                // take the left item c
                assert(rrest.len() != 0 ==> leq(lrest[0], rrest[0]));
                assert(merge_seq(lrest, rrest) == seq![lrest[0]] + merge_seq(lrest.drop_first(), rrest)) by {
                    if rrest.len() == 0 {
                        assert(lrest =~= seq![lrest[0]] + lrest.drop_first());
                    }
                }
                assert(merge_count(lrest, rrest) == merge_count(lrest.drop_first(), rrest));
                if i != cc {
                    self.swap_by(i, cc, shallow);
                    idx_rfl.set(cc, ii);
                    let t1 = idx_rfl[ii];
                    let t2 = idx_rfl[c];
                    idx_rfl.set(ii, t2);
                    idx_rfl.set(c, t1);
                }
                c = c + 1;
                proof {
                    assert(lseq.skip(c as int) =~= lrest.drop_first());
                    assert(self@.subrange(0, i + 1) =~= w0.subrange(0, i as int).push(lrest[0]));
                    assert(self@.subrange(0, i + 1) + merge_seq(lrest.drop_first(), rrest)
                        =~= w0.subrange(0, i as int) + merge_seq(lrest, rrest));
                    assert(self@.subrange(j as int, ws_len as int) =~= rseq.skip(j - p));
                }
            } else {
                // one left item remains and it is in its place
                assert(c == p - 1);
                assert(lrest =~= seq![w0[i as int]]);
                assert(merge_seq(lrest, rrest) == seq![lrest[0]] + rrest) by {
                    if rrest.len() != 0 {
                        assert(merge_seq(lrest.drop_first(), rrest) == rrest);
                    }
                }
                assert(merge_count(lrest, rrest) == 0) by {
                    if rrest.len() != 0 {
                        assert(merge_count(lrest.drop_first(), rrest) == 0);
                    }
                }
                assert(rrest.len() != 0 ==> leq(lrest[0], rrest[0]));
                assert(w0 =~= w0.subrange(0, i as int) + seq![w0[i as int]] + w0.subrange(j as int, ws_len as int));
                break;
            }
            // Move partition by one so that [merged partition] < ws[i] < [unmerged partition]
            i = i + 1;
        }
        inv_count
    }
}


impl<'a, T: Copy + Ord> VirtualSlice<'a, T> {
    /// Perform a deep merge by ordering the referred values hence mutating
    /// the slice segments; returns the inversions resolved.
    pub fn merge(&mut self, s: &'a mut [T]) -> (inv: usize)
        requires
            old(self).wf(),
            total_order::<T>(),
            merge_count(old(self)@, old(s)@) <= usize::MAX,
        ensures
            final(self).wf(),
            final(self).attached().len() == old(self).attached().len() + old(s)@.len(),
            forall|x: int| 0 <= x < old(self).attached().len() ==> *final(#[trigger] final(self).attached()[x]) == *final(old(self).attached()[x]),
            forall|k: int| 0 <= k < old(s)@.len() ==> #[trigger] final(s)@[k] == *final(final(self).attached()[old(self).attached().len() + k]),
            final(self)@ == merge_seq(old(self)@, old(s)@),
            inv == merge_count(old(self)@, old(s)@),
            final(self).is_adjacent() == old(self).is_adjacent(),
            final(self).refs().len() == old(self).refs().len() + old(s)@.len(),
            final(s)@.len() == old(s)@.len(),
            forall|k: int| 0 <= k < old(self).refs().len() ==> *final(#[trigger] final(self).refs()[k]) == *final(old(self).refs()[k]),
            forall|k: int| 0 <= k < old(s)@.len() ==> #[trigger] final(s)@[k] == *final(final(self).refs()[old(self).refs().len() + k]),
    {
        self._merge(s, false)
    }

    /// Perform a shallow merge by ordering the VirtualSlice's positions and
    /// not the referred values, so the slice segments are not written.
    /// Only for non-adjacent virtual slices.
    pub fn merge_lazy(&mut self, s: &'a mut [T]) -> (inv: usize)
        requires
            old(self).wf(),
            total_order::<T>(),
            !old(self).is_adjacent(),
            merge_count(old(self)@, old(s)@) <= usize::MAX,
        ensures
            final(self).wf(),
            final(self).attached().len() == old(self).attached().len() + old(s)@.len(),
            forall|x: int| 0 <= x < old(self).attached().len() ==> *final(#[trigger] final(self).attached()[x]) == *final(old(self).attached()[x]),
            forall|k: int| 0 <= k < old(s)@.len() ==> #[trigger] final(s)@[k] == *final(final(self).attached()[old(self).attached().len() + k]),
            final(self)@ == merge_seq(old(self)@, old(s)@),
            inv == merge_count(old(self)@, old(s)@),
            !final(self).is_adjacent(),
            final(self).refs().len() == old(self).refs().len() + old(s)@.len(),
            final(s)@.len() == old(s)@.len(),
            forall|x: int| 0 <= x < old(self).attached().len() ==> *#[trigger] final(self).attached()[x] == *old(self).attached()[x],
            forall|k: int| 0 <= k < old(s)@.len() ==> *#[trigger] final(self).attached()[old(self).attached().len() + k] == old(s)@[k],
    {
        self._merge(s, true)
    }
}

impl<'a, T> VirtualSlice<'a, T> {
    /// Once a virtual slice is no longer used, every segment element holds
    /// the value of the position that refers to it.
    pub proof fn lemma_resolved(&self)
        requires
            has_resolved(*self),
        ensures
            forall|k: int| 0 <= k < self.refs().len() ==> *final(#[trigger] self.refs()[k]) == self@[k],
    {
        assert(has_resolved(self.refs));
        assert forall|k: int| 0 <= k < self.refs().len() implies *final(#[trigger] self.refs()[k]) == self@[k] by {
            assert(has_resolved(self.refs@[k]));
        }
    }
}

impl<'a, T> VirtualSlice<'a, T> {
    /// Get an immutable iterator over the current values, in position order
    pub fn iter(&self) -> (it: VSIter<'_, 'a, T>)
        ensures
            it.rest() == self@,
            it.wf(),
    {
        VSIter::new(self)
    }

    /// Get a mutable iterator over the positions, in order.  Each position
    /// ends up holding, through the reference the iterator handed out for
    /// it, the value last written there.
    pub fn iter_mut<'b>(&'b mut self) -> (it: VSIterMut<'b, 'a, T>)
        ensures
            it.rest() == old(self)@,
            it.live(),
            it.slots()@ == old(self).refs(),
            final(self).refs() == final(it.slots())@,
            final(self).attached() == old(self).attached(),
            final(self).is_adjacent() == old(self).is_adjacent(),
    {
        VSIterMut::new(self)
    }
}

/// An iterator over the values of a virtual slice, by reference.
pub struct VSIter<'b, 'a, T> {
    vs: &'b VirtualSlice<'a, T>,
    pos: usize,
}

impl<'b, 'a, T> VSIter<'b, 'a, T> {
    /// The values still to come.
    pub closed spec fn rest(&self) -> Seq<T> {
        self.vs@.skip(self.pos as int)
    }

    /// The iterator's position lies within the virtual slice.
    pub closed spec fn wf(&self) -> bool {
        self.pos <= self.vs@.len()
    }

    /// An iterator from the first position of the virtual slice.
    pub fn new(vs: &'b VirtualSlice<'a, T>) -> (it: VSIter<'b, 'a, T>)
        ensures
            it.rest() == vs@,
            it.wf(),
    {
        let it = VSIter { vs, pos: 0 };
        assert(it.rest() =~= vs@);
        it
    }

    /// The next value, if any is left.
    pub fn next(&mut self) -> (r: Option<&'b T>)
        requires
            old(self).wf(),
        ensures
            final(self).wf(),
            old(self).rest().len() == 0 ==> r is None && final(self).rest() == old(self).rest(),
            old(self).rest().len() > 0 ==> r == Some(&old(self).rest()[0])
                && final(self).rest() == old(self).rest().drop_first(),
    {
        if self.pos < self.vs.len() {
            let r = self.vs.get(self.pos);
            self.pos = self.pos + 1;
            assert(self.rest() =~= old(self).rest().drop_first());
            Some(r)
        } else {
            None
        }
    }
}

/// An iterator over the positions of a virtual slice, handing out each
/// position's reference once.
pub struct VSIterMut<'b, 'a, T> {
    rest: Option<&'b mut [&'a mut T]>,
}

impl<'b, 'a, T> VSIterMut<'b, 'a, T> {
    /// The values of the positions still to come.
    pub closed spec fn rest(&self) -> Seq<T> {
        match self.rest {
            Some(s) => Seq::new(s@.len(), |i: int| *s@[i]),
            None => Seq::empty(),
        }
    }

    /// The references of the positions still to come, as handed out.
    pub closed spec fn slots(&self) -> &'b mut [&'a mut T] {
        self.rest.unwrap()
    }

    /// The iterator holds the references of the positions still to come.
    pub closed spec fn live(&self) -> bool {
        self.rest is Some
    }

    /// An iterator from the first position of the virtual slice.
    pub fn new(vs: &'b mut VirtualSlice<'a, T>) -> (it: VSIterMut<'b, 'a, T>)
        ensures
            it.rest() == old(vs)@,
            it.live(),
            it.slots()@ == old(vs).refs(),
            final(vs).refs() == final(it.slots())@,
            final(vs).attached() == old(vs).attached(),
            final(vs).is_adjacent() == old(vs).is_adjacent(),
    {
        let it = VSIterMut { rest: Some(vs.refs.as_mut_slice()) };
        assert(it.rest() =~= old(vs)@);
        it
    }

    /// The next position's reference, if any is left.
    pub fn next(&mut self) -> (r: Option<&'b mut T>)
        requires
            old(self).live(),
        ensures
            final(self).live(),
            old(self).rest().len() == 0 ==> r is None,
            old(self).rest().len() > 0 ==> r is Some && *r.unwrap() == old(self).rest()[0]
                && final(self).rest() == old(self).rest().drop_first(),
            old(self).rest().len() > 0 ==> *final(old(self).slots())@[0] == *final(r.unwrap())
                && *final(final(old(self).slots())@[0]) == *final(old(self).slots()@[0])
                && final(old(self).slots())@.drop_first() == final(final(self).slots())@,
    {
        match self.rest.take() {
            None => None,
            Some(rest) => {
                if rest.len() == 0 {
                    self.rest = Some(rest);
                    return None;
                }
                let ghost r0 = rest@;
                let ghost whole = rest;
                let (first, tail) = rest.split_at_mut(1);
                self.rest = Some(tail);
                assert(self.rest() =~= old(self).rest().drop_first());
                let ghost fs = first;
                match first.first_mut() {
                    Some(x) => {
                        let ghost gx = x;
                        let r = &mut **x;
                        proof {
                            assert(final(whole)@ == final(fs)@ + final(tail)@);
                            assert(final(fs)@ == fs@.update(0, *final(gx)));
                            assert(**final(gx) == *final(r));
                            assert(final(whole)@.drop_first() =~= final(tail)@);
                            assert(whole == old(self).slots());
                        }
                        Some(r)
                    },
                    None => None,
                }
            },
        }
    }
}

} // verus!
