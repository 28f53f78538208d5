//! Count sort for the primitive integer types, which places each value by
//! its distance from the minimum of the slice.
use vstd::prelude::*;
use crate::order::{leq, total_order, lemma_total_order, is_greater};
use crate::seqs::sorted;

verus! {

/// Sorts a slice using the Count Sort algorithm: every value is counted in
/// a slot given by its distance from the slice's minimum, and the counts are
/// then played back in slot order.
pub trait CountSort<T>: View<V = Seq<T>> where T: Distance<T> + Ord {
    /// Rearranges the contents in ascending order.
    fn count_sort(&mut self)
        requires
            total_order::<T>(),
            distance_laws::<T>(),
            forall|i: int, j: int| 0 <= i < old(self)@.len() && 0 <= j < old(self)@.len()
                ==> #[trigger] old(self)@[j].spec_dist_from(old(self)@[i]) < usize::MAX,
        ensures
            sorted(final(self)@),
            final(self)@.to_multiset() == old(self)@.to_multiset(),
    ;
}

/// Distance between two values of a type, and the inverse step that adds
/// a distance back onto a value.
pub trait Distance<T>: Sized {
    /// How far `self` lies from `min`, whichever of the two is larger.
    spec fn spec_dist_from(&self, min: T) -> int;

    /// The value that lies `idx` steps above `self`, wrapping around the
    /// type's range.
    spec fn spec_add_index(&self, idx: int) -> T;

    /// Returns the distance between `self` and `min`.
    fn dist_from(&self, min: T) -> (d: usize)
        ensures
            d == self.spec_dist_from(min),
    ;

    /// Returns the value `idx` steps above `self`.
    fn add_index(&self, idx: usize) -> (r: T)
        ensures
            r == self.spec_add_index(idx as int),
    ;
}

/// What count sort relies on from `Distance`: above a minimum, the distance
/// is a non-negative position that preserves the order, and adding it back
/// onto the minimum gives the value again.
pub open spec fn distance_laws<T: Distance<T> + Ord>() -> bool {
    &&& forall|min: T, x: T| #[trigger] leq(min, x) ==> {
        &&& x.spec_dist_from(min) >= 0
        &&& min.spec_add_index(x.spec_dist_from(min)) == x
    }
    &&& forall|min: T, x: T, y: T| leq(min, x) && leq(min, y) ==>
        (#[trigger] x.spec_dist_from(min) <= #[trigger] y.spec_dist_from(min) <==> leq(x, y))
    &&& forall|min: T, y: T, i: int| #![trigger min.spec_add_index(i), y.spec_dist_from(min)]
        leq(min, y) && 0 <= i <= y.spec_dist_from(min) ==> {
            &&& min.spec_add_index(i).spec_dist_from(min) == i
            &&& leq(min, min.spec_add_index(i))
        }
}

/// The sum of a sequence of counts.
pub open spec fn sum_counts(s: Seq<usize>) -> int
    decreases s.len(),
{
    if s.len() == 0 { 0 } else { sum_counts(s.drop_last()) + s.last() }
}

/// Incrementing one count increments the sum.
proof fn lemma_sum_counts_increment(s: Seq<usize>, i: int, v: usize)
    requires
        0 <= i < s.len(),
        v == s[i] + 1,
    ensures
        sum_counts(s.update(i, v)) == sum_counts(s) + 1,
    decreases s.len(),
{
    let t = s.update(i, v);
    if i == s.len() - 1 {
        assert(t.drop_last() =~= s.drop_last());
    } else {
        assert(t.drop_last() =~= s.drop_last().update(i, v));
        lemma_sum_counts_increment(s.drop_last(), i, v);
    }
}

/// Counts that are all zero sum to zero.
proof fn lemma_sum_counts_zero(s: Seq<usize>)
    requires
        forall|i: int| 0 <= i < s.len() ==> s[i] == 0,
    ensures
        sum_counts(s) == 0,
    decreases s.len(),
{
    if s.len() > 0 {
        lemma_sum_counts_zero(s.drop_last());
    }
}

/// A prefix of the counts sums to no more than the whole.
proof fn lemma_sum_counts_prefix(s: Seq<usize>, i: int)
    requires
        0 <= i <= s.len(),
    ensures
        0 <= sum_counts(s.take(i)) <= sum_counts(s),
    decreases s.len(),
{
    if s.len() > 0 {
        lemma_sum_counts_prefix(s.drop_last(), s.len() - 1);
        assert(s.drop_last().take(s.len() - 1) =~= s.drop_last());
    }
    if i < s.len() {
        assert(s.drop_last().take(i) =~= s.take(i));
        lemma_sum_counts_prefix(s.drop_last(), i);
    } else {
        assert(s.take(i) =~= s);
    }
}

/// Returns the least and the greatest value of a non-empty slice.
fn min_max<T: Copy + Ord>(s: &[T]) -> (res: (T, T))
    requires
        total_order::<T>(),
        s@.len() > 0,
    ensures
        s@.contains(res.0),
        s@.contains(res.1),
        forall|k: int| 0 <= k < s@.len() ==> leq(res.0, #[trigger] s@[k]) && leq(s@[k], res.1),
{
    proof {
        lemma_total_order::<T>();
    }
    let mut min = s[0];
    let mut max = s[0];
    let mut k: usize = 1;
    while k < s.len()
        invariant
            total_order::<T>(),
            1 <= k <= s@.len(),
            s@.contains(min),
            s@.contains(max),
            leq(min, max),
            forall|j: int| 0 <= j < k ==> leq(min, #[trigger] s@[j]) && leq(s@[j], max),
        decreases s@.len() - k,
    {
        proof {
            lemma_total_order::<T>();
        }
        let x = s[k];
        assert(s@[k as int] == x);
        if is_greater(&x, &max) {
            assert(leq(max, x));
            assert(leq(min, x));
            max = x;
        } else if is_greater(&min, &x) {
            assert(leq(x, min));
            assert(leq(x, max));
            min = x;
        }
        k = k + 1;
    }
    (min, max)
}

impl<T> CountSort<T> for [T] where T: Distance<T> + Copy + Ord {
    fn count_sort(&mut self) {
        broadcast use vstd::seq_lib::group_to_multiset_ensures, vstd::multiset::group_multiset_axioms;
        proof {
            lemma_total_order::<T>();
        }
        let ghost s0 = self@;
        let n = self.len();
        if n == 0 {
            // nothing to sort
            assert(sorted(self@));
            return;
        }
        // find min and max elements so we can construct the boundaries of
        // the counting array
        let (min, max) = min_max(self);
        let ghost ki = choose|i: int| 0 <= i < n && self@[i] == min;
        let ghost kj = choose|j: int| 0 <= j < n && self@[j] == max;
        assert(self@[kj].spec_dist_from(self@[ki]) < usize::MAX);
        // a counting array with length = max - min + 1, initialised to zero
        let len: usize = max.dist_from(min);
        let mut count: Vec<usize> = Vec::new();
        let mut c: usize = 0;
        while c <= len
            invariant
                len < usize::MAX,
                c <= len + 1,
                count@.len() == c,
                forall|i: int| 0 <= i < c ==> count@[i] == 0,
            decreases len + 1 - c,
        {
            count.push(0);
            c = c + 1;
        }
        proof {
            assert forall|i: int| 0 <= i <= len implies count@[i] == s0.take(0).to_multiset().count(
                #[trigger] min.spec_add_index(i)) by {
                assert(s0.take(0) =~= Seq::<T>::empty());
            }
            assert(count@ =~= Seq::new(count@.len(), |i: int| 0usize));
            lemma_sum_counts_zero(count@);
        }
        // measure counts per item, offset by the minimum
        let mut k: usize = 0;
        while k < n
            invariant
                total_order::<T>(),
                distance_laws::<T>(),
                n == self@.len(),
                self@ == s0,
                k <= n,
                count@.len() == len + 1,
                len == max.spec_dist_from(min),
                leq(min, max),
                forall|j: int| 0 <= j < n ==> leq(min, #[trigger] s0[j]) && leq(s0[j], max),
                forall|i: int| 0 <= i <= len ==> count@[i] == s0.take(k as int).to_multiset().count(
                    #[trigger] min.spec_add_index(i)),
                sum_counts(count@) == k,
            decreases n - k,
        {
            proof {
                lemma_total_order::<T>();
            }
            let x = self[k];
            let idx: usize = x.dist_from(min);
            proof {
                assert(leq(min, s0[k as int]));
                assert(leq(s0[k as int], max));
                assert(idx <= len);
                assert(s0.take(k + 1) =~= s0.take(k as int).push(x));
                assert(count@[idx as int] <= k) by {
                    lemma_sum_counts_prefix(count@, idx as int);
                    lemma_sum_counts_prefix(count@, idx + 1);
                    assert(count@.take(idx + 1).drop_last() =~= count@.take(idx as int));
                }
            }
            let cur = count[idx];
            let ghost c0 = count@;
            count[idx] = cur + 1;
            proof {
                lemma_sum_counts_increment(c0, idx as int, (cur + 1) as usize);
                assert forall|i: int| 0 <= i <= len implies count@[i] == s0.take(k + 1).to_multiset().count(
                    #[trigger] min.spec_add_index(i)) by {
                    let vi = min.spec_add_index(i);
                    assert(min.spec_add_index(x.spec_dist_from(min)) == x);
                    assert(vi.spec_dist_from(min) == i);
                    vstd::seq_lib::to_multiset_build(s0.take(k as int), x);
                    assert(s0.take(k + 1).to_multiset() =~= s0.take(k as int).to_multiset().insert(x));
                    assert(count@[i] == c0[i] + if i == idx { 1int } else { 0int });
                    assert(c0[i] == s0.take(k as int).to_multiset().count(vi));
                    if i == idx {
                        assert(vi == x);
                    } else {
                        assert(vi != x);
                    }
                }
            }
            k = k + 1;
        }
        assert(s0.take(n as int) =~= s0);
        // play back onto the slice the counts collected, in slot order
        let mut s_idx: usize = 0;
        let mut i: usize = 0;
        while i <= len
            invariant
                total_order::<T>(),
                distance_laws::<T>(),
                n == self@.len(),
                len < usize::MAX,
                i <= len + 1,
                count@.len() == len + 1,
                len == max.spec_dist_from(min),
                leq(min, max),
                forall|j: int| 0 <= j < n ==> leq(min, #[trigger] s0[j]) && leq(s0[j], max),
                forall|j: int| 0 <= j <= len ==> count@[j] == s0.to_multiset().count(
                    #[trigger] min.spec_add_index(j)),
                sum_counts(count@) == n,
                s_idx == sum_counts(count@.take(i as int)),
                sorted(self@.take(s_idx as int)),
                forall|q: int| 0 <= q < s_idx ==> leq(min, #[trigger] self@[q]) && self@[q].spec_dist_from(min) < i,
                forall|y: T| #[trigger] self@.take(s_idx as int).to_multiset().count(y)
                    == if leq(min, y) && y.spec_dist_from(min) < i { s0.to_multiset().count(y) } else { 0 },
            decreases len + 1 - i,
        {
            let cnt = count[i];
            proof {
                lemma_total_order::<T>();
                lemma_sum_counts_prefix(count@, i + 1);
                assert(count@.take(i + 1).drop_last() =~= count@.take(i as int));
            }
            if cnt > 0 {
                // reverse the offset mapping, hence output[i] = min + i
                let val = min.add_index(i);
                let ghost vi = min.spec_add_index(i as int);
                proof {
                    assert(vi.spec_dist_from(min) == i);
                    assert(leq(min, vi));
                }
                let mut x: usize = cnt;
                while x > 0
                    invariant
                        total_order::<T>(),
                        distance_laws::<T>(),
                        n == self@.len(),
                        x <= cnt,
                        cnt == count@[i as int],
                        i <= len,
                        val == vi,
                        vi.spec_dist_from(min) == i,
                        leq(min, vi),
                        count@.len() == len + 1,
                        cnt == s0.to_multiset().count(vi),
                        s_idx + x <= n,
                        s_idx == sum_counts(count@.take(i as int)) + (cnt - x),
                        sorted(self@.take(s_idx as int)),
                        forall|q: int| 0 <= q < s_idx ==> leq(min, #[trigger] self@[q]) && (
                            self@[q].spec_dist_from(min) < i || self@[q] == vi),
                        forall|y: T| #[trigger] self@.take(s_idx as int).to_multiset().count(y)
                            == (if leq(min, y) && y.spec_dist_from(min) < i { s0.to_multiset().count(y) } else { 0 })
                                + (if y == vi { cnt - x } else { 0 }),
                    decreases x,
                {
                    let ghost before = self@;
                    self[s_idx] = val;
                    proof {
                        lemma_total_order::<T>();
                        assert(self@.take(s_idx as int) =~= before.take(s_idx as int));
                        assert(self@.take(s_idx + 1) =~= before.take(s_idx as int).push(vi));
                        assert forall|a: int, b: int| 0 <= a <= b < s_idx + 1 implies leq(
                            #[trigger] self@.take(s_idx + 1)[a], #[trigger] self@.take(s_idx + 1)[b]) by {
                            if b == s_idx {
                                let ya = self@[a];
                                if a < s_idx {
                                    if ya != vi {
                                        assert(ya.spec_dist_from(min) <= vi.spec_dist_from(min));
                                    }
                                }
                            } else {
                                assert(self@.take(s_idx as int)[a] == self@[a]);
                                assert(self@.take(s_idx as int)[b] == self@[b]);
                            }
                        }
                        assert forall|y: T| #[trigger] self@.take(s_idx + 1).to_multiset().count(y)
                            == (if leq(min, y) && y.spec_dist_from(min) < i { s0.to_multiset().count(y) } else { 0 })
                                + (if y == vi { cnt - (x - 1) } else { 0 }) by {
                            assert(before.take(s_idx as int).to_multiset().count(y)
                                == (if leq(min, y) && y.spec_dist_from(min) < i { s0.to_multiset().count(y) } else { 0 })
                                + (if y == vi { cnt - x } else { 0 }));
                            vstd::seq_lib::to_multiset_build(before.take(s_idx as int), vi);
                            assert(self@.take(s_idx + 1).to_multiset() =~= before.take(s_idx as int).to_multiset().insert(vi));
                            if y == vi {
                                assert(!(vi.spec_dist_from(min) < i));
                            }
                        }
                    }
                    s_idx = s_idx + 1;
                    x = x - 1;
                }
                proof {
                    assert forall|y: T| #[trigger] self@.take(s_idx as int).to_multiset().count(y)
                        == if leq(min, y) && y.spec_dist_from(min) < i + 1 { s0.to_multiset().count(y) } else { 0 } by {
                        if leq(min, y) && y.spec_dist_from(min) == i {
                            assert(min.spec_add_index(y.spec_dist_from(min)) == y);
                        }
                    }
                }
            } else {
                proof {
                    assert forall|y: T| #[trigger] self@.take(s_idx as int).to_multiset().count(y)
                        == if leq(min, y) && y.spec_dist_from(min) < i + 1 { s0.to_multiset().count(y) } else { 0 } by {
                        if leq(min, y) && y.spec_dist_from(min) == i {
                            assert(min.spec_add_index(y.spec_dist_from(min)) == y);
                            assert(count@[i as int] == s0.to_multiset().count(min.spec_add_index(i as int)));
                        }
                    }
                }
            }
            i = i + 1;
        }
        proof {
            assert(count@.take(len + 1) =~= count@);
            assert(self@.take(n as int) =~= self@);
            assert forall|y: T| #[trigger] self@.to_multiset().count(y) == s0.to_multiset().count(y) by {
                if s0.to_multiset().count(y) > 0 {
                    assert(s0.to_multiset().contains(y));
                    assert(s0.contains(y));
                    let q = choose|q: int| 0 <= q < n && s0[q] == y;
                    assert(leq(min, s0[q]) && leq(s0[q], max));
                    assert(y.spec_dist_from(min) <= max.spec_dist_from(min));
                }
            }
            assert(self@.to_multiset() =~= s0.to_multiset());
        }
    }
}

impl Distance<i8> for i8 {
    open spec fn spec_dist_from(&self, min: i8) -> int {
        if *self > min { *self - min } else { min - *self }
    }

    open spec fn spec_add_index(&self, idx: int) -> i8 {
        (*self + idx) as i8
    }

    fn dist_from(&self, min: i8) -> (d: usize) {
        if *self > min {
            (*self as i16 - min as i16) as usize
        } else {
            (min as i16 - *self as i16) as usize
        }
    }

    fn add_index(&self, idx: usize) -> (r: i8) {
        (*self as i128 + idx as i128) as i8
    }
}

/// `i8` meets the laws count sort relies on.
pub proof fn lemma_distance_laws_i8()
    ensures
        distance_laws::<i8>(),
{
}

impl Distance<i16> for i16 {
    open spec fn spec_dist_from(&self, min: i16) -> int {
        if *self > min { *self - min } else { min - *self }
    }

    open spec fn spec_add_index(&self, idx: int) -> i16 {
        (*self + idx) as i16
    }

    fn dist_from(&self, min: i16) -> (d: usize) {
        if *self > min {
            (*self as i32 - min as i32) as usize
        } else {
            (min as i32 - *self as i32) as usize
        }
    }

    fn add_index(&self, idx: usize) -> (r: i16) {
        (*self as i128 + idx as i128) as i16
    }
}

/// `i16` meets the laws count sort relies on.
pub proof fn lemma_distance_laws_i16()
    ensures
        distance_laws::<i16>(),
{
}

impl Distance<i32> for i32 {
    open spec fn spec_dist_from(&self, min: i32) -> int {
        if *self > min { *self - min } else { min - *self }
    }

    open spec fn spec_add_index(&self, idx: int) -> i32 {
        (*self + idx) as i32
    }

    fn dist_from(&self, min: i32) -> (d: usize) {
        if *self > min {
            (*self as i64 - min as i64) as usize
        } else {
            (min as i64 - *self as i64) as usize
        }
    }

    fn add_index(&self, idx: usize) -> (r: i32) {
        (*self as i128 + idx as i128) as i32
    }
}

/// `i32` meets the laws count sort relies on.
pub proof fn lemma_distance_laws_i32()
    ensures
        distance_laws::<i32>(),
{
}

impl Distance<isize> for isize {
    open spec fn spec_dist_from(&self, min: isize) -> int {
        if *self > min { *self - min } else { min - *self }
    }

    open spec fn spec_add_index(&self, idx: int) -> isize {
        (*self + idx) as isize
    }

    fn dist_from(&self, min: isize) -> (d: usize) {
        if *self > min {
            (*self as i128 - min as i128) as usize
        } else {
            (min as i128 - *self as i128) as usize
        }
    }

    fn add_index(&self, idx: usize) -> (r: isize) {
        (*self as i128 + idx as i128) as isize
    }
}

/// `isize` meets the laws count sort relies on.
pub proof fn lemma_distance_laws_isize()
    ensures
        distance_laws::<isize>(),
{
}

impl Distance<u8> for u8 {
    open spec fn spec_dist_from(&self, min: u8) -> int {
        if *self > min { *self - min } else { min - *self }
    }

    open spec fn spec_add_index(&self, idx: int) -> u8 {
        (*self + idx) as u8
    }

    fn dist_from(&self, min: u8) -> (d: usize) {
        if *self > min {
            (*self - min) as usize
        } else {
            (min - *self) as usize
        }
    }

    fn add_index(&self, idx: usize) -> (r: u8) {
        (*self as u128 + idx as u128) as u8
    }
}

/// `u8` meets the laws count sort relies on.
pub proof fn lemma_distance_laws_u8()
    ensures
        distance_laws::<u8>(),
{
}

impl Distance<u16> for u16 {
    open spec fn spec_dist_from(&self, min: u16) -> int {
        if *self > min { *self - min } else { min - *self }
    }

    open spec fn spec_add_index(&self, idx: int) -> u16 {
        (*self + idx) as u16
    }

    fn dist_from(&self, min: u16) -> (d: usize) {
        if *self > min {
            (*self - min) as usize
        } else {
            (min - *self) as usize
        }
    }

    fn add_index(&self, idx: usize) -> (r: u16) {
        (*self as u128 + idx as u128) as u16
    }
}

/// `u16` meets the laws count sort relies on.
pub proof fn lemma_distance_laws_u16()
    ensures
        distance_laws::<u16>(),
{
}

impl Distance<u32> for u32 {
    open spec fn spec_dist_from(&self, min: u32) -> int {
        if *self > min { *self - min } else { min - *self }
    }

    open spec fn spec_add_index(&self, idx: int) -> u32 {
        (*self + idx) as u32
    }

    fn dist_from(&self, min: u32) -> (d: usize) {
        if *self > min {
            (*self - min) as usize
        } else {
            (min - *self) as usize
        }
    }

    fn add_index(&self, idx: usize) -> (r: u32) {
        (*self as u128 + idx as u128) as u32
    }
}

/// `u32` meets the laws count sort relies on.
pub proof fn lemma_distance_laws_u32()
    ensures
        distance_laws::<u32>(),
{
}

impl Distance<usize> for usize {
    open spec fn spec_dist_from(&self, min: usize) -> int {
        if *self > min { *self - min } else { min - *self }
    }

    open spec fn spec_add_index(&self, idx: int) -> usize {
        (*self + idx) as usize
    }

    fn dist_from(&self, min: usize) -> (d: usize) {
        if *self > min {
            (*self - min) as usize
        } else {
            (min - *self) as usize
        }
    }

    fn add_index(&self, idx: usize) -> (r: usize) {
        (*self as u128 + idx as u128) as usize
    }
}

/// `usize` meets the laws count sort relies on.
pub proof fn lemma_distance_laws_usize()
    ensures
        distance_laws::<usize>(),
{
}

} // verus!
