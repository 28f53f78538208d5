//! Specifications over sequences shared by the sorting and merging
//! algorithms: sortedness, the merge of two sequences, and inversion counts.
use vstd::prelude::*;
use crate::order::{leq, total_order, lemma_total_order};

verus! {


/// `x` sits at position `k` of `s`, every element before it is `<= x` and
/// every element after it is `>= x`: `x` is the `(k+1)`-th smallest.
pub open spec fn is_selected<T: Ord>(s: Seq<T>, k: int, x: T) -> bool {
    &&& 0 <= k < s.len()
    &&& s[k] == x
    &&& forall|i: int| 0 <= i < k ==> leq(#[trigger] s[i], x)
    &&& forall|i: int| k < i < s.len() ==> leq(x, #[trigger] s[i])
}

/// Lomuto's scan of `s[1..j]` around the pivot `s[0]`: each item smaller
/// than the pivot is swapped to just after those found before it.  The
/// arrangement reached, and how many smaller items it found.
pub open spec fn lomuto<T: Ord>(s: Seq<T>, j: int) -> (Seq<T>, int)
    decreases j,
{
    if j <= 1 {
        (s, 0)
    } else {
        let (t, i) = lomuto(s, j - 1);
        if !leq(s[0], t[j - 1]) { (spec_swap(t, i + 1, j - 1), i + 1) } else { (t, i) }
    }
}

/// The arrangement Lomuto's partition leaves around the item at `idx`:
/// that item is swapped to the front, the rest scanned, and the item then
/// swapped with the last smaller one found.
pub open spec fn lomuto_partition<T: Ord>(s: Seq<T>, idx: int) -> Seq<T> {
    let s1 = spec_swap(s, 0, idx);
    let (t, i) = lomuto(s1, s1.len() as int);
    spec_swap(t, 0, i)
}

/// How many items Lomuto's partition around the item at `idx` finds
/// smaller: the position the item ends at.
pub open spec fn lomuto_count<T: Ord>(s: Seq<T>, idx: int) -> int {
    let s1 = spec_swap(s, 0, idx);
    lomuto(s1, s1.len() as int).1
}

/// `s` with the elements at `a` and `b` exchanged.
pub open spec fn spec_swap<T>(s: Seq<T>, a: int, b: int) -> Seq<T> {
    s.update(a, s[b]).update(b, s[a])
}

/// Exchanging two elements keeps the multiset of elements.
pub proof fn lemma_swap_perm<T>(s: Seq<T>, a: int, b: int)
    requires
        0 <= a < s.len(),
        0 <= b < s.len(),
    ensures
        spec_swap(s, a, b).to_multiset() == s.to_multiset(),
        spec_swap(s, a, b).len() == s.len(),
{
    broadcast use vstd::seq_lib::group_to_multiset_ensures;
    broadcast use vstd::multiset::group_multiset_axioms;
    let t = s.update(a, s[b]);
    assert(t.to_multiset() =~= s.to_multiset().remove(s[a]).insert(s[b])) by {
        lemma_update_multiset(s, a, s[b]);
    }
    lemma_update_multiset(t, b, s[a]);
    assert(spec_swap(s, a, b).to_multiset() =~= s.to_multiset());
}

proof fn lemma_update_multiset<T>(s: Seq<T>, i: int, v: T)
    requires
        0 <= i < s.len(),
    ensures
        s.update(i, v).to_multiset() == s.to_multiset().remove(s[i]).insert(v),
{
    broadcast use vstd::seq_lib::group_to_multiset_ensures;
    broadcast use vstd::multiset::group_multiset_axioms;
    let x = s.subrange(0, i);
    let y = s.subrange(i + 1, s.len() as int);
    assert(s =~= x + seq![s[i]] + y);
    assert(s.update(i, v) =~= x + seq![v] + y);
    vstd::seq_lib::lemma_multiset_commutative(x + seq![s[i]], y);
    vstd::seq_lib::lemma_multiset_commutative(x + seq![v], y);
    vstd::seq_lib::lemma_multiset_commutative(x, seq![s[i]]);
    vstd::seq_lib::lemma_multiset_commutative(x, seq![v]);
    assert(s.update(i, v).to_multiset() =~= s.to_multiset().remove(s[i]).insert(v));
}

/// Every element is `<=` every later element.
pub open spec fn sorted<T: Ord>(s: Seq<T>) -> bool {
    forall|i: int, j: int| 0 <= i < j < s.len() ==> leq(#[trigger] s[i], #[trigger] s[j])
}

/// Every element of `s` is `>= x`.
pub open spec fn all_geq<T: Ord>(s: Seq<T>, x: T) -> bool {
    forall|i: int| 0 <= i < s.len() ==> leq(x, #[trigger] s[i])
}

/// The sequence produced by the standard two-way merge: repeatedly take
/// the head of `l` when it is `<=` the head of `r`, otherwise the head of `r`.
pub open spec fn merge_seq<T: Ord>(l: Seq<T>, r: Seq<T>) -> Seq<T>
    decreases l.len() + r.len(),
{
    if l.len() == 0 {
        r
    } else if r.len() == 0 {
        l
    } else if leq(l[0], r[0]) {
        seq![l[0]] + merge_seq(l.drop_first(), r)
    } else {
        seq![r[0]] + merge_seq(l, r.drop_first())
    }
}

/// The inversions that the two-way merge of `l` and `r` counts: each time
/// the head of `r` is taken, the number of elements left in `l`.
pub open spec fn merge_count<T: Ord>(l: Seq<T>, r: Seq<T>) -> nat
    decreases l.len() + r.len(),
{
    if l.len() == 0 || r.len() == 0 {
        0
    } else if leq(l[0], r[0]) {
        merge_count(l.drop_first(), r)
    } else {
        l.len() + merge_count(l, r.drop_first())
    }
}

/// Number of elements of `s` strictly greater than `x`.
pub open spec fn count_gt<T: Ord>(s: Seq<T>, x: T) -> nat
    decreases s.len(),
{
    if s.len() == 0 {
        0
    } else {
        count_gt(s.drop_last(), x) + if leq(s.last(), x) { 0nat } else { 1nat }
    }
}

/// Number of pairs `i < j` with `s[i] > s[j]`.
pub open spec fn inversions<T: Ord>(s: Seq<T>) -> nat
    decreases s.len(),
{
    if s.len() == 0 {
        0
    } else {
        inversions(s.drop_last()) + count_gt(s.drop_last(), s.last())
    }
}

/// Number of pairs `(x, y)`, `x` from `l` and `y` from `r`, with `x > y`.
pub open spec fn cross<T: Ord>(l: Seq<T>, r: Seq<T>) -> nat
    decreases r.len(),
{
    if r.len() == 0 {
        0
    } else {
        cross(l, r.drop_last()) + count_gt(l, r.last())
    }
}

pub proof fn lemma_merge_seq_len<T: Ord>(l: Seq<T>, r: Seq<T>)
    ensures
        merge_seq(l, r).len() == l.len() + r.len(),
    decreases l.len() + r.len(),
{
    if l.len() != 0 && r.len() != 0 {
        if leq(l[0], r[0]) {
            lemma_merge_seq_len(l.drop_first(), r);
        } else {
            lemma_merge_seq_len(l, r.drop_first());
        }
    }
}

/// The merge holds exactly the elements of both inputs.
pub proof fn lemma_merge_seq_perm<T: Ord>(l: Seq<T>, r: Seq<T>)
    ensures
        merge_seq(l, r).to_multiset() == (l + r).to_multiset(),
        merge_seq(l, r).len() == l.len() + r.len(),
    decreases l.len() + r.len(),
{
    broadcast use vstd::multiset::group_multiset_axioms;
    lemma_merge_seq_len(l, r);
    if l.len() == 0 {
        assert(l + r =~= r);
    } else if r.len() == 0 {
        assert(l + r =~= l);
    } else if leq(l[0], r[0]) {
        lemma_merge_seq_perm(l.drop_first(), r);
        assert(l + r =~= seq![l[0]] + (l.drop_first() + r));
        vstd::seq_lib::lemma_multiset_commutative(seq![l[0]], l.drop_first() + r);
        vstd::seq_lib::lemma_multiset_commutative(seq![l[0]], merge_seq(l.drop_first(), r));
    } else {
        lemma_merge_seq_perm(l, r.drop_first());
        vstd::seq_lib::lemma_multiset_commutative(l, r);
        vstd::seq_lib::lemma_multiset_commutative(l, r.drop_first());
        assert(r =~= seq![r[0]] + r.drop_first());
        vstd::seq_lib::lemma_multiset_commutative(seq![r[0]], r.drop_first());
        vstd::seq_lib::lemma_multiset_commutative(seq![r[0]], merge_seq(l, r.drop_first()));
    }
}

pub proof fn lemma_in_multiset<T>(s: Seq<T>, t: Seq<T>, k: int)
    requires
        s.to_multiset() == t.to_multiset(),
        0 <= k < s.len(),
    ensures
        exists|m: int| 0 <= m < t.len() && t[m] == s[k],
{
    broadcast use vstd::seq_lib::group_to_multiset_ensures;
    assert(s.contains(s[k]));
    assert(s.to_multiset().count(s[k]) > 0);
    assert(t.to_multiset().count(s[k]) > 0);
    assert(t.contains(s[k]));
}

/// Sorting the two inputs makes their merge sorted.
pub proof fn lemma_merge_seq_sorted<T: Ord>(l: Seq<T>, r: Seq<T>)
    requires
        total_order::<T>(),
        sorted(l),
        sorted(r),
    ensures
        sorted(merge_seq(l, r)),
    decreases l.len() + r.len(),
{
    lemma_total_order::<T>();
    if l.len() != 0 && r.len() != 0 {
        if leq(l[0], r[0]) {
            let t = l.drop_first();
            lemma_merge_seq_sorted(t, r);
            lemma_merge_seq_perm(t, r);
            let m = merge_seq(t, r);
            assert forall|k: int| 0 <= k < m.len() implies leq(l[0], #[trigger] m[k]) by {
                lemma_in_multiset(m, t + r, k);
                let w = choose|w: int| 0 <= w < (t + r).len() && (t + r)[w] == m[k];
                if w < t.len() {
                    assert(leq(l[0], l[w + 1]));
                } else {
                    assert(leq(r[0], r[w - t.len()]));
                }
            }
            assert(merge_seq(l, r) =~= seq![l[0]] + m);
            assert forall|i: int, j: int| 0 <= i < j < merge_seq(l, r).len() implies leq(
                #[trigger] merge_seq(l, r)[i], #[trigger] merge_seq(l, r)[j]) by {
                if i > 0 {
                    assert(merge_seq(l, r)[i] == m[i - 1]);
                    assert(merge_seq(l, r)[j] == m[j - 1]);
                } else {
                    assert(merge_seq(l, r)[j] == m[j - 1]);
                }
            }
        } else {
            let t = r.drop_first();
            lemma_merge_seq_sorted(l, t);
            lemma_merge_seq_perm(l, t);
            let m = merge_seq(l, t);
            assert forall|k: int| 0 <= k < m.len() implies leq(r[0], #[trigger] m[k]) by {
                lemma_in_multiset(m, l + t, k);
                let w = choose|w: int| 0 <= w < (l + t).len() && (l + t)[w] == m[k];
                if w < l.len() {
                    assert(leq(l[0], l[w]));
                } else {
                    assert(leq(r[0], r[w - l.len() + 1]));
                }
            }
            assert(merge_seq(l, r) =~= seq![r[0]] + m);
            assert forall|i: int, j: int| 0 <= i < j < merge_seq(l, r).len() implies leq(
                #[trigger] merge_seq(l, r)[i], #[trigger] merge_seq(l, r)[j]) by {
                if i > 0 {
                    assert(merge_seq(l, r)[i] == m[i - 1]);
                    assert(merge_seq(l, r)[j] == m[j - 1]);
                } else {
                    assert(merge_seq(l, r)[j] == m[j - 1]);
                }
            }
        }
    }
}


proof fn lemma_remove_multiset<T>(b: Seq<T>, k: int)
    requires
        0 <= k < b.len(),
    ensures
        b.remove(k).to_multiset() == b.to_multiset().remove(b[k]),
        b.remove(k) == b.subrange(0, k) + b.subrange(k + 1, b.len() as int),
        b == b.subrange(0, k) + seq![b[k]] + b.subrange(k + 1, b.len() as int),
{
    broadcast use vstd::multiset::group_multiset_axioms;
    broadcast use vstd::seq_lib::group_to_multiset_ensures;
    let x = b.subrange(0, k);
    let y = b.subrange(k + 1, b.len() as int);
    assert(b.remove(k) =~= x + y);
    assert(b =~= x + seq![b[k]] + y);
    vstd::seq_lib::lemma_multiset_commutative(x, y);
    vstd::seq_lib::lemma_multiset_commutative(x + seq![b[k]], y);
    vstd::seq_lib::lemma_multiset_commutative(x, seq![b[k]]);
    assert(b.to_multiset() =~= (x + y).to_multiset().insert(b[k]));
}

pub proof fn lemma_count_gt_concat<T: Ord>(a: Seq<T>, b: Seq<T>, x: T)
    ensures
        count_gt(a + b, x) == count_gt(a, x) + count_gt(b, x),
    decreases b.len(),
{
    if b.len() == 0 {
        assert(a + b =~= a);
    } else {
        lemma_count_gt_concat(a, b.drop_last(), x);
        assert((a + b).drop_last() =~= a + b.drop_last());
    }
}

/// `count_gt` depends only on the multiset of elements.
pub proof fn lemma_count_gt_perm<T: Ord>(a: Seq<T>, b: Seq<T>, x: T)
    requires
        a.to_multiset() == b.to_multiset(),
    ensures
        count_gt(a, x) == count_gt(b, x),
    decreases a.len(),
{
    broadcast use vstd::seq_lib::group_to_multiset_ensures;
    broadcast use vstd::multiset::group_multiset_axioms;
    if a.len() == 0 {
        assert(b.to_multiset().len() == 0);
        assert(b.len() == 0);
    } else {
        let e = a.last();
        lemma_in_multiset(a, b, a.len() - 1);
        let k = choose|m: int| 0 <= m < b.len() && b[m] == e;
        lemma_remove_multiset(b, k);
        assert(a =~= a.drop_last().push(e));
        assert(a.drop_last().to_multiset() =~= b.remove(k).to_multiset());
        lemma_count_gt_perm(a.drop_last(), b.remove(k), x);
        let p = b.subrange(0, k);
        let q = b.subrange(k + 1, b.len() as int);
        lemma_count_gt_concat(p, q, x);
        lemma_count_gt_concat(p + seq![e], q, x);
        lemma_count_gt_concat(p, seq![e], x);
        assert(seq![e].drop_last() =~= Seq::<T>::empty());
        assert(count_gt(Seq::<T>::empty(), x) == 0);
        assert(count_gt(seq![e], x) == if leq(e, x) { 0nat } else { 1nat });
        assert(count_gt(b, x) == count_gt(p, x) + count_gt(seq![e], x) + count_gt(q, x));
        assert(count_gt(b.remove(k), x) == count_gt(p, x) + count_gt(q, x));
        assert(count_gt(a, x) == count_gt(a.drop_last(), x) + count_gt(seq![e], x));
    }
}

pub proof fn lemma_cross_concat_right<T: Ord>(l: Seq<T>, a: Seq<T>, b: Seq<T>)
    ensures
        cross(l, a + b) == cross(l, a) + cross(l, b),
    decreases b.len(),
{
    if b.len() == 0 {
        assert(a + b =~= a);
    } else {
        lemma_cross_concat_right(l, a, b.drop_last());
        assert((a + b).drop_last() =~= a + b.drop_last());
    }
}

pub proof fn lemma_cross_concat_left<T: Ord>(a: Seq<T>, b: Seq<T>, r: Seq<T>)
    ensures
        cross(a + b, r) == cross(a, r) + cross(b, r),
    decreases r.len(),
{
    if r.len() != 0 {
        lemma_cross_concat_left(a, b, r.drop_last());
        lemma_count_gt_concat(a, b, r.last());
    }
}

/// `cross` depends only on the multisets of its two arguments.
pub proof fn lemma_cross_perm<T: Ord>(l: Seq<T>, l2: Seq<T>, r: Seq<T>, r2: Seq<T>)
    requires
        l.to_multiset() == l2.to_multiset(),
        r.to_multiset() == r2.to_multiset(),
    ensures
        cross(l, r) == cross(l2, r2),
    decreases r.len(),
{
    broadcast use vstd::seq_lib::group_to_multiset_ensures;
    broadcast use vstd::multiset::group_multiset_axioms;
    if r.len() == 0 {
        assert(r2.to_multiset().len() == 0);
        assert(r2.len() == 0);
    } else {
        let e = r.last();
        lemma_in_multiset(r, r2, r.len() - 1);
        let k = choose|m: int| 0 <= m < r2.len() && r2[m] == e;
        lemma_remove_multiset(r2, k);
        assert(r =~= r.drop_last().push(e));
        assert(r.drop_last().to_multiset() =~= r2.remove(k).to_multiset());
        lemma_cross_perm(l, l2, r.drop_last(), r2.remove(k));
        lemma_count_gt_perm(l, l2, e);
        let p = r2.subrange(0, k);
        let q = r2.subrange(k + 1, r2.len() as int);
        lemma_cross_concat_right(l2, p, q);
        lemma_cross_concat_right(l2, p + seq![e], q);
        lemma_cross_concat_right(l2, p, seq![e]);
        assert(seq![e].drop_last() =~= Seq::<T>::empty());
        assert(cross(l2, Seq::<T>::empty()) == 0);
        assert(cross(l2, seq![e]) == count_gt(l2, e));
        assert(cross(l2, r2) == cross(l2, p) + cross(l2, seq![e]) + cross(l2, q));
        assert(cross(l2, r2.remove(k)) == cross(l2, p) + cross(l2, q));
        assert(cross(l, r) == cross(l, r.drop_last()) + count_gt(l, e));
    }
}

/// The inversions of a concatenation: those within each part plus those across.
pub proof fn lemma_inversions_concat<T: Ord>(l: Seq<T>, r: Seq<T>)
    ensures
        inversions(l + r) == inversions(l) + inversions(r) + cross(l, r),
    decreases r.len(),
{
    if r.len() == 0 {
        assert(l + r =~= l);
    } else {
        lemma_inversions_concat(l, r.drop_last());
        assert((l + r).drop_last() =~= l + r.drop_last());
        lemma_count_gt_concat(l, r.drop_last(), r.last());
    }
}

proof fn lemma_count_gt_none<T: Ord>(s: Seq<T>, x: T)
    requires
        forall|i: int| 0 <= i < s.len() ==> leq(#[trigger] s[i], x),
    ensures
        count_gt(s, x) == 0,
    decreases s.len(),
{
    if s.len() != 0 {
        lemma_count_gt_none(s.drop_last(), x);
    }
}

proof fn lemma_count_gt_all<T: Ord>(s: Seq<T>, x: T)
    requires
        forall|i: int| 0 <= i < s.len() ==> !leq(#[trigger] s[i], x),
    ensures
        count_gt(s, x) == s.len(),
    decreases s.len(),
{
    if s.len() != 0 {
        lemma_count_gt_all(s.drop_last(), x);
    }
}

proof fn lemma_cross_single_none<T: Ord>(e: T, r: Seq<T>)
    requires
        forall|i: int| 0 <= i < r.len() ==> leq(e, #[trigger] r[i]),
    ensures
        cross(seq![e], r) == 0,
    decreases r.len(),
{
    if r.len() != 0 {
        lemma_cross_single_none(e, r.drop_last());
        lemma_count_gt_none(seq![e], r.last());
    }
}

/// On sorted inputs the merge counts exactly the inversions across them.
pub proof fn lemma_merge_count_cross<T: Ord>(l: Seq<T>, r: Seq<T>)
    requires
        total_order::<T>(),
        sorted(l),
        sorted(r),
    ensures
        merge_count(l, r) == cross(l, r),
    decreases l.len() + r.len(),
{
    lemma_total_order::<T>();
    if l.len() == 0 {
        lemma_cross_zero_left(l, r);
    } else if r.len() == 0 {
    } else if leq(l[0], r[0]) {
        let t = l.drop_first();
        lemma_merge_count_cross(t, r);
        assert(l =~= seq![l[0]] + t);
        lemma_cross_concat_left(seq![l[0]], t, r);
        assert forall|i: int| 0 <= i < r.len() implies leq(l[0], #[trigger] r[i]) by {
            assert(leq(r[0], r[i]));
        }
        lemma_cross_single_none(l[0], r);
        assert(merge_count(l, r) == merge_count(t, r));
    } else {
        let t = r.drop_first();
        lemma_merge_count_cross(l, t);
        assert(r =~= seq![r[0]] + t);
        lemma_cross_concat_right(l, seq![r[0]], t);
        assert forall|i: int| 0 <= i < l.len() implies !leq(#[trigger] l[i], r[0]) by {
            assert(leq(l[0], l[i]));
        }
        lemma_count_gt_all(l, r[0]);
        assert(seq![r[0]].drop_last() =~= Seq::<T>::empty());
        assert(cross(l, Seq::<T>::empty()) == 0);
        assert(cross(l, seq![r[0]]) == count_gt(l, r[0]));
        assert(merge_count(l, r) == l.len() + merge_count(l, t));
    }
}

proof fn lemma_cross_zero_left<T: Ord>(l: Seq<T>, r: Seq<T>)
    requires
        l.len() == 0,
    ensures
        cross(l, r) == 0,
    decreases r.len(),
{
    if r.len() != 0 {
        lemma_cross_zero_left(l, r.drop_last());
    }
}


/// Sorting is deterministic: two sorted sequences holding the same elements
/// are equal.
pub proof fn lemma_sorted_unique<T: Ord>(a: Seq<T>, b: Seq<T>)
    requires
        total_order::<T>(),
        sorted(a),
        sorted(b),
        a.to_multiset() == b.to_multiset(),
    ensures
        a == b,
    decreases a.len(),
{
    broadcast use vstd::seq_lib::group_to_multiset_ensures;
    broadcast use vstd::multiset::group_multiset_axioms;
    lemma_total_order::<T>();
    if a.len() == 0 {
        assert(b.to_multiset().len() == 0);
        assert(b.len() == 0);
        assert(a =~= b);
    } else {
        lemma_in_multiset(a, b, 0);
        lemma_in_multiset(b, a, 0);
        let m = choose|m: int| 0 <= m < b.len() && b[m] == a[0];
        let n = choose|n: int| 0 <= n < a.len() && a[n] == b[0];
        if m > 0 {
            assert(leq(b[0], b[m]));
        }
        if n > 0 {
            assert(leq(a[0], a[n]));
        }
        assert(leq(a[0], b[0]) && leq(b[0], a[0]));
        lemma_remove_multiset(a, 0);
        lemma_remove_multiset(b, 0);
        assert(a.remove(0) =~= a.drop_first());
        assert(b.remove(0) =~= b.drop_first());
        lemma_sorted_unique(a.drop_first(), b.drop_first());
        assert(a =~= seq![a[0]] + a.drop_first());
        assert(b =~= seq![b[0]] + b.drop_first());
    }
}


/// A property of every element carries over to a permutation.
pub proof fn lemma_perm_all<T>(a: Seq<T>, b: Seq<T>, f: spec_fn(T) -> bool)
    requires
        a.to_multiset() == b.to_multiset(),
        forall|i: int| 0 <= i < a.len() ==> f(#[trigger] a[i]),
    ensures
        forall|i: int| 0 <= i < b.len() ==> f(#[trigger] b[i]),
{
    assert forall|i: int| 0 <= i < b.len() implies f(#[trigger] b[i]) by {
        lemma_in_multiset(b, a, i);
    }
}

/// A sorted left part, a pivot, and a sorted right part, split by the pivot,
/// make a sorted sequence.
pub proof fn lemma_sorted_around<T: Ord>(l: Seq<T>, x: T, r: Seq<T>)
    requires
        total_order::<T>(),
        sorted(l),
        sorted(r),
        forall|i: int| 0 <= i < l.len() ==> leq(#[trigger] l[i], x),
        forall|i: int| 0 <= i < r.len() ==> leq(x, #[trigger] r[i]),
    ensures
        sorted(l + seq![x] + r),
{
    lemma_total_order::<T>();
    let s = l + seq![x] + r;
    assert forall|i: int, j: int| 0 <= i < j < s.len() implies leq(#[trigger] s[i], #[trigger] s[j]) by {
        if j < l.len() {
        } else if j == l.len() {
            assert(s[j] == x);
        } else if i < l.len() {
            assert(leq(l[i], x));
            assert(leq(x, r[j - l.len() - 1]));
        } else if i == l.len() {
            assert(s[i] == x);
        } else {
        }
    }
}

/// Multisets of concatenations of three parts.
pub proof fn lemma_perm_concat3<T>(a: Seq<T>, x: T, b: Seq<T>, a2: Seq<T>, b2: Seq<T>)
    requires
        a.to_multiset() == a2.to_multiset(),
        b.to_multiset() == b2.to_multiset(),
    ensures
        (a + seq![x] + b).to_multiset() == (a2 + seq![x] + b2).to_multiset(),
{
    vstd::seq_lib::lemma_multiset_commutative(a + seq![x], b);
    vstd::seq_lib::lemma_multiset_commutative(a2 + seq![x], b2);
    vstd::seq_lib::lemma_multiset_commutative(a, seq![x]);
    vstd::seq_lib::lemma_multiset_commutative(a2, seq![x]);
}


/// A selection inside the part left of a pivot (or right of it) is a
/// selection in the whole partitioned sequence.
pub proof fn lemma_selected_around<T: Ord>(l: Seq<T>, x: T, r: Seq<T>, k: int, y: T, in_left: bool)
    requires
        total_order::<T>(),
        forall|i: int| 0 <= i < l.len() ==> leq(#[trigger] l[i], x) && l[i] != x,
        forall|i: int| 0 <= i < r.len() ==> leq(x, #[trigger] r[i]),
        in_left ==> is_selected(l, k, y),
        !in_left ==> is_selected(r, k, y),
    ensures
        in_left ==> is_selected(l + seq![x] + r, k, y),
        !in_left ==> is_selected(l + seq![x] + r, l.len() + 1 + k, y),
{
    lemma_total_order::<T>();
    let s = l + seq![x] + r;
    if in_left {
        assert forall|i: int| k < i < s.len() implies leq(y, #[trigger] s[i]) by {
            if i < l.len() {
            } else if i == l.len() {
                assert(leq(l[k], x));
            } else {
                assert(leq(l[k], x));
                assert(leq(x, r[i - l.len() - 1]));
            }
        }
        assert forall|i: int| 0 <= i < k implies leq(#[trigger] s[i], y) by {
            assert(s[i] == l[i]);
        }
    } else {
        let kk = l.len() + 1 + k;
        assert forall|i: int| 0 <= i < kk implies leq(#[trigger] s[i], y) by {
            if i < l.len() {
                assert(leq(l[i], x));
                assert(leq(x, r[k]));
            } else if i == l.len() {
                assert(leq(x, r[k]));
            } else {
                assert(s[i] == r[i - l.len() - 1]);
            }
        }
        assert forall|i: int| kk < i < s.len() implies leq(y, #[trigger] s[i]) by {
            assert(s[i] == r[i - l.len() - 1]);
        }
    }
}


/// The pivot of a partitioned sequence is selected at its own position.
pub proof fn lemma_selected_pivot<T: Ord>(l: Seq<T>, x: T, r: Seq<T>)
    requires
        total_order::<T>(),
        forall|i: int| 0 <= i < l.len() ==> leq(#[trigger] l[i], x),
        forall|i: int| 0 <= i < r.len() ==> leq(x, #[trigger] r[i]),
    ensures
        is_selected(l + seq![x] + r, l.len() as int, x),
{
    let s = l + seq![x] + r;
    assert forall|i: int| 0 <= i < l.len() implies leq(#[trigger] s[i], x) by {
        assert(s[i] == l[i]);
    }
    assert forall|i: int| l.len() < i < s.len() implies leq(x, #[trigger] s[i]) by {
        assert(s[i] == r[i - l.len() - 1]);
    }
}


/// The elements of `s` in ascending order.
pub open spec fn sort_spec<T: Ord>(s: Seq<T>) -> Seq<T> {
    s.sort_by(|a: T, b: T| leq(a, b))
}

/// `sort_spec(s)` is the one sorted sequence with the elements of `s`.
pub proof fn lemma_sort_spec<T: Ord>(s: Seq<T>, t: Seq<T>)
    requires
        total_order::<T>(),
    ensures
        sorted(sort_spec(s)),
        sort_spec(s).to_multiset() == s.to_multiset(),
        sort_spec(s).len() == s.len(),
        sorted(t) && t.to_multiset() == s.to_multiset() ==> t == sort_spec(s),
{
    lemma_total_order::<T>();
    let f = |a: T, b: T| leq(a, b);
    assert(vstd::relations::total_ordering(f)) by {
        assert(vstd::relations::reflexive(f));
        assert(vstd::relations::antisymmetric(f));
        assert(vstd::relations::transitive(f));
        assert(vstd::relations::strongly_connected(f));
    }
    s.lemma_sort_by_ensures(f);
    let u = sort_spec(s);
    assert(sorted(u)) by {
        assert forall|i: int, j: int| 0 <= i < j < u.len() implies leq(#[trigger] u[i], #[trigger] u[j]) by {
            assert(f(u[i], u[j]));
        }
    }
    u.to_multiset_ensures();
    s.to_multiset_ensures();
    if sorted(t) && t.to_multiset() == s.to_multiset() {
        lemma_sorted_unique(t, u);
    }
}

/// A sequence of at most `n` elements holds at most `n * n` inversions.
pub proof fn lemma_inversions_bound<T: Ord>(s: Seq<T>)
    ensures
        inversions(s) <= s.len() * s.len(),
    decreases s.len(),
{
    if s.len() > 0 {
        let t = s.drop_last();
        lemma_inversions_bound(t);
        lemma_count_gt_bound(t, s.last());
        let n = s.len() as int;
        assert((n - 1) * (n - 1) + (n - 1) <= n * n) by (nonlinear_arith)
            requires
                n >= 1;
    }
}

proof fn lemma_count_gt_bound<T: Ord>(s: Seq<T>, x: T)
    ensures
        count_gt(s, x) <= s.len(),
    decreases s.len(),
{
    if s.len() > 0 {
        lemma_count_gt_bound(s.drop_last(), x);
    }
}


/// Number of groups of five (the last one possibly shorter) in `n` items.
pub open spec fn num_groups(n: int) -> int {
    (n + 4) / 5
}

/// End of the `k`-th group of five within `n` items.
pub open spec fn group_end(n: int, k: int) -> int {
    if 5 * k + 5 <= n { 5 * k + 5 } else { n }
}

/// The `k`-th group of five items of `s`.
pub open spec fn group5<T>(s: Seq<T>, k: int) -> Seq<T> {
    s.subrange(5 * k, group_end(s.len() as int, k))
}

/// The median of each group of five items of `s`: the item at position
/// `len / 2` of the sorted group.
pub open spec fn medians_spec<T: Ord>(s: Seq<T>) -> Seq<T> {
    Seq::new(num_groups(s.len() as int) as nat, |k: int| sort_spec(group5(s, k))[(group5(s, k).len() / 2) as int])
}


/// Sorting each group of five in place keeps the multiset of the whole.
pub proof fn lemma_groups_perm<T: Ord>(s0: Seq<T>, s1: Seq<T>)
    requires
        total_order::<T>(),
        s1.len() == s0.len(),
        forall|k: int| 0 <= k < num_groups(s0.len() as int) ==> #[trigger] group5(s1, k) == sort_spec(group5(s0, k)),
    ensures
        s1.to_multiset() == s0.to_multiset(),
{
    let n = s0.len() as int;
    let g = num_groups(n);
    lemma_groups_prefix_perm(s0, s1, g);
    assert(group_end(n, g - 1) == n || n == 0);
    if n == 0 {
        assert(s0 =~= s1);
    } else {
        assert(s0.subrange(0, n) =~= s0);
        assert(s1.subrange(0, n) =~= s1);
    }
}

proof fn lemma_groups_prefix_perm<T: Ord>(s0: Seq<T>, s1: Seq<T>, m: int)
    requires
        total_order::<T>(),
        s1.len() == s0.len(),
        0 <= m <= num_groups(s0.len() as int),
        forall|k: int| 0 <= k < num_groups(s0.len() as int) ==> #[trigger] group5(s1, k) == sort_spec(group5(s0, k)),
    ensures
        m > 0 ==> s1.subrange(0, group_end(s0.len() as int, m - 1)).to_multiset() == s0.subrange(0, group_end(s0.len() as int, m - 1)).to_multiset(),
    decreases m,
{
    let n = s0.len() as int;
    if m > 0 {
        let e = group_end(n, m - 1);
        let b = 5 * (m - 1);
        lemma_sort_spec(group5(s0, m - 1), group5(s0, m - 1));
        if m == 1 {
            assert(s1.subrange(0, e) =~= group5(s1, 0));
            assert(s0.subrange(0, e) =~= group5(s0, 0));
        } else {
            lemma_groups_prefix_perm(s0, s1, m - 1);
            assert(group_end(n, m - 2) == b);
            assert(s1.subrange(0, e) =~= s1.subrange(0, b) + group5(s1, m - 1));
            assert(s0.subrange(0, e) =~= s0.subrange(0, b) + group5(s0, m - 1));
            vstd::seq_lib::lemma_multiset_commutative(s1.subrange(0, b), group5(s1, m - 1));
            vstd::seq_lib::lemma_multiset_commutative(s0.subrange(0, b), group5(s0, m - 1));
        }
    }
}

} // verus!
