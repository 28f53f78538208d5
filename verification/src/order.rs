//! The ordering that the sorting, merging and selection algorithms rely on,
//! stated over the specification of `Ord`.
use vstd::prelude::*;
use vstd::laws_cmp::obeys_cmp;
use vstd::laws_eq::{obeys_eq_spec_properties, obeys_concrete_eq};
use vstd::laws_cmp::{obeys_partial_cmp_spec_properties, obeys_cmp_partial_ord, obeys_cmp_ord};
use vstd::std_specs::cmp::{OrdSpec, PartialOrdSpec};
use core::cmp::Ordering;

verus! {

/// `T`'s `Ord` implementation behaves as a total order in which only equal
/// values compare as equal (true of every primitive integer type).
pub open spec fn total_order<T: Ord>() -> bool {
    obeys_cmp::<T>() && obeys_concrete_eq::<T>()
}

/// `a <= b` according to `T`'s ordering.
pub open spec fn leq<T: Ord>(a: T, b: T) -> bool {
    a.cmp_spec(&b) != Ordering::Greater
}

/// Facts about a total order that the algorithms use: `leq` is total and
/// transitive, and the comparison operators agree with it.
pub proof fn lemma_total_order<T: Ord>()
    requires
        total_order::<T>(),
    ensures
        forall|a: T, b: T| #[trigger] leq(a, b) || leq(b, a),
        forall|a: T| #[trigger] leq(a, a),
        forall|a: T, b: T, c: T| #[trigger] leq(a, b) && #[trigger] leq(b, c) ==> leq(a, c),
        forall|a: T, b: T| #[trigger] leq(a, b) && leq(b, a) ==> a == b,
        T::obeys_partial_cmp_spec(),
        forall|a: T, b: T| #[trigger] a.partial_cmp_spec(&b) == Some(a.cmp_spec(&b)),
{
    reveal(obeys_eq_spec_properties);
    reveal(obeys_partial_cmp_spec_properties);
    reveal(obeys_cmp_partial_ord);
    reveal(obeys_cmp_ord);
    reveal(obeys_concrete_eq);
    assert forall|a: T, b: T| #[trigger] a.partial_cmp_spec(&b) == Some(a.cmp_spec(&b)) by {}
    assert forall|a: T, b: T| #[trigger] leq(a, b) && leq(b, a) implies a == b by {
        assert(a.partial_cmp_spec(&b) == Some(a.cmp_spec(&b)));
        assert(b.partial_cmp_spec(&a) == Some(b.cmp_spec(&a)));
    }
    assert forall|a: T, b: T| #[trigger] leq(a, b) || leq(b, a) by {
        assert(a.partial_cmp_spec(&b) == Some(a.cmp_spec(&b)));
        assert(b.partial_cmp_spec(&a) == Some(b.cmp_spec(&a)));
    }
    assert forall|a: T| #[trigger] leq(a, a) by {
        assert(a.partial_cmp_spec(&a) == Some(a.cmp_spec(&a)));
    }
    assert forall|a: T, b: T, c: T| #[trigger] leq(a, b) && #[trigger] leq(b, c) implies leq(a, c) by {
        assert(a.partial_cmp_spec(&b) == Some(a.cmp_spec(&b)));
        assert(b.partial_cmp_spec(&c) == Some(b.cmp_spec(&c)));
        assert(a.partial_cmp_spec(&c) == Some(a.cmp_spec(&c)));
        assert(c.partial_cmp_spec(&a) == Some(c.cmp_spec(&a)));
        assert(b.partial_cmp_spec(&a) == Some(b.cmp_spec(&a)));
        assert(c.partial_cmp_spec(&b) == Some(c.cmp_spec(&b)));
    }
}

/// `a > b`, through `T`'s comparison operator.
pub fn is_greater<T: Ord>(a: &T, b: &T) -> (r: bool)
    requires
        total_order::<T>(),
    ensures
        r == !leq(*a, *b),
{
    proof {
        lemma_total_order::<T>();
    }
    let r = *a > *b;
    assert(r == (a.partial_cmp_spec(b) == Some(Ordering::Greater)));
    r
}


/// `a == b`, through `T`'s equality operator.
pub fn is_equal<T: Ord>(a: &T, b: &T) -> (r: bool)
    requires
        total_order::<T>(),
    ensures
        r == (*a == *b),
{
    proof {
        reveal(obeys_concrete_eq);
    }
    *a == *b
}

/// `usize` is totally ordered.
pub proof fn lemma_usize_total_order()
    ensures
        total_order::<usize>(),
{
    broadcast use vstd::laws_cmp::group_laws_cmp, vstd::laws_eq::group_laws_eq;
}

/// `i32` is totally ordered.
pub proof fn lemma_i32_total_order()
    ensures
        total_order::<i32>(),
{
    broadcast use vstd::laws_cmp::group_laws_cmp, vstd::laws_eq::group_laws_eq;
}

} // verus!
