//! The random choices that the randomized algorithms make.
use vstd::prelude::*;
use rand::Rng;

verus! {

/// A random index in `[low, high)`, drawn with
/// `rand::thread_rng().gen_range(low..high)` (uniformly, per the `rand`
/// documentation).  The contract states only that the value lies in the
/// range: which value comes back is left to chance.  `gen_range` panics on an
/// empty range, hence `low < high`.
#[verifier::external_body]
pub(crate) fn random_index(low: usize, high: usize) -> (r: usize)
    requires
        low < high,
    ensures
        low <= r < high,
{
    rand::thread_rng().gen_range(low..high)
}

} // verus!
