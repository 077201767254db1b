//! The two points where the library draws randomness, as trusted wrappers
//! around the `rand` crate. Everything that consumes a draw is verified for
//! every value the contracts here admit.

use vstd::prelude::*;

verus! {

/// Relies on rand::Rng::gen_range: returns a value inside the given range,
/// and panics only when the range is empty.
#[verifier::external_body]
pub(crate) fn pick_index(n: usize) -> (i: usize)
    requires
        n > 0,
    ensures
        i < n,
{
    rand::Rng::gen_range(&mut rand::thread_rng(), 0..n)
}

/// Relies on rand::seq::SliceRandom::shuffle: reorders the slice in place,
/// keeping exactly the same elements.
#[verifier::external_body]
pub(crate) fn shuffle(v: &mut Vec<usize>)
    ensures
        final(v)@.to_multiset() == old(v)@.to_multiset(),
{
    rand::seq::SliceRandom::shuffle(v.as_mut_slice(), &mut rand::thread_rng());
}

} // verus!
