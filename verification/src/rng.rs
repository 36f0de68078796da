use vstd::prelude::*;

use rand::Rng;

verus! {

/// Calls `rand::random::<usize>()`, a value drawn from the thread-local
/// generator. Nothing is claimed of the value: any `usize` may come back.
#[verifier::external_body]
pub(crate) fn random_usize() -> usize {
    rand::random::<usize>()
}

/// Calls `rand::thread_rng().gen_range(low..high)`. The claim, from the
/// documentation of `Rng::gen_range`, is that the value lies in `low..high`;
/// the range must not be empty (the call panics on an empty range).
#[verifier::external_body]
pub(crate) fn random_range(low: usize, high: usize) -> (r: usize)
    requires
        low < high,
    ensures
        low <= r < high,
{
    rand::thread_rng().gen_range(low..high)
}

} // verus!
