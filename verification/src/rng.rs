use rand::rngs::ThreadRng;
use rand::Rng;
use vstd::prelude::*;

verus! {

/// rand's thread-local generator, carried through the library untouched.
#[verifier::external_type_specification]
#[verifier::external_body]
pub struct ExThreadRng(ThreadRng);

/// Calls rand's `Rng::gen_range` with the inclusive range `low..=high` on
/// the thread-local generator. rand panics on an empty range and otherwise
/// returns a value of the range; which one is left to chance, so nothing
/// more is claimed.
#[verifier::external_body]
pub(crate) fn gen_range_inclusive(rng: &mut ThreadRng, low: usize, high: usize) -> (r: usize)
    requires
        low <= high,
    ensures
        low <= r <= high,
{
    rng.gen_range(low..=high)
}

} // verus!
