use vstd::prelude::*;

use rand::RngExt;

verus! {

#[verifier::external_type_specification]
#[verifier::external_body]
pub struct ExThreadRng(rand::rngs::ThreadRng);

/// Relies on rand::rng: a handle to the thread-local random generator.
#[verifier::external_body]
pub(crate) fn new_rng() -> rand::rngs::ThreadRng {
    rand::rng()
}

/// Relies on rand::RngExt::random_range over `0..bound`: the draw lies in the
/// half-open range, so strictly below the bound. The call panics only on an
/// empty range, which the precondition rules out.
#[verifier::external_body]
pub(crate) fn rand_below(rng: &mut rand::rngs::ThreadRng, bound: usize) -> (r: usize)
    requires
        bound > 0,
    ensures
        r < bound,
{
    rng.random_range(0..bound)
}

/// Relies on rand::RngExt::random at type `bool`: a random draw about which
/// nothing further can be promised.
#[verifier::external_body]
pub(crate) fn rand_bool(rng: &mut rand::rngs::ThreadRng) -> bool {
    rng.random()
}

} // verus!
