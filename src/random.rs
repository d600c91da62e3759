use vstd::prelude::*;
use rand::Rng;

verus! {

/// Relies on `rand::thread_rng().gen_range(0..bound)`: a draw from `0..bound`,
/// which panics only on an empty range.
#[verifier::external_body]
pub(crate) fn random_below(bound: usize) -> (r: usize)
    requires
        bound > 0,
    ensures
        r < bound,
{
    rand::thread_rng().gen_range(0..bound)
}

} // verus!
