use vstd::prelude::*;
use rand::Rng;

verus! {

/// Draws an index below `bound` with `rand::Rng::gen_range(0..bound)` on the
/// thread-local generator. Only the range of the result is stated: the value
/// depends on the generator's state.
#[verifier::external_body]
pub(crate) fn random_index(bound: usize) -> (r: usize)
    requires
        bound > 0,
    ensures
        r < bound,
{
    rand::thread_rng().gen_range(0..bound)
}

/// Draws `true` with chance `numerator / denominator` with
/// `rand::Rng::gen_ratio` on the thread-local generator. As its documentation
/// says, a zero numerator always gives `false` and a numerator equal to the
/// denominator always gives `true`; otherwise the value depends on the
/// generator's state.
#[verifier::external_body]
pub(crate) fn random_ratio(numerator: u32, denominator: u32) -> (b: bool)
    requires
        0 < denominator,
        numerator <= denominator,
    ensures
        numerator == 0 ==> !b,
        numerator == denominator ==> b,
{
    rand::thread_rng().gen_ratio(numerator, denominator)
}

} // verus!
