use vstd::prelude::*;

use rand::Rng;


verus! {

#[verifier::external_type_specification]
#[verifier::external_body]
pub struct ExStdRng(rand::rngs::StdRng);

/// Relies on rand's `Rng::gen_range` over `0..n`: a value drawn from below `n`
/// (it panics on an empty range, hence `n > 0`).
#[verifier::external_body]
pub(crate) fn below(rng: &mut rand::rngs::StdRng, n: usize) -> (r: usize)
    requires
        n > 0,
    ensures
        r < n,
{
    rng.gen_range(0..n)
}

} // verus!
