//! The random source of the growth.
use vstd::prelude::*;
use rand::Rng;
use rand::rngs::StdRng;

verus! {

#[verifier::external_type_specification]
#[verifier::external_body]
pub struct ExStdRng(rand::rngs::StdRng);

/// Relies on rand's `Rng::gen_range` over `0..n`, which yields a value of that
/// range and panics only when the range is empty.
#[verifier::external_body]
pub(crate) fn draw_below(rng: &mut StdRng, n: u64) -> (r: u64)
    requires
        n > 0,
    ensures
        r < n,
{
    rng.gen_range(0..n)
}

} // verus!
