//! The crate's one source of randomness, behind a trusted wrapper.
use rand::Rng;
use vstd::prelude::*;

verus! {

/// Relies on `rand::Rng::gen_range` called on `rand::thread_rng()`: for a
/// non-empty range `0..n` it returns a uniformly distributed value of the
/// range and panics only when the range is empty, which the precondition
/// rules out. Nothing is assumed about which value comes back.
#[verifier::external_body]
pub(crate) fn random_below(n: u128) -> (r: u128)
    requires
        n >= 1,
    ensures
        r < n,
{
    let mut rng = rand::thread_rng();
    rng.gen_range(0..n)
}

} // verus!
