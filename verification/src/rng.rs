//! The random-number source used to seed clustering, behind trusted
//! declarations. Callers pass a `rand::rngs::StdRng` into the clustering
//! entry point so a fixed seed gives a reproducible run.

use vstd::prelude::*;

verus! {

#[verifier::external_type_specification]
#[verifier::external_body]
pub struct ExStdRng(rand::rngs::StdRng);

/// Relies on rand's `Rng::gen_range`: returns a value drawn uniformly from
/// `0..bound`. Nothing more is promised of the draw; every caller must hold
/// for any value below the bound.
#[verifier::external_body]
pub(crate) fn gen_index(rng: &mut rand::rngs::StdRng, bound: usize) -> (r: usize)
    requires
        bound >= 1,
    ensures
        r < bound,
{
    rand::Rng::gen_range(rng, 0..bound)
}

} // verus!
