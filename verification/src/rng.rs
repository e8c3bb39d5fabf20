//! The generator's only source of randomness, behind one trusted wrapper.
//! Nothing is assumed of a draw beyond its range, so everything proved of
//! the generator holds for every run, seeded or not.

use rand::Rng;
use vstd::prelude::*;

verus! {

/// Relies on `rand::Rng::gen_range`: a draw from `0..n`, which is non-empty.
#[verifier::external_body]
pub(crate) fn rand_below(n: usize) -> (r: usize)
    requires
        n > 0,
    ensures
        r < n,
{
    rand::thread_rng().gen_range(0..n)
}

} // verus!
