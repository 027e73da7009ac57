//! Uniform randomness for question selection, behind a trusted wrapper.

use vstd::prelude::*;
use rand::Rng;

verus! {

/// Relies on `rand::Rng::gen_range` over `0..n`, which returns a value of
/// that range; the range is nonempty since `n > 0`. Nothing more is assumed:
/// two calls on the same `n` may differ.
#[verifier::external_body]
pub(crate) fn random_index(n: usize) -> (r: usize)
    requires
        n > 0,
    ensures
        r < n,
{
    rand::thread_rng().gen_range(0..n)
}

} // verus!
