//! Trusted draws from the process-wide random number generator.

use vstd::prelude::*;

verus! {

/// Relies on rand's `thread_rng` and `Rng::gen_range`: for a non-empty
/// range `0..n` the draw returns a value of the range, so below `n`.
/// Nothing more is assumed of the draw; in particular two draws on the
/// same bound may differ.
#[verifier::external_body]
pub(crate) fn random_below(n: u64) -> (r: u64)
    requires
        n > 0,
    ensures
        r < n,
{
    rand::Rng::gen_range(&mut rand::thread_rng(), 0..n)
}

} // verus!
