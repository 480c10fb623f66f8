use vstd::prelude::*;
use rand::RngExt;

verus! {

/// Relies on rand::RngExt::random_range over `0..n`: it returns a value drawn
/// from that range, and panics only when the range is empty, which `n > 0`
/// rules out. Nothing more is assumed of the outcome.
#[verifier::external_body]
pub(crate) fn random_below(n: usize) -> (r: usize)
    requires
        n > 0,
    ensures
        r < n,
{
    rand::rng().random_range(0..n)
}

} // verus!
