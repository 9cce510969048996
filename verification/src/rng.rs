use vstd::prelude::*;

verus! {

/// Relies on rand::random_range: a draw from the half-open range below
/// `n`, so the result is always less than `n`; the range must not be
/// empty, since rand panics on an empty range.
#[verifier::external_body]
pub(crate) fn random_below(n: u32) -> (r: u32)
    requires
        n >= 1,
    ensures
        r < n,
{
    rand::random_range(0..n)
}

} // verus!
