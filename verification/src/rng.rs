use vstd::prelude::*;

verus! {

/// `fastrand::u32(0..bound)`: a random number below `bound`. The crate panics
/// on an empty range, so `bound` must be positive. Which number comes back
/// rests on the generator's state and is not stated.
#[verifier::external_body]
pub(crate) fn random_below(bound: u32) -> (r: u32)
    requires
        bound > 0,
    ensures
        r < bound,
{
    fastrand::u32(0..bound)
}

} // verus!
