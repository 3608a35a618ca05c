use vstd::prelude::*;
use rand::RngExt;

verus! {

/// A random integer in `[min, max)`, drawn from the thread-local generator
/// (`rand::rng().random_range(min..max)`, which panics on an empty range).
/// The contract states only that the value lies in the range: which value
/// comes out is left to chance.
#[verifier::external_body]
pub fn range_int_unseeded(min: i32, max: i32) -> (r: i32)
    requires
        min < max,
    ensures
        min <= r < max,
{
    rand::rng().random_range(min..max)
}

} // verus!
