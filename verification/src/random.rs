//! Random numbers, as the routing table draws them.

use vstd::prelude::*;
use rand::Rng;

verus! {

/// Draws a byte with `rand::random::<u8>()`, from the thread-local
/// generator.
///
/// Nothing is stated of the result: it is random.
#[verifier::external_body]
pub(crate) fn random_byte() -> (r: u8) {
    rand::random::<u8>()
}

/// Draws a number in `[lower, upper)` with `rand::Rng::gen_range` on the
/// thread-local generator, which panics on an empty range.
///
/// The result is in the range; which one it is, is random.
#[verifier::external_body]
pub(crate) fn random_in_range(lower: u16, upper: u16) -> (r: u16)
    requires
        lower < upper,
    ensures
        lower <= r < upper,
{
    rand::thread_rng().gen_range(lower..upper)
}

} // verus!
