//! The random draws that the mesh bookkeeping makes.
use rand::rngs::ThreadRng;
use rand::Rng;
use vstd::prelude::*;

verus! {

/// The thread-local generator of the `rand` crate.
#[verifier::external_type_specification]
#[verifier::external_body]
pub struct ExThreadRng(ThreadRng);

/// Draws with `rand::Rng::gen_range` from the half-open range `low..high`.
/// `rand` documents that the value lies in the range and that the call
/// panics on an empty range, which `requires` rules out. Which value of the
/// range comes back is not stated: it depends on the generator's state.
#[verifier::external_body]
pub(crate) fn gen_range_u32(rng: &mut ThreadRng, low: u32, high: u32) -> (r: u32)
    requires
        low < high,
    ensures
        low <= r < high,
{
    rng.gen_range(low..high)
}

} // verus!
