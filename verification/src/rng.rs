//! Random numbers from the `rand` crate.
use vstd::prelude::*;
use rand::Rng;
use rand::rngs::ThreadRng;

verus! {

/// The thread-local generator of `rand`; opaque here.
#[verifier::external_type_specification]
#[verifier::external_body]
pub struct ExThreadRng(rand::rngs::ThreadRng);

/// Calls `rand::thread_rng`, which hands out the thread's generator. Nothing
/// is stated of it: it is only passed on to [`gen_range_u8`]. (`rand` panics
/// here only if the operating system cannot seed the generator.)
#[verifier::external_body]
pub(crate) fn thread_rng() -> ThreadRng {
    rand::thread_rng()
}

/// Calls `Rng::gen_range` on `low..high`. As `rand` documents and its source
/// shows, the value lies in the half-open range; it panics on an empty
/// range, which `requires` leaves out. Which value comes is left open.
#[verifier::external_body]
pub(crate) fn gen_range_u8(rng: &mut ThreadRng, low: u8, high: u8) -> (r: u8)
    requires
        low < high,
    ensures
        low <= r < high,
{
    rng.gen_range(low..high)
}

/// Calls `rand::random::<usize>()`: any `usize` may come back, so nothing
/// is stated of the result.
#[verifier::external_body]
pub(crate) fn random_usize() -> usize {
    rand::random::<usize>()
}

} // verus!
