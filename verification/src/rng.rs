use vstd::prelude::*;
use rand::Rng;

verus! {

/// rand's thread-local generator, declared opaquely so a handle to it can
/// be threaded through signatures; callers create one with
/// `rand::thread_rng()`.
#[verifier::external_type_specification]
#[verifier::external_body]
pub struct ExThreadRng(rand::rngs::ThreadRng);

/// Relies on rand::Rng::gen_range(low, high): returns a uniformly
/// distributed value in [low, high) and panics when low >= high.
#[verifier::external_body]
pub(crate) fn rng_range_usize(rng: &mut rand::rngs::ThreadRng, low: usize, high: usize) -> (r: usize)
    requires
        low < high,
    ensures
        low <= r < high,
{
    rng.gen_range(low, high)
}

/// Relies on rand::Rng::gen_range(low, high): returns a uniformly
/// distributed value in [low, high) and panics when low >= high.
#[verifier::external_body]
pub(crate) fn rng_range_i64(rng: &mut rand::rngs::ThreadRng, low: i64, high: i64) -> (r: i64)
    requires
        low < high,
    ensures
        low <= r < high,
{
    rng.gen_range(low, high)
}

} // verus!
