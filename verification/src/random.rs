//! The random source for the positions of records: the `rand` crate's
//! generator of the calling thread. What stands here is believed, not proved.

use rand::rngs::ThreadRng;
use rand::Rng;
use vstd::prelude::*;

verus! {

/// `rand::rngs::ThreadRng`, a handle to the generator of the calling thread.
/// Nothing of its state is known here.
#[verifier::external_type_specification]
#[verifier::external_body]
pub struct ExThreadRng(ThreadRng);

/// `rand::thread_rng` returns the handle of the calling thread's generator.
/// The thread's first call seeds the generator from the operating system,
/// and panics where the system gives no seed. Nothing is claimed of the
/// handle.
pub assume_specification[ rand::thread_rng ]() -> (rng: ThreadRng)
;

/// `Rng::gen_range` on the inclusive range from `low` to `high`. With
/// `low <= high` the range is not empty, so the call returns, and what it
/// returns lies in the range. Which value of the range comes back is left
/// open.
#[verifier::external_body]
pub(crate) fn random_between(rng: &mut ThreadRng, low: usize, high: usize) -> (drawn: usize)
    requires
        low <= high,
    ensures
        low <= drawn <= high,
{
    rng.gen_range(low..=high)
}

} // verus!
