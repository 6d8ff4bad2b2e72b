//! Random numbers.

use rand::Rng;
use vstd::prelude::*;

verus! {

/// `rand::Rng::gen_range` on the thread's generator and an inclusive range. The
/// number lies in the range; an empty range, on which the call panics, is left
/// out.
#[verifier::external_body]
pub(crate) fn random_in(low: u64, high: u64) -> (n: u64)
    requires
        low <= high,
    ensures
        low <= n <= high,
{
    rand::thread_rng().gen_range(low..=high)
}

/// `rand::random` for a 64-bit number. Nothing is promised of which one comes.
#[verifier::external_body]
pub(crate) fn random_number() -> (n: u64) {
    rand::random::<u64>()
}

} // verus!
