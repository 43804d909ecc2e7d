//! Random values from the `rand` crate.

use vstd::prelude::*;

verus! {

/// `rand::random`: sixteen random bytes. Any value can come, so nothing is
/// claimed of it.
#[verifier::external_body]
pub(crate) fn random_token() -> [u8; 16] {
    rand::random()
}

/// `rand::random`: twelve random bytes. Any value can come, so nothing is
/// claimed of it.
#[verifier::external_body]
pub(crate) fn random_transaction() -> [u8; 12] {
    rand::random()
}

/// `Rng::gen_range` on the thread's generator: a number below `n`. Any such
/// number can come.
#[verifier::external_body]
pub(crate) fn random_below(n: usize) -> (r: usize)
    requires
        n > 0,
    ensures
        r < n,
{
    rand::Rng::gen_range(&mut rand::thread_rng(), 0..n)
}

/// `Uuid::new_v4` of the `uuid` crate: the bytes of a random identifier.
/// Nothing is claimed of them.
#[verifier::external_body]
pub(crate) fn random_uuid() -> [u8; 16] {
    uuid::Uuid::new_v4().into_bytes()
}

} // verus!
