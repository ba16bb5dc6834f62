//! The crate's single source of true randomness: thin trusted wrappers
//! around the `rand` crate, stating no more than its documentation does.

use vstd::prelude::*;

verus! {

/// Relies on `rand::Rng::gen_range` over `rand::thread_rng`: a draw from
/// `lo..hi`, which lies in that half-open range; the range must not be
/// empty, as `gen_range` panics on one.
#[verifier::external_body]
pub(crate) fn rand_range_i32(lo: i32, hi: i32) -> (r: i32)
    requires
        lo < hi,
    ensures
        lo <= r < hi,
{
    rand::Rng::gen_range(&mut rand::thread_rng(), lo..hi)
}

/// Relies on `rand::Rng::gen` over `rand::thread_rng`: an arbitrary
/// 32-bit value, of which nothing is promised.
#[verifier::external_body]
pub(crate) fn rand_u32() -> (r: u32) {
    rand::Rng::gen(&mut rand::thread_rng())
}

} // verus!
