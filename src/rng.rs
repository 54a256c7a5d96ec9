//! The source of randomness used when a particle respawns.
use vstd::prelude::*;

verus! {

/// Relies on rand::Rng::gen_range on rand::thread_rng: a uniformly drawn value
/// of the half-open range `[lo, hi)`; it panics on an empty range.
#[verifier::external_body]
pub(crate) fn draw_in(lo: i64, hi: i64) -> (r: i64)
    requires
        lo < hi,
    ensures
        lo <= r < hi,
{
    rand::Rng::gen_range(&mut rand::thread_rng(), lo..hi)
}

} // verus!
