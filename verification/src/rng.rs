//! Randomness, drawn from the process-wide thread-local generator of the
//! `rand` crate. Nothing is assumed about any outcome beyond its range, so
//! everything proved about the callers holds for every outcome.

use vstd::prelude::*;

verus! {

/// Relies on `rand::Rng::gen::<bool>`: a fair coin flip. Nothing is promised
/// of the outcome.
#[verifier::external_body]
pub(crate) fn coin() -> bool {
    rand::Rng::gen::<bool>(&mut rand::thread_rng())
}

/// Relies on `rand::Rng::gen_ratio`: true with probability `num / den`; the
/// call panics when `den == 0` or `num > den`, so those inputs are excluded.
/// Its `Bernoulli` documents the two certain cases: a ratio of `num == den`
/// always returns true, and `num == 0` always returns false. Nothing is
/// promised of any other outcome.
#[verifier::external_body]
pub(crate) fn chance(num: u32, den: u32) -> (r: bool)
    requires
        0 < den,
        num <= den,
    ensures
        num == den ==> r,
        num == 0 ==> !r,
{
    rand::Rng::gen_ratio(&mut rand::thread_rng(), num, den)
}

/// Relies on `rand::Rng::gen_range` on a half-open range: a value uniform in
/// `[lo, hi)`; the call panics on an empty range, so `lo < hi` is required.
#[verifier::external_body]
pub(crate) fn pick_in_range(lo: i32, hi: i32) -> (r: i32)
    requires
        lo < hi,
    ensures
        lo <= r < hi,
{
    rand::Rng::gen_range(&mut rand::thread_rng(), lo..hi)
}

} // verus!
