//! The random source: a ChaCha20 generator from the rand ecosystem,
//! reached through trusted wrappers.
//!
//! A draw is constrained only by its bound: to the verifier two draws on
//! equal inputs may differ, which is exactly what a random source is.

use vstd::prelude::*;

verus! {

#[verifier::external_type_specification]
#[verifier::external_body]
pub struct ExChaCha20Rng(rand_chacha::ChaCha20Rng);

/// Relies on rand_core's `SeedableRng::seed_from_u64` for `ChaCha20Rng`:
/// builds a generator whose stream is a function of the seed alone.
#[verifier::external_body]
pub(crate) fn rng_from_seed(seed: u64) -> rand_chacha::ChaCha20Rng {
    <rand_chacha::ChaCha20Rng as rand::SeedableRng>::seed_from_u64(seed)
}

/// Relies on `rand::Rng::gen_range` over `0..bound as u32` — the draw that
/// rand 0.8's slice `choose` makes for slices no longer than `u32::MAX`:
/// the result is uniform below the bound. An empty range would panic and
/// is excluded by the precondition.
#[verifier::external_body]
pub(crate) fn rng_index(rng: &mut rand_chacha::ChaCha20Rng, bound: usize) -> (r: usize)
    requires
        0 < bound <= u32::MAX as usize,
    ensures
        r < bound,
{
    rand::Rng::gen_range(rng, 0..bound as u32) as usize
}

/// Relies on `rand::Rng::gen_range` over `lo..hi` at `usize`: the result
/// is uniform within the range. An empty range would panic and is excluded
/// by the precondition.
#[verifier::external_body]
pub(crate) fn rng_range(rng: &mut rand_chacha::ChaCha20Rng, lo: usize, hi: usize) -> (r: usize)
    requires
        lo < hi,
    ensures
        lo <= r < hi,
{
    rand::Rng::gen_range(rng, lo..hi)
}

/// Provide the default random number generator. This generator is seeded
/// and will always produce the same sequence of numbers.
pub(crate) fn default_rng() -> rand_chacha::ChaCha20Rng {
    rng_from_seed(97)
}

/// The index draw of rand 0.8's slice `choose`: a `u32` draw when the
/// bound fits in `u32`, a `usize` draw otherwise.
pub(crate) fn gen_index(rng: &mut rand_chacha::ChaCha20Rng, bound: usize) -> (r: usize)
    requires
        0 < bound,
    ensures
        r < bound,
{
    if bound <= u32::MAX as usize {
        rng_index(rng, bound)
    } else {
        rng_range(rng, 0, bound)
    }
}

} // verus!
