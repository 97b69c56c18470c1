use vstd::prelude::*;

verus! {

/// fastrand's random number generator, used as an opaque value.
#[verifier::external_type_specification]
#[verifier::external_body]
pub struct ExRng(fastrand::Rng);

/// The generator that `fastrand::Rng::with_seed` builds from `seed`.
pub uninterp spec fn seeded(seed: u64) -> fastrand::Rng;

/// Calls `fastrand::Rng::with_seed`. Its source builds the generator from
/// the seed alone (the seed becomes its state), so the result is named
/// `seeded(seed)`; nothing more is stated of the generator, which the
/// library only hands to the draws below.
#[verifier::external_body]
pub(crate) fn rng_with_seed(seed: u64) -> (r: fastrand::Rng)
    ensures
        r == seeded(seed),
{
    fastrand::Rng::with_seed(seed)
}

/// Calls `fastrand::Rng::usize` with the range `low..high`. Its source maps
/// the range to its bounds, panics when it is empty, and otherwise returns
/// `low` plus a value below the range's length: a number in `low..high`.
/// Which number comes out is not stated.
#[verifier::external_body]
pub(crate) fn rng_usize(rng: &mut fastrand::Rng, low: usize, high: usize) -> (r: usize)
    requires
        low < high,
    ensures
        low <= r < high,
{
    rng.usize(low..high)
}

/// Calls `fastrand::Rng::u64` with the range `low..high`: a number in
/// `low..high`, as for `rng_usize`. Which number comes out is not stated.
#[verifier::external_body]
pub(crate) fn rng_u64(rng: &mut fastrand::Rng, low: u64, high: u64) -> (r: u64)
    requires
        low < high,
    ensures
        low <= r < high,
{
    rng.u64(low..high)
}

/// Calls `fastrand::Rng::bool`: a random `bool`. Which one comes out is
/// not stated.
#[verifier::external_body]
pub(crate) fn rng_bool(rng: &mut fastrand::Rng) -> bool {
    rng.bool()
}

} // verus!
