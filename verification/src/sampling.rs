//! The random source and the clock.
//!
//! Nothing in this file is proved: it holds the calls into `rand`,
//! `rand_chacha`, `rand_distr` and `std::time`, each behind a contract that
//! says no more than the called function promises.

use vstd::prelude::*;

verus! {

/// `rand_chacha::ChaCha20Rng`, the generator that all draws come from. What
/// is inside it is not modelled.
#[verifier::external_type_specification]
#[verifier::external_body]
pub struct ExChaCha20Rng(rand_chacha::ChaCha20Rng);

/// `std::time::SystemTime`, a reading of the system clock.
#[verifier::external_type_specification]
#[verifier::external_body]
pub struct ExSystemTime(std::time::SystemTime);

/// The generator that `ChaCha20Rng::from_seed` makes of a key of 32 bytes:
/// the key alone decides it.
pub uninterp spec fn keyed_rng(key: Seq<u8>) -> rand_chacha::ChaCha20Rng;

/// Calls `ChaCha20Rng::from_seed` (`rand::SeedableRng`), which sets the
/// cipher up with `key`, a zero counter and a zero stream: the same key
/// gives the same generator.
#[verifier::external_body]
pub(crate) fn rng_from_key(key: [u8; 32]) -> (rng: rand_chacha::ChaCha20Rng)
    ensures
        rng == keyed_rng(key@),
{
    rand::SeedableRng::from_seed(key)
}

/// Draws from `rand_distr::Uniform::new_inclusive(low, high)` with
/// `Distribution::sample`. The constructor panics where `low > high`; the
/// sample is `low` plus an offset below the width of the range, so it lies
/// between the two bounds, both included. Which value comes, and what the
/// draw leaves of the generator, is not stated.
#[verifier::external_body]
pub(crate) fn uniform_usize(rng: &mut rand_chacha::ChaCha20Rng, low: usize, high: usize) -> (value:
    usize)
    requires
        low <= high,
    ensures
        low <= value <= high,
{
    rand_distr::Distribution::sample(&rand_distr::Uniform::new_inclusive(low, high), rng)
}

/// As `uniform_usize`, for signed bounds.
#[verifier::external_body]
pub(crate) fn uniform_isize(rng: &mut rand_chacha::ChaCha20Rng, low: isize, high: isize) -> (value:
    isize)
    requires
        low <= high,
    ensures
        low <= value <= high,
{
    rand_distr::Distribution::sample(&rand_distr::Uniform::new_inclusive(low, high), rng)
}

/// Calls `SystemTime::now`, which reads the system clock.
#[verifier::external_body]
pub(crate) fn clock_now() -> std::time::SystemTime {
    std::time::SystemTime::now()
}

/// Calls `SystemTime::duration_since` with `UNIX_EPOCH`, which gives the
/// time from the epoch to `time`, and fails where `time` lies before it.
#[verifier::external_body]
pub(crate) fn since_epoch(time: &std::time::SystemTime) -> Option<std::time::Duration> {
    time.duration_since(std::time::UNIX_EPOCH).ok()
}

/// Calls `Duration::as_millis`, the whole milliseconds in `span`.
#[verifier::external_body]
pub(crate) fn whole_millis(span: &std::time::Duration) -> u128 {
    span.as_millis()
}

} // verus!
