//! Random numbers.
//!
//! The collapse draws its random numbers from the standard generator of the
//! `rand` crate. Nothing is proved of the numbers but the range in which they
//! lie: every function that uses one is verified for each number of that
//! range.

use vstd::prelude::*;
use rand::distributions::Distribution;
use rand::distributions::Uniform;
use rand::rngs::StdRng;
use rand::Rng;

verus! {

/// The standard generator of random numbers of the `rand` crate.
#[verifier::external_type_specification]
#[verifier::external_body]
pub struct ExStdRng(StdRng);

/// Draws a number from `low` up to, but not including, `high`.
///
/// Calls `Rng::gen_range` of the `rand` crate on the half-open range. That
/// function panics on an empty range, which the precondition excludes, and
/// returns a number of the range.
#[verifier::external_body]
pub(crate) fn gen_range_u32(rng: &mut StdRng, low: u32, high: u32) -> (r: u32)
    requires
        low < high,
    ensures
        low <= r < high,
{
    rng.gen_range(low..high)
}

/// Draws a small number from `low` up to, but not including, `high`.
///
/// Calls `Uniform::new` of the `rand` crate on the two bounds and samples
/// the distribution once. `Uniform::new` panics unless `low` is below
/// `high`, which the precondition states; the sample lies in the half-open
/// range between the bounds.
#[verifier::external_body]
pub(crate) fn sample_uniform_u8(rng: &mut StdRng, low: u8, high: u8) -> (r: u8)
    requires
        low < high,
    ensures
        low <= r < high,
{
    Uniform::<u8>::new(low, high).sample(rng)
}

/// Draws a number from `low` up to, but not including, `high`.
///
/// Calls `Uniform::new` of the `rand` crate on the two bounds and samples
/// the distribution once. `Uniform::new` panics unless `low` is below
/// `high`, which the precondition states; the sample lies in the half-open
/// range between the bounds.
#[verifier::external_body]
pub(crate) fn sample_uniform_usize(rng: &mut StdRng, low: usize, high: usize) -> (r: usize)
    requires
        low < high,
    ensures
        low <= r < high,
{
    Uniform::<usize>::new(low, high).sample(rng)
}

} // verus!
