//! The injectable source of randomness.
//!
//! Every random decision in the simulation draws from an explicitly
//! owned, seedable generator, so a run is reproducible from its seed.
//! The generator itself comes from the `rand` crate and is trusted;
//! everything computed from its draws is verified.

use vstd::prelude::*;

use rand::Rng;
use rand::SeedableRng;

use crate::numeric::SCALE;

verus! {

/// The seedable pseudo-random generator behind every draw.
#[verifier::external_type_specification]
#[verifier::external_body]
pub struct ExStdRng(rand::rngs::StdRng);

/// Relies on rand::SeedableRng::seed_from_u64: builds a generator from
/// a 64-bit seed.  Nothing is promised about the state it produces.
#[verifier::external_body]
pub fn rng_from_seed(seed: u64) -> rand::rngs::StdRng {
    rand::rngs::StdRng::seed_from_u64(seed)
}

/// Relies on rand::Rng::random_range: a draw from `0..bound` lies below
/// `bound` (the range must be nonempty, or the call panics).  Which
/// value comes back is random, so nothing more is promised.
#[verifier::external_body]
pub fn rng_below(rng: &mut rand::rngs::StdRng, bound: u64) -> (r: u64)
    requires
        bound >= 1,
    ensures
        r < bound,
{
    rng.random_range(0..bound)
}

/// Number of uniform draws summed to approximate one normal draw.
pub const NORMAL_DRAWS: u64 = 12;

/// Half the span of the summed draws, in fixed-point units: the sum of
/// twelve uniforms on [0, 1] is centred on 6.
pub const NORMAL_HALF_SPAN: u64 = 6 * SCALE;

/// One draw from an approximate normal distribution with the given
/// fixed-point mean and standard deviation, clamped into [0, SCALE].
/// The sum of twelve independent uniform draws on [0, 1], less 6, is
/// close to a standard normal deviate; the result is
/// `mean + sd * deviate`, so the effective distribution is a truncated
/// bell curve over the unit interval.
pub fn sample_normal(mean: u64, sd: u64, rng: &mut rand::rngs::StdRng) -> (r: u64)
    requires
        mean <= SCALE,
        sd <= SCALE,
    ensures
        r <= SCALE,
{
    let mut sum: u64 = 0;
    let mut i: u64 = 0;
    while i < NORMAL_DRAWS
        invariant
            0 <= i <= NORMAL_DRAWS,
            sum <= i * (SCALE as int),
        decreases NORMAL_DRAWS - i,
    {
        let d: u64 = rng_below(rng, SCALE + 1);
        proof {
            assert(sum + d <= (i + 1) * (SCALE as int)) by (nonlinear_arith)
                requires sum <= i * (SCALE as int), d <= SCALE, i >= 0;
        }
        sum = sum + d;
        i = i + 1;
    }
    let deviate: i128 = sum as i128 - NORMAL_HALF_SPAN as i128;
    proof {
        assert(-6 * (SCALE as int) <= deviate <= 6 * (SCALE as int));
        assert(-6 * (SCALE as int) * SCALE <= sd as int * deviate <= 6 * (SCALE as int) * SCALE)
            by (nonlinear_arith)
            requires 0 <= sd <= SCALE, -6 * (SCALE as int) <= deviate <= 6 * (SCALE as int);
        assert(-6 * (SCALE as int) <= sd as int * deviate / (SCALE as int) <= 6 * (SCALE as int))
            by (nonlinear_arith)
            requires
                -6 * (SCALE as int) * SCALE <= sd as int * deviate <= 6 * (SCALE as int) * SCALE,
                SCALE > 0;
    }
    let shifted: i128 = mean as i128 + (sd as i128 * deviate) / (SCALE as i128);
    if shifted < 0 {
        0
    } else if shifted > SCALE as i128 {
        SCALE
    } else {
        shifted as u64
    }
}

} // verus!
