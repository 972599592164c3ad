//! Entropy of a cell, in fixed-point arithmetic.
//!
//! Entropies are kept as whole numbers of units of one hundred-thousandth.
//! The binary logarithm is taken exactly at powers of two and by linear
//! interpolation between them, so that it can be computed and compared with
//! integers alone, with the same result on every machine.

use vstd::prelude::*;

verus! {

/// Number of units that make up an entropy of one.
pub const ENTROPY_SCALE: u64 = 100_000;

/// Exclusive upper bound of the noise of a cell, in units.
pub const NOISE_RANGE: u8 = 124;

/// The largest power of two that is not above `n`, for `n` of at least one.
pub open spec fn spec_floor_pow2(n: nat) -> nat
    decreases n,
{
    if n <= 1 {
        1
    } else {
        2 * spec_floor_pow2(n / 2)
    }
}

/// The binary logarithm of `n`, rounded down, for `n` of at least one.
pub open spec fn spec_floor_log2(n: nat) -> nat
    decreases n,
{
    if n <= 1 {
        0
    } else {
        1 + spec_floor_log2(n / 2)
    }
}

/// The binary logarithm of `n` in units: exact where `n` is a power of two,
/// interpolated linearly between the two powers of two around `n` elsewhere,
/// rounded down. Zero for `n` of zero.
pub open spec fn spec_log2_scaled(n: nat) -> nat {
    if n == 0 {
        0
    } else {
        (spec_floor_log2(n) * ENTROPY_SCALE + ((n - spec_floor_pow2(n)) * ENTROPY_SCALE)
            / (spec_floor_pow2(n) as int)) as nat
    }
}

/// The weight of an option of the given count in the sum of logarithms of a
/// cell: the count multiplied by its logarithm.
pub open spec fn spec_weight_log(count: nat) -> nat {
    count * spec_log2_scaled(count)
}

/// Entropy of a cell in units: the logarithm of the sum of the weights of its
/// options, less the sum of their weighted logarithms divided by the sum of
/// their weights, never below zero, plus the noise of the cell. A cell
/// without weight has its noise as entropy.
pub open spec fn spec_entropy(weight_sum: nat, weight_log_sum: nat, noise: nat) -> nat {
    if weight_sum == 0 {
        noise
    } else if spec_log2_scaled(weight_sum) >= weight_log_sum / weight_sum {
        (spec_log2_scaled(weight_sum) - weight_log_sum / weight_sum + noise) as nat
    } else {
        noise
    }
}

/// The largest power of two that is not above `n` lies between half of `n`
/// and `n`, and the logarithm of a number below two to the `bits` is below
/// `bits`.
pub proof fn lemma_floor_pow2_bounds(n: nat, bits: nat)
    requires
        1 <= n,
        n < vstd::arithmetic::power2::pow2(bits),
    ensures
        spec_floor_pow2(n) <= n < 2 * spec_floor_pow2(n),
        spec_floor_log2(n) < bits,
    decreases n,
{
    vstd::arithmetic::power2::lemma2_to64();
    if n > 1 {
        vstd::arithmetic::power2::lemma_pow2_unfold(bits);
        lemma_floor_pow2_bounds(n / 2, (bits - 1) as nat);
    }
}

/// The logarithm in units of a number of 32 bits stays below 32 units of
/// scale.
pub proof fn lemma_log2_scaled_bound(n: nat)
    requires
        n <= u32::MAX,
    ensures
        spec_log2_scaled(n) < 32 * ENTROPY_SCALE,
{
    if n > 0 {
        vstd::arithmetic::power2::lemma2_to64();
        lemma_floor_pow2_bounds(n, 32);
        let p = spec_floor_pow2(n) as int;
        let e = spec_floor_log2(n) as int;
        let frac = ((n - p) * ENTROPY_SCALE) / p;
        assert((n - p) * ENTROPY_SCALE < p * ENTROPY_SCALE) by (nonlinear_arith)
            requires
                n - p < p,
        ;
        assert(frac < ENTROPY_SCALE) by {
            vstd::arithmetic::div_mod::lemma_div_by_multiple_is_strongly_ordered(
                (n - p) * ENTROPY_SCALE,
                p * ENTROPY_SCALE,
                ENTROPY_SCALE as int,
                p,
            );
            vstd::arithmetic::div_mod::lemma_div_by_multiple(ENTROPY_SCALE as int, p);
            assert(p * ENTROPY_SCALE == ENTROPY_SCALE * p) by (nonlinear_arith);
        }
        assert(e * ENTROPY_SCALE + frac < 32 * ENTROPY_SCALE) by (nonlinear_arith)
            requires
                0 <= e <= 31,
                frac < ENTROPY_SCALE,
        ;
    }
}

/// The binary logarithm of `n` in units.
pub fn log2_scaled(n: u32) -> (r: u64)
    ensures
        r == spec_log2_scaled(n as nat),
        r < 32 * ENTROPY_SCALE,
{
    proof {
        lemma_log2_scaled_bound(n as nat);
    }
    if n == 0 {
        return 0;
    }
    let mut rest: u32 = n;
    let mut exponent: u64 = 0;
    let mut power: u64 = 1;
    proof {
        vstd::arithmetic::power2::lemma2_to64();
        lemma_floor_pow2_bounds(n as nat, 32);
    }
    while rest > 1
        invariant
            1 <= rest <= n,
            spec_floor_log2(n as nat) == exponent + spec_floor_log2(rest as nat),
            spec_floor_pow2(n as nat) == power * spec_floor_pow2(rest as nat),
            spec_floor_pow2(n as nat) <= n,
            spec_floor_log2(n as nat) < 32,
            1 <= power,
        decreases rest,
    {
        proof {
            vstd::arithmetic::power2::lemma2_to64();
            lemma_floor_pow2_bounds((rest / 2) as nat, 32);
            assert(power * spec_floor_pow2(rest as nat) == (power * 2) * spec_floor_pow2(
                (rest / 2) as nat,
            )) by (nonlinear_arith)
                requires
                    spec_floor_pow2(rest as nat) == 2 * spec_floor_pow2((rest / 2) as nat),
            ;
            assert(power * 2 <= (power * 2) * spec_floor_pow2((rest / 2) as nat)) by (nonlinear_arith)
                requires
                    spec_floor_pow2((rest / 2) as nat) >= 1,
                    power >= 1,
            ;
        }
        rest = rest / 2;
        exponent = exponent + 1;
        power = power * 2;
    }
    assert(power == spec_floor_pow2(n as nat)) by (nonlinear_arith)
        requires
            spec_floor_pow2(n as nat) == power * 1,
    ;
    let above: u64 = n as u64 - power;
    proof {
        assert(above * ENTROPY_SCALE <= 0xffff_ffff * 100_000) by (nonlinear_arith)
            requires
                above <= 0xffff_ffff,
                ENTROPY_SCALE == 100_000,
        ;
        assert(exponent * ENTROPY_SCALE <= 31 * 100_000) by (nonlinear_arith)
            requires
                exponent <= 31,
                ENTROPY_SCALE == 100_000,
        ;
    }
    exponent * ENTROPY_SCALE + (above * ENTROPY_SCALE) / power
}

/// Entropy of a cell in units, from the sums of the weights of its options
/// and its noise.
pub fn entropy(weight_sum: u32, weight_log_sum: u64, noise: u8) -> (r: u64)
    ensures
        r == spec_entropy(weight_sum as nat, weight_log_sum as nat, noise as nat),
        r < 32 * ENTROPY_SCALE + 256,
{
    if weight_sum == 0 {
        return noise as u64;
    }
    let log_of_sum: u64 = log2_scaled(weight_sum);
    let mean_log: u64 = weight_log_sum / weight_sum as u64;
    if log_of_sum >= mean_log {
        log_of_sum - mean_log + noise as u64
    } else {
        noise as u64
    }
}

} // verus!
