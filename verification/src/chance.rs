//! Chance: samples of the random generator and the tests made on them.
//!
//! A sample is a number `k` below `UNIT` and stands for the fraction
//! `k / UNIT` of the interval from zero to one. Every test on a sample is
//! exact integer arithmetic.

use vstd::prelude::*;
use rand::Rng;
use vstd::arithmetic::mul::lemma_mul_upper_bound;
use crate::difficulty::Factor;

verus! {

/// The number of values a sample can take: `2^24`.
pub const UNIT: u32 = 0x100_0000;

/// `Rng::gen` of the rand crate, for `u32`, on the thread's generator: 32
/// random bits. The contract promises nothing of the result.
#[verifier::external_body]
fn random_bits() -> u32 {
    rand::thread_rng().gen::<u32>()
}

/// `Rng::gen_range` of the rand crate, for a half-open range of `u32`, on
/// the thread's generator. The result lies in the range; an empty range,
/// on which the call panics, is left out.
#[verifier::external_body]
pub(crate) fn random_range(low: u32, high: u32) -> (r: u32)
    requires
        low < high,
    ensures
        low <= r < high,
{
    rand::thread_rng().gen_range(low..high)
}

/// A sample: the upper 24 of 32 random bits, which is what the generator
/// makes a single-precision fraction below one of.
pub fn sample() -> (k: u32)
    ensures
        k < UNIT,
{
    sample_of(random_bits())
}

/// The sample that 32 random bits make: their upper 24 bits.
pub open spec fn spec_sample_of(bits: u32) -> u32 {
    bits >> 8
}

/// The sample that 32 random bits make: their upper 24 bits, which is
/// `bits` divided by 256 and rounded down.
pub fn sample_of(bits: u32) -> (k: u32)
    ensures
        k == spec_sample_of(bits),
        k == bits / 256,
        k < UNIT,
{
    assert(bits >> 8 == bits / 256) by (bit_vector);
    assert(bits >> 8 < 0x100_0000u32) by (bit_vector);
    bits >> 8
}

/// Whether the fraction that `sample` stands for is at most
/// `percent / 100`.
pub open spec fn spec_within_percent(sample: u32, percent: u32) -> bool {
    sample * 100 <= percent * UNIT
}

/// Whether the fraction that `sample` stands for is at most
/// `percent / 100`.
pub fn within_percent(sample: u32, percent: u32) -> (r: bool)
    ensures
        r == spec_within_percent(sample, percent),
{
    proof {
        lemma_mul_upper_bound(percent as int, 0xffff_ffff, UNIT as int, 0x100_0000);
    }
    (sample as u64) * 100 <= (percent as u64) * (UNIT as u64)
}

/// Whether a spawn is attempted: the fraction that `sample` stands for is
/// at most half of `coefficient`.
pub open spec fn spec_spawn_triggered(coefficient: Factor, sample: u32) -> bool {
    2 * sample * coefficient.den <= coefficient.num * UNIT
}

/// Whether a spawn is attempted: the fraction that `sample` stands for is
/// at most half of `coefficient`.
pub fn spawn_triggered(coefficient: Factor, sample: u32) -> (r: bool)
    ensures
        r == spec_spawn_triggered(coefficient, sample),
{
    proof {
        lemma_mul_upper_bound(2 * sample, 0x1_ffff_fffe, coefficient.den as int, 0xffff_ffff);
        lemma_mul_upper_bound(coefficient.num as int, 0xffff_ffff, UNIT as int, 0x100_0000);
    }
    let left: u128 = 2 * (sample as u128) * (coefficient.den as u128);
    let right: u128 = (coefficient.num as u128) * (UNIT as u128);
    left <= right
}

/// Whether a tile is accepted as the place of a spawn. The chance is the
/// tile's share `percentage / 100` of one tile in `tiles`, plus a bias of
/// `iterations` over half the number of tiles: the fraction that `sample`
/// stands for must be at most their sum.
pub open spec fn spec_tile_accepted(percentage: u32, iterations: u32, sample: u32, tiles: u32) -> bool {
    sample * (100 * tiles) <= (percentage + 200 * iterations) * UNIT
}

/// Whether a tile is accepted as the place of a spawn.
pub fn tile_accepted(percentage: u32, iterations: u32, sample: u32, tiles: u32) -> (r: bool)
    ensures
        r == spec_tile_accepted(percentage, iterations, sample, tiles),
{
    proof {
        lemma_mul_upper_bound(sample as int, 0xffff_ffff, 100 * tiles, 0x63_ffff_ff9c);
        lemma_mul_upper_bound(percentage + 200 * iterations, 0xc8_ffff_ff37, UNIT as int, 0x100_0000);
    }
    let left: u128 = (sample as u128) * (100 * (tiles as u128));
    let right: u128 = ((percentage as u128) + 200 * (iterations as u128)) * (UNIT as u128);
    left <= right
}

/// Once the bias has grown to one, every tile with a share is accepted.
pub proof fn lemma_bias_accepts(percentage: u32, iterations: u32, sample: u32, tiles: u32)
    requires
        sample < UNIT,
        200 * iterations >= 100 * tiles,
    ensures
        spec_tile_accepted(percentage, iterations, sample, tiles),
{
    assert(sample * (100 * tiles) <= UNIT * (100 * tiles)) by (nonlinear_arith)
        requires
            sample < UNIT,
    ;
    assert(UNIT * (100 * tiles) <= (percentage + 200 * iterations) * UNIT) by (nonlinear_arith)
        requires
            200 * iterations >= 100 * tiles,
    ;
}

} // verus!
