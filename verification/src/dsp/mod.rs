//! The signal chain and the helpers its stages share.

pub mod filters;
pub mod gate;
pub mod amp;
pub mod cab;
pub mod chain;
pub mod fx;

pub use chain::GuitarChain;
pub use fx::StereoFx;

use vstd::prelude::*;
use crate::num::binary32::{Binary32, of_bits, absolute, below, at_most};
use crate::num::arith::{product, sum, quotient};
use crate::num::laws::{lemma_product_zero, lemma_quotient_zero, lemma_sum_with_zero, lemma_product_shrinks, lemma_product_one, lemma_product_monotone, lemma_product_under, lemma_sum_under, lemma_sum_monotone, lemma_quotient_under_one, lemma_commutes};

verus! {

pub const ZERO: u32 = 0x0000_0000;

pub const ONE: u32 = 0x3f80_0000;

pub const MINUS_ONE: u32 = 0xbf80_0000;

pub const NINE: u32 = 0x4110_0000;

pub const TWENTY_SEVEN: u32 = 0x41d8_0000;

/// 1e-24: magnitudes below this are flushed to zero.
pub const TINY: u32 = 0x179a_be15;

/// `x * (27 + x^2) / (27 + 9 * x^2)`, a cheap stand-in for the hyperbolic
/// tangent, each step rounded.
pub open spec fn soft_clip(x: Binary32) -> Binary32 {
    let x2 = product(x, x);
    quotient(product(x, sum(of_bits(TWENTY_SEVEN), x2)), sum(of_bits(TWENTY_SEVEN), product(of_bits(NINE), x2)))
}

/// Zero in place of a magnitude below 1e-24, else the number itself.
pub open spec fn flushed(x: Binary32) -> Binary32 {
    if below(absolute(x), of_bits(TINY)) {
        of_bits(ZERO)
    } else {
        x
    }
}

/// `-1 / (time_s * sr)`: the exponent whose exponential is the factor by
/// which a level falls per sample when it falls to 1/e in `time_s` seconds.
pub open spec fn release_exponent(time_s: Binary32, sr: Binary32) -> Binary32 {
    quotient(of_bits(MINUS_ONE), product(time_s, sr))
}

/// The per-sample factor for a time constant: none where the time is not
/// positive, else the exponential `decay` that the caller evaluated.
pub open spec fn coeff_of(time_s: Binary32, decay: Binary32) -> Binary32 {
    if at_most(time_s, of_bits(ZERO)) {
        of_bits(ZERO)
    } else {
        decay
    }
}

/// Soft clip that keeps overs out.
pub fn fast_tanh(x: Binary32) -> (r: Binary32)
    ensures
        r == soft_clip(x),
{
    let x2 = x.times(x);
    let c = Binary32::from_bits(TWENTY_SEVEN);
    x.times(c.plus(x2)).over(c.plus(Binary32::from_bits(NINE).times(x2)))
}

/// Zero in place of a magnitude below 1e-24.
pub fn flush_denormals(x: Binary32) -> (r: Binary32)
    ensures
        r == flushed(x),
{
    if x.abs().lt(Binary32::from_bits(TINY)) {
        Binary32::from_bits(ZERO)
    } else {
        x
    }
}

/// The exponent to evaluate for [`time_to_coeff`]. `time_s` is the seconds
/// it takes to decay by about 63%.
pub fn time_to_coeff_exponent(time_s: Binary32, sr: Binary32) -> (r: Binary32)
    ensures
        r == release_exponent(time_s, sr),
{
    Binary32::from_bits(MINUS_ONE).over(time_s.times(sr))
}

/// Coefficient for smoothing by a time constant. `decay` is the exponential
/// of [`time_to_coeff_exponent`] for the same time, evaluated by the caller.
pub fn time_to_coeff(time_s: Binary32, decay: Binary32) -> (r: Binary32)
    ensures
        r == coeff_of(time_s, decay),
{
    if time_s.le(Binary32::from_bits(ZERO)) {
        Binary32::from_bits(ZERO)
    } else {
        decay
    }
}

/// Flushing gives zero for a magnitude below 1e-24 and the input itself
/// otherwise, and flushing again changes nothing.
pub proof fn lemma_flush_idempotent(x: Binary32)
    ensures
        below(absolute(x), of_bits(TINY)) ==> flushed(x) == of_bits(ZERO),
        !below(absolute(x), of_bits(TINY)) ==> flushed(x) == x,
        flushed(flushed(x)) == flushed(x),
{
}

/// Zero flushes to zero.
pub proof fn lemma_flush_zero(x: Binary32)
    requires
        x.is_zero(),
    ensures
        flushed(x) == of_bits(ZERO),
{
}

/// The soft clip of zero is zero.
pub proof fn lemma_soft_clip_zero(x: Binary32)
    requires
        x.is_zero(),
    ensures
        soft_clip(x).is_zero(),
{
    let c = of_bits(TWENTY_SEVEN);
    let x2 = product(x, x);
    lemma_product_zero(x, x);
    lemma_sum_with_zero(c, x2);
    lemma_product_zero(x2, of_bits(NINE));
    lemma_sum_with_zero(c, product(of_bits(NINE), x2));
    lemma_product_zero(x, c);
    lemma_quotient_zero(product(x, c), c);
}

/// The soft clip is a ceiling: an input of magnitude at most 1 leaves with
/// a magnitude of at most 1, and with its sign.
pub proof fn lemma_soft_clip_ceiling(x: Binary32)
    requires
        x.mag() <= ONE,
    ensures
        soft_clip(x).mag() <= ONE,
        flushed(soft_clip(x)).mag() <= ONE,
        soft_clip(x).negative() == x.negative(),
{
    let c = of_bits(TWENTY_SEVEN);
    let nine = of_bits(NINE);
    let one = of_bits(ONE);
    let x2 = product(x, x);
    lemma_product_shrinks(x, x);
    // the two sums: 27 + x^2 is at most 27 + 9 x^2
    lemma_product_one(x2);
    lemma_product_monotone(one, nine, x2);
    lemma_commutes(nine, x2);
    lemma_product_under(nine, x2, 4, 0);
    lemma_sum_monotone(c, x2, c, product(nine, x2));
    lemma_sum_under(c, x2, 5);
    lemma_sum_under(c, product(nine, x2), 5);
    let above = sum(c, x2);
    let below_it = sum(c, product(nine, x2));
    // both are at least 27
    lemma_sum_monotone(c, of_bits(ZERO), c, x2);
    lemma_sum_with_zero(c, of_bits(ZERO));
    // so the numerator is no larger than the denominator
    lemma_product_shrinks(above, x);
    lemma_quotient_under_one(product(x, above), below_it);
}

} // verus!
