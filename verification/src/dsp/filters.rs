//! One-pole filters and the tilt equaliser built from them.

use vstd::prelude::*;
use crate::num::binary32::{Binary32, of_bits, negated, larger, smaller, clamped};
use crate::num::arith::{product, sum, difference, quotient};
use crate::dsp::{flush_denormals, flushed, ZERO, ONE, MINUS_ONE};
use crate::num::laws::{lemma_product_zero, lemma_sum_zero, lemma_product_under, lemma_sum_under, lemma_product_shrinks, lemma_product_monotone, lemma_quotient_monotone, lemma_difference_antitone, lemma_sum_monotone, lemma_sum_with_zero, lemma_product_one, under, in_unit};
use crate::num::binary32::{at_most, below};

verus! {

/// 0.45: the highest cutoff, as a share of the sample rate.
pub const CUTOFF_CEILING: u32 = 0x3ee6_6666;

/// -2 * pi.
pub const MINUS_TWO_PI: u32 = 0xc0c9_0fdb;

/// 0.8: how far the tilt can go.
pub const TILT_STRENGTH: u32 = 0x3f4c_cccd;

/// `-2 * pi * hz / sr` with `hz` held between 1 Hz and 0.45 of the sample
/// rate: the exponent whose exponential is the pole of the low-pass.
pub open spec fn pole_exponent(sr: Binary32, hz: Binary32) -> Binary32 {
    let held = smaller(larger(hz, of_bits(ONE)), product(sr, of_bits(CUTOFF_CEILING)));
    quotient(product(of_bits(MINUS_TWO_PI), held), sr)
}

/// The exponent to evaluate for a cutoff of `hz` at sample rate `sr`.
pub fn cutoff_exponent(sr: Binary32, hz: Binary32) -> (r: Binary32)
    ensures
        r == pole_exponent(sr, hz),
{
    let held = hz.max(Binary32::from_bits(ONE)).min(sr.times(Binary32::from_bits(CUTOFF_CEILING)));
    Binary32::from_bits(MINUS_TWO_PI).times(held).over(sr)
}

/// One-pole low-pass filter.
#[derive(Clone, Copy, Debug)]
pub struct OnePoleLp {
    /// Smoothing coefficient.
    pub a: Binary32,
    /// The last output, before flushing.
    pub z: Binary32,
}

impl OnePoleLp {
    /// The memory after one input: `z + a * (x - z)`.
    pub open spec fn next_z(self, x: Binary32) -> Binary32 {
        sum(self.z, product(self.a, difference(x, self.z)))
    }

    /// The filter after one input.
    pub open spec fn step(self, x: Binary32) -> Self {
        OnePoleLp { a: self.a, z: self.next_z(x) }
    }

    /// The output for one input.
    pub open spec fn output(self, x: Binary32) -> Binary32 {
        flushed(self.next_z(x))
    }

    pub fn new() -> (r: Self)
        ensures
            r.a == of_bits(ZERO),
            r.z == of_bits(ZERO),
    {
        OnePoleLp { a: Binary32::from_bits(ZERO), z: Binary32::from_bits(ZERO) }
    }

    /// Sets the coefficient to `1 - pole`, where `pole` is the exponential
    /// of [`cutoff_exponent`] for the wanted cutoff.
    pub fn set_cutoff(&mut self, pole: Binary32)
        ensures
            final(self).a == difference(of_bits(ONE), pole),
            final(self).z == old(self).z,
    {
        self.a = Binary32::from_bits(ONE).minus(pole);
    }

    pub fn process(&mut self, x: Binary32) -> (y: Binary32)
        ensures
            *final(self) == old(self).step(x),
            y == old(self).output(x),
    {
        self.z = self.z.plus(self.a.times(x.minus(self.z)));
        flush_denormals(self.z)
    }
}

/// One-pole high-pass: the input less its low-pass.
#[derive(Clone, Copy, Debug)]
pub struct OnePoleHp {
    pub lp: OnePoleLp,
}

impl OnePoleHp {
    pub open spec fn step(self, x: Binary32) -> Self {
        OnePoleHp { lp: self.lp.step(x) }
    }

    pub open spec fn output(self, x: Binary32) -> Binary32 {
        flushed(difference(x, self.lp.output(x)))
    }

    pub fn new() -> (r: Self)
        ensures
            r.lp.a == of_bits(ZERO),
            r.lp.z == of_bits(ZERO),
    {
        OnePoleHp { lp: OnePoleLp::new() }
    }

    /// Sets the cutoff of the inner low-pass from its pole.
    pub fn set_cutoff(&mut self, pole: Binary32)
        ensures
            final(self).lp.a == difference(of_bits(ONE), pole),
            final(self).lp.z == old(self).lp.z,
    {
        self.lp.set_cutoff(pole);
    }

    pub fn process(&mut self, x: Binary32) -> (y: Binary32)
        ensures
            *final(self) == old(self).step(x),
            y == old(self).output(x),
    {
        let low = self.lp.process(x);
        flush_denormals(x.minus(low))
    }
}

/// Tilt equaliser: one low-pass splits the signal into a low and a high
/// band, which get opposite gains. A tilt of -1 is darkest, +1 brightest.
#[derive(Clone, Copy, Debug)]
pub struct TiltEq {
    pub lp: OnePoleLp,
    pub strength: Binary32,
}

impl TiltEq {
    pub open spec fn step(self, x: Binary32) -> Self {
        TiltEq { lp: self.lp.step(x), strength: self.strength }
    }

    /// `low * (1 - k) + high * (1 + k)` with `k` the tilt, held to [-1, 1],
    /// times the strength.
    pub open spec fn output(self, x: Binary32, tilt: Binary32) -> Binary32 {
        let held = clamped(tilt, of_bits(MINUS_ONE), of_bits(ONE));
        let low = self.lp.output(x);
        let high = difference(x, low);
        let k = product(held, self.strength);
        let low_gain = sum(of_bits(ONE), negated(k));
        let high_gain = sum(of_bits(ONE), k);
        flushed(sum(product(low, low_gain), product(high, high_gain)))
    }

    pub fn new() -> (r: Self)
        ensures
            r.lp.a == of_bits(ZERO),
            r.lp.z == of_bits(ZERO),
            r.strength == of_bits(TILT_STRENGTH),
    {
        TiltEq { lp: OnePoleLp::new(), strength: Binary32::from_bits(TILT_STRENGTH) }
    }

    /// Sets the pivot of the split from the pole of its low-pass.
    pub fn set_pivot(&mut self, pole: Binary32)
        ensures
            final(self).lp.a == difference(of_bits(ONE), pole),
            final(self).lp.z == old(self).lp.z,
            final(self).strength == old(self).strength,
    {
        self.lp.set_cutoff(pole);
    }

    pub fn process(&mut self, x: Binary32, tilt: Binary32) -> (y: Binary32)
        ensures
            *final(self) == old(self).step(x),
            y == old(self).output(x, tilt),
    {
        let held = tilt.clamp(Binary32::from_bits(MINUS_ONE), Binary32::from_bits(ONE));
        let low = self.lp.process(x);
        let high = x.minus(low);
        let k = held.times(self.strength);
        let low_gain = Binary32::from_bits(ONE).plus(k.neg());
        let high_gain = Binary32::from_bits(ONE).plus(k);
        flush_denormals(low.times(low_gain).plus(high.times(high_gain)))
    }
}

/// A low-pass with cleared memory answers zero with zero and stays cleared.
pub proof fn lemma_low_pass_rests(f: OnePoleLp, x: Binary32)
    requires
        f.z.is_zero(),
        f.a.is_finite(),
        x.is_zero(),
    ensures
        f.step(x).z.is_zero(),
        f.step(x).a == f.a,
        f.output(x) == of_bits(ZERO),
{
    lemma_sum_zero(x, f.z);
    lemma_product_zero(difference(x, f.z), f.a);
    lemma_sum_zero(f.z, product(f.a, difference(x, f.z)));
}

/// A high-pass with cleared memory answers zero with zero and stays cleared.
pub proof fn lemma_high_pass_rests(f: OnePoleHp, x: Binary32)
    requires
        f.lp.z.is_zero(),
        f.lp.a.is_finite(),
        x.is_zero(),
    ensures
        f.step(x).lp.z.is_zero(),
        f.step(x).lp.a == f.lp.a,
        f.output(x) == of_bits(ZERO),
{
    lemma_low_pass_rests(f.lp, x);
    lemma_sum_zero(x, f.lp.output(x));
}

/// A tilt with cleared memory answers zero with zero and stays cleared,
/// whatever tilt that is a number it is given.
pub proof fn lemma_tilt_rests(f: TiltEq, x: Binary32, tilt: Binary32)
    requires
        f.lp.z.is_zero(),
        f.lp.a.is_finite(),
        under(f.strength, 0),
        !tilt.is_nan(),
        x.is_zero(),
    ensures
        f.step(x).lp.z.is_zero(),
        f.step(x).lp.a == f.lp.a,
        f.step(x).strength == f.strength,
        f.output(x, tilt) == of_bits(ZERO),
{
    lemma_low_pass_rests(f.lp, x);
    let held = clamped(tilt, of_bits(MINUS_ONE), of_bits(ONE));
    let low = f.lp.output(x);
    let high = difference(x, low);
    lemma_sum_zero(x, low);
    let k = product(held, f.strength);
    lemma_product_under(held, f.strength, 0, 0);
    lemma_sum_under(of_bits(ONE), negated(k), 0);
    lemma_sum_under(of_bits(ONE), k, 0);
    let low_gain = sum(of_bits(ONE), negated(k));
    let high_gain = sum(of_bits(ONE), k);
    lemma_product_zero(low, low_gain);
    lemma_product_zero(high, high_gain);
    lemma_sum_zero(product(low, low_gain), product(high, high_gain));
}

/// A higher cutoff never gives a higher exponent, at a positive sample
/// rate of at most 2^120.
pub proof fn lemma_exponent_falls_with_cutoff(sr: Binary32, hz1: Binary32, hz2: Binary32)
    requires
        below(of_bits(ZERO), sr),
        under(sr, 120),
        at_most(hz1, hz2),
    ensures
        at_most(pole_exponent(sr, hz2), pole_exponent(sr, hz1)),
{
    let top = product(sr, of_bits(CUTOFF_CEILING));
    lemma_product_shrinks(sr, of_bits(CUTOFF_CEILING));
    let held1 = smaller(larger(hz1, of_bits(ONE)), top);
    let held2 = smaller(larger(hz2, of_bits(ONE)), top);
    let c = of_bits(MINUS_TWO_PI);
    lemma_product_monotone(held1, held2, c);
    lemma_product_under(c, held1, 3, 120);
    lemma_product_under(c, held2, 3, 120);
    lemma_quotient_monotone(product(c, held2), product(c, held1), sr);
}

/// A lower pole never gives a lower coefficient.
pub proof fn lemma_coefficient_falls_with_pole(pole1: Binary32, pole2: Binary32)
    requires
        pole1.is_finite(),
        pole2.is_finite(),
        at_most(pole1, pole2),
    ensures
        at_most(difference(of_bits(ONE), pole2), difference(of_bits(ONE), pole1)),
{
    lemma_difference_antitone(of_bits(ONE), pole1, pole2);
}

/// A pole between 0 and 1 gives a coefficient between 0 and 1.
pub proof fn lemma_coefficient_in_unit(pole: Binary32)
    requires
        in_unit(pole),
    ensures
        in_unit(difference(of_bits(ONE), pole)),
{
    let one = of_bits(ONE);
    lemma_sum_monotone(one, negated(pole), one, of_bits(ZERO));
    lemma_sum_with_zero(one, of_bits(ZERO));
    lemma_sum_monotone(one, of_bits(MINUS_ONE), one, negated(pole));
    crate::num::laws::lemma_landmarks();
}

/// The answer to an impulse starts at the coefficient: a cleared low-pass
/// given a 1 remembers exactly its coefficient, and gives it out.
pub proof fn lemma_impulse_starts_at_coefficient(f: OnePoleLp)
    requires
        f.z.is_zero(),
        f.a.is_finite(),
        !f.a.is_zero(),
    ensures
        f.step(of_bits(ONE)).z == f.a,
        f.output(of_bits(ONE)) == flushed(f.a),
{
    lemma_sum_with_zero(of_bits(ONE), f.z);
    lemma_sum_with_zero(of_bits(ONE), negated(f.z));
    lemma_product_one(f.a);
    lemma_sum_with_zero(f.a, f.z);
}

} // verus!
