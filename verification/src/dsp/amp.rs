//! The amplifier: pre-gain into a soft clipper, blended with the clean
//! signal by the drive.

use vstd::prelude::*;
use crate::num::binary32::{Binary32, of_bits, clamped};
use crate::num::arith::{product, sum, difference};
use crate::params::{AmpModel, GtrParams};
use crate::dsp::{fast_tanh, flush_denormals, flushed, soft_clip, lemma_soft_clip_zero, ZERO, ONE};
use crate::num::laws::{lemma_product_zero, lemma_sum_zero, lemma_product_under, lemma_sum_under, under};

verus! {

/// The three numbers a voicing turns the drive into.
#[derive(Clone, Copy, Debug)]
pub struct Voicing {
    /// Gain into the clipper.
    pub pre_gain: Binary32,
    /// How hard the clipper is hit.
    pub sat_strength: Binary32,
    /// Level after the blend.
    pub post_atten: Binary32,
}

/// 0.2 and 0.7: the wet share of the blend at no drive, and what full drive adds.
pub const WET_FLOOR: u32 = 0x3e4c_cccd;

pub const WET_RANGE: u32 = 0x3f33_3333;

/// `base + slope * drive`.
pub open spec fn affine(base: u32, slope: u32, drive: Binary32) -> Binary32 {
    sum(of_bits(base), product(of_bits(slope), drive))
}

/// Pre-gain, saturation and attenuation of each model:
/// clean `1 + 3d`, `0.7 + 0.3d`, `0.9`; crunch `1.5 + 6d`, `0.9 + 0.5d`,
/// `0.7`; lead `2 + 10d`, `1.1 + 0.6d`, `0.6`.
pub open spec fn voicing_of(model: AmpModel, drive: Binary32) -> Voicing {
    match model {
        AmpModel::CleanGlass => Voicing {
            pre_gain: affine(0x3f80_0000, 0x4040_0000, drive),
            sat_strength: affine(0x3f33_3333, 0x3e99_999a, drive),
            post_atten: of_bits(0x3f66_6666),
        },
        AmpModel::CrunchTight => Voicing {
            pre_gain: affine(0x3fc0_0000, 0x40c0_0000, drive),
            sat_strength: affine(0x3f66_6666, 0x3f00_0000, drive),
            post_atten: of_bits(0x3f33_3333),
        },
        AmpModel::LeadEdm => Voicing {
            pre_gain: affine(0x4000_0000, 0x4120_0000, drive),
            sat_strength: affine(0x3f8c_cccd, 0x3f19_999a, drive),
            post_atten: of_bits(0x3f19_999a),
        },
    }
}

/// The amp's output for input `x`: with the drive held to [0, 1],
/// `(pre * dry + clip(pre * sat) * wet) * post`, where `pre = x * pre_gain`,
/// `wet = 0.2 + 0.7 * drive` and `dry = 1 - wet`.
pub open spec fn amp_output(x: Binary32, p: GtrParams) -> Binary32 {
    let drive = clamped(p.drive, of_bits(ZERO), of_bits(ONE));
    let v = voicing_of(p.amp_model, drive);
    let pre = product(x, v.pre_gain);
    let shaped = soft_clip(product(pre, v.sat_strength));
    let wet = affine(WET_FLOOR, WET_RANGE, drive);
    let dry = difference(of_bits(ONE), wet);
    flushed(product(sum(product(pre, dry), product(shaped, wet)), v.post_atten))
}

/// `base + slope * drive`.
fn line(base: u32, slope: u32, drive: Binary32) -> (r: Binary32)
    ensures
        r == affine(base, slope, drive),
{
    Binary32::from_bits(base).plus(Binary32::from_bits(slope).times(drive))
}

/// Maps a model and a drive in [0, 1] to its pre-gain, saturation and
/// attenuation.
pub fn voicing(model: AmpModel, drive: Binary32) -> (v: Voicing)
    ensures
        v == voicing_of(model, drive),
{
    match model {
        AmpModel::CleanGlass => Voicing {
            pre_gain: line(0x3f80_0000, 0x4040_0000, drive),
            sat_strength: line(0x3f33_3333, 0x3e99_999a, drive),
            post_atten: Binary32::from_bits(0x3f66_6666),
        },
        AmpModel::CrunchTight => Voicing {
            pre_gain: line(0x3fc0_0000, 0x40c0_0000, drive),
            sat_strength: line(0x3f66_6666, 0x3f00_0000, drive),
            post_atten: Binary32::from_bits(0x3f33_3333),
        },
        AmpModel::LeadEdm => Voicing {
            pre_gain: line(0x4000_0000, 0x4120_0000, drive),
            sat_strength: line(0x3f8c_cccd, 0x3f19_999a, drive),
            post_atten: Binary32::from_bits(0x3f19_999a),
        },
    }
}

/// The amplifier. It remembers nothing between samples but the sample rate.
#[derive(Clone, Copy, Debug)]
pub struct Amp {
    pub sr: Binary32,
}

impl Amp {
    pub fn new(sr: Binary32) -> (r: Self)
        ensures
            r.sr == sr,
    {
        Amp { sr }
    }

    pub fn reset(&mut self, sr: Binary32)
        ensures
            final(self).sr == sr,
    {
        self.sr = sr;
    }

    /// One sample through the amp.
    pub fn process_sample(&mut self, x: Binary32, p: &GtrParams) -> (y: Binary32)
        ensures
            y == amp_output(x, *p),
            *final(self) == *old(self),
    {
        let drive = p.drive.clamp(Binary32::from_bits(ZERO), Binary32::from_bits(ONE));
        let v = voicing(p.amp_model, drive);
        let pre = x.times(v.pre_gain);
        let shaped = fast_tanh(pre.times(v.sat_strength));
        let wet_mix = line(WET_FLOOR, WET_RANGE, drive);
        let dry_mix = Binary32::from_bits(ONE).minus(wet_mix);
        let y = pre.times(dry_mix).plus(shaped.times(wet_mix));
        flush_denormals(y.times(v.post_atten))
    }
}

/// A line with base and slope of magnitude at most 16, at a drive of
/// magnitude at most 1, has a magnitude of at most 32.
pub proof fn lemma_affine_under(base: u32, slope: u32, drive: Binary32)
    requires
        under(of_bits(base), 4),
        under(of_bits(slope), 4),
        under(drive, 0),
    ensures
        under(affine(base, slope, drive), 5),
{
    lemma_product_under(of_bits(slope), drive, 4, 0);
    lemma_sum_under(of_bits(base), product(of_bits(slope), drive), 4);
}

/// With every control in its range the amp answers zero with zero.
pub proof fn lemma_amp_rests(x: Binary32, p: GtrParams)
    requires
        x.is_zero(),
        p.in_range(),
    ensures
        amp_output(x, p) == of_bits(ZERO),
{
    let drive = clamped(p.drive, of_bits(ZERO), of_bits(ONE));
    let v = voicing_of(p.amp_model, drive);
    match p.amp_model {
        AmpModel::CleanGlass => {
            lemma_affine_under(0x3f80_0000, 0x4040_0000, drive);
            lemma_affine_under(0x3f33_3333, 0x3e99_999a, drive);
        },
        AmpModel::CrunchTight => {
            lemma_affine_under(0x3fc0_0000, 0x40c0_0000, drive);
            lemma_affine_under(0x3f66_6666, 0x3f00_0000, drive);
        },
        AmpModel::LeadEdm => {
            lemma_affine_under(0x4000_0000, 0x4120_0000, drive);
            lemma_affine_under(0x3f8c_cccd, 0x3f19_999a, drive);
        },
    }
    let pre = product(x, v.pre_gain);
    lemma_product_zero(x, v.pre_gain);
    lemma_product_zero(pre, v.sat_strength);
    let shaped = soft_clip(product(pre, v.sat_strength));
    lemma_soft_clip_zero(product(pre, v.sat_strength));
    let wet = affine(WET_FLOOR, WET_RANGE, drive);
    lemma_affine_under(WET_FLOOR, WET_RANGE, drive);
    let dry = difference(of_bits(ONE), wet);
    lemma_sum_under(of_bits(ONE), wet, 5);
    lemma_product_zero(pre, dry);
    lemma_product_zero(shaped, wet);
    lemma_sum_zero(product(pre, dry), product(shaped, wet));
    lemma_product_zero(sum(product(pre, dry), product(shaped, wet)), v.post_atten);
}

} // verus!
