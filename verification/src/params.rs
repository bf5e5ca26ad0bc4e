//! The parameter snapshot that the signal chain reads once per block.

use vstd::prelude::*;
use crate::num::binary32::{Binary32, of_bits, at_most};
use crate::num::arith::product;

verus! {

/// ln(10) / 20, to six places.
pub const DB_TO_NEPER: u32 = 0x3deb_c8c1;

/// Amp voicing. All share one engine.
#[derive(PartialEq, Eq, Clone, Copy, Debug, Structural)]
pub enum AmpModel {
    /// Wide, sparkly cleans.
    CleanGlass,
    /// Tight modern crunch.
    CrunchTight,
    /// Focused high gain.
    LeadEdm,
}

/// Cabinet voicing.
#[derive(PartialEq, Eq, Clone, Copy, Debug, Structural)]
pub enum CabModel {
    /// Controlled lows, clear mids.
    TightModern,
    /// Slightly rounder and warmer.
    WarmVintage,
    /// Bright curve that cuts through.
    BrightPop,
    /// No cabinet shaping at all.
    DiBypass,
}

/// One value per control, as the host hands them over for a block.
#[derive(Clone, Copy, Debug)]
pub struct GtrParams {
    /// Input trim in dB, -24 to 24.
    pub input_gain: Binary32,
    /// Amount of saturation, 0 to 1.
    pub drive: Binary32,
    /// Dark to bright, 0 to 1.
    pub tone: Binary32,
    /// Room amount, 0 to 1.
    pub space: Binary32,
    /// Stereo widening, 0 to 1.
    pub width: Binary32,
    /// Output level in dB, -18 to 6.
    pub output_gain: Binary32,
    /// Gate threshold in dB, -60 to 0.
    pub gate_threshold: Binary32,
    /// Gate release in milliseconds, 10 to 400.
    pub gate_release_ms: Binary32,
    pub amp_model: AmpModel,
    /// Low cut before the amp in Hz, 40 to 200.
    pub low_cut_hz: Binary32,
    /// Upper-mids push, 0 to 1.
    pub presence: Binary32,
    /// Top octave sheen, 0 to 1.
    pub air: Binary32,
    pub cab_model: CabModel,
    /// Whether the safety limiter runs.
    pub limiter_on: bool,
}

/// `lo <= x <= hi` as numbers.
pub open spec fn within(x: Binary32, lo: u32, hi: u32) -> bool {
    at_most(of_bits(lo), x) && at_most(x, of_bits(hi))
}

/// `db * ln(10) / 20`: the exponent whose exponential is the linear gain of
/// `db` decibels.
pub open spec fn db_exponent(db: Binary32) -> Binary32 {
    product(db, of_bits(DB_TO_NEPER))
}

/// The exponent to evaluate to turn decibels into a linear gain.
pub fn db_to_gain_exponent(db: Binary32) -> (r: Binary32)
    ensures
        r == db_exponent(db),
{
    db.times(Binary32::from_bits(DB_TO_NEPER))
}

impl GtrParams {
    /// The snapshot a fresh instance starts from.
    pub open spec fn defaults() -> Self {
        GtrParams {
            input_gain: of_bits(0x0000_0000),
            drive: of_bits(0x3f0c_cccd),
            tone: of_bits(0x3f00_0000),
            space: of_bits(0x3e80_0000),
            width: of_bits(0x3f19_999a),
            output_gain: of_bits(0x0000_0000),
            gate_threshold: of_bits(0xc248_0000),
            gate_release_ms: of_bits(0x42a0_0000),
            amp_model: AmpModel::CrunchTight,
            low_cut_hz: of_bits(0x42dc_0000),
            presence: of_bits(0x3f00_0000),
            air: of_bits(0x3e99_999a),
            cab_model: CabModel::TightModern,
            limiter_on: true,
        }
    }

    /// Every control lies in the range the host declares for it.
    pub open spec fn in_range(self) -> bool {
        &&& within(self.input_gain, 0xc1c0_0000, 0x41c0_0000)
        &&& within(self.drive, 0x0000_0000, 0x3f80_0000)
        &&& within(self.tone, 0x0000_0000, 0x3f80_0000)
        &&& within(self.space, 0x0000_0000, 0x3f80_0000)
        &&& within(self.width, 0x0000_0000, 0x3f80_0000)
        &&& within(self.output_gain, 0xc190_0000, 0x40c0_0000)
        &&& within(self.gate_threshold, 0xc270_0000, 0x0000_0000)
        &&& within(self.gate_release_ms, 0x4120_0000, 0x43c8_0000)
        &&& within(self.low_cut_hz, 0x4220_0000, 0x4348_0000)
        &&& within(self.presence, 0x0000_0000, 0x3f80_0000)
        &&& within(self.air, 0x0000_0000, 0x3f80_0000)
    }

    /// A snapshot with the given values, as they are.
    pub fn with_values(
        input_gain_db: Binary32,
        drive: Binary32,
        tone: Binary32,
        space: Binary32,
        width: Binary32,
        output_gain_db: Binary32,
        gate_threshold_db: Binary32,
        gate_release_ms: Binary32,
        amp_model: AmpModel,
        low_cut_hz: Binary32,
        presence: Binary32,
        air: Binary32,
        cab_model: CabModel,
        limiter_on: bool,
    ) -> (r: Self)
        ensures
            r == (GtrParams {
                input_gain: input_gain_db,
                drive,
                tone,
                space,
                width,
                output_gain: output_gain_db,
                gate_threshold: gate_threshold_db,
                gate_release_ms,
                amp_model,
                low_cut_hz,
                presence,
                air,
                cab_model,
                limiter_on,
            }),
    {
        GtrParams {
            input_gain: input_gain_db,
            drive,
            tone,
            space,
            width,
            output_gain: output_gain_db,
            gate_threshold: gate_threshold_db,
            gate_release_ms,
            amp_model,
            low_cut_hz,
            presence,
            air,
            cab_model,
            limiter_on,
        }
    }

    /// The exponent whose exponential is the linear input gain.
    pub fn input_exponent(&self) -> (r: Binary32)
        ensures
            r == db_exponent(self.input_gain),
    {
        db_to_gain_exponent(self.input_gain)
    }

    /// The exponent whose exponential is the linear output gain.
    pub fn output_exponent(&self) -> (r: Binary32)
        ensures
            r == db_exponent(self.output_gain),
    {
        db_to_gain_exponent(self.output_gain)
    }
}

impl Default for GtrParams {
    fn default() -> (r: Self)
        ensures
            r == GtrParams::defaults(),
            r.in_range(),
    {
        GtrParams::with_values(
            Binary32::from_bits(0x0000_0000),
            Binary32::from_bits(0x3f0c_cccd),
            Binary32::from_bits(0x3f00_0000),
            Binary32::from_bits(0x3e80_0000),
            Binary32::from_bits(0x3f19_999a),
            Binary32::from_bits(0x0000_0000),
            Binary32::from_bits(0xc248_0000),
            Binary32::from_bits(0x42a0_0000),
            AmpModel::CrunchTight,
            Binary32::from_bits(0x42dc_0000),
            Binary32::from_bits(0x3f00_0000),
            Binary32::from_bits(0x3e99_999a),
            CabModel::TightModern,
            true,
        )
    }
}

} // verus!
