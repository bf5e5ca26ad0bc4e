//! The cabinet: a tilt, then a presence and an air boost, or nothing at all
//! for the bypass model.

use vstd::prelude::*;
use crate::num::binary32::{Binary32, of_bits, clamped, below};
use crate::num::arith::{product, sum, difference};
use crate::params::{CabModel, GtrParams};
use crate::dsp::filters::{OnePoleHp, TiltEq, cutoff_exponent, pole_exponent};
use crate::dsp::{flush_denormals, flushed, ZERO, ONE};
use crate::dsp::filters::{lemma_high_pass_rests, lemma_tilt_rests};
use crate::num::laws::{lemma_product_zero, lemma_sum_zero, lemma_product_under, lemma_sum_under, lemma_sum_monotone, lemma_sum_with_zero, lemma_landmarks, under, in_unit};
use crate::num::binary32::at_most;

verus! {

/// 1600, 3000 and 8000 Hz: tilt pivot, presence corner, air corner.
pub const TILT_PIVOT_HZ: u32 = 0x44c8_0000;

pub const PRESENCE_HZ: u32 = 0x453b_8000;

pub const AIR_HZ: u32 = 0x45fa_0000;

pub const TWO: u32 = 0x4000_0000;

pub const THREE: u32 = 0x4040_0000;

/// The poles of the cabinet's three filters; as returned by
/// [`Cab::exponents`] they hold the exponents to evaluate.
#[derive(Clone, Copy, Debug)]
pub struct CabPoles {
    pub tilt: Binary32,
    pub presence: Binary32,
    pub air: Binary32,
}

/// What each model adds to the tone: 0.1, -0.1, 0.25, and nothing for the
/// bypass.
pub open spec fn tone_bias_of(model: CabModel) -> Binary32 {
    match model {
        CabModel::TightModern => of_bits(0x3dcc_cccd),
        CabModel::WarmVintage => of_bits(0xbdcc_cccd),
        CabModel::BrightPop => of_bits(0x3e80_0000),
        CabModel::DiBypass => of_bits(0x0000_0000),
    }
}

/// `2 * clamp(tone + bias, 0, 1) - 1`.
pub open spec fn tilt_amount(p: GtrParams) -> Binary32 {
    let tone_amt = clamped(sum(p.tone, tone_bias_of(p.cab_model)), of_bits(ZERO), of_bits(ONE));
    difference(product(tone_amt, of_bits(TWO)), of_bits(ONE))
}

/// `(1 + slope * amount) - 1`: the gain at which a boost adds its band back.
pub open spec fn boost_gain(slope: u32, amount: Binary32) -> Binary32 {
    difference(sum(of_bits(ONE), product(of_bits(slope), amount)), of_bits(ONE))
}

/// What a model adds to the tone.
pub fn tone_bias(model: CabModel) -> (r: Binary32)
    ensures
        r == tone_bias_of(model),
{
    match model {
        CabModel::TightModern => Binary32::from_bits(0x3dcc_cccd),
        CabModel::WarmVintage => Binary32::from_bits(0xbdcc_cccd),
        CabModel::BrightPop => Binary32::from_bits(0x3e80_0000),
        CabModel::DiBypass => Binary32::from_bits(0x0000_0000),
    }
}

/// The cabinet: a tilt and two high-passes for the boosts.
#[derive(Clone, Copy, Debug)]
pub struct Cab {
    pub sr: Binary32,
    pub tilt: TiltEq,
    pub presence_hp: OnePoleHp,
    pub air_hp: OnePoleHp,
}

impl Cab {
    /// The exponents whose exponentials are the three poles at `sr`.
    pub open spec fn exponents_of(sr: Binary32) -> CabPoles {
        CabPoles {
            tilt: pole_exponent(sr, of_bits(TILT_PIVOT_HZ)),
            presence: pole_exponent(sr, of_bits(PRESENCE_HZ)),
            air: pole_exponent(sr, of_bits(AIR_HZ)),
        }
    }

    /// The signal after the tilt.
    pub open spec fn tilted(self, x: Binary32, p: GtrParams) -> Binary32 {
        self.tilt.output(x, tilt_amount(p))
    }

    /// The signal after the presence boost, which runs only for a presence
    /// above zero.
    pub open spec fn with_presence(self, x: Binary32, p: GtrParams) -> Binary32 {
        let y = self.tilted(x, p);
        if below(of_bits(ZERO), p.presence) {
            sum(y, product(self.presence_hp.output(y), boost_gain(TWO, p.presence)))
        } else {
            y
        }
    }

    /// The signal after the air boost, which runs only for an air above zero.
    pub open spec fn with_air(self, x: Binary32, p: GtrParams) -> Binary32 {
        let y = self.with_presence(x, p);
        if below(of_bits(ZERO), p.air) {
            sum(y, product(self.air_hp.output(y), boost_gain(THREE, p.air)))
        } else {
            y
        }
    }

    /// The output for one input: the input itself for the bypass model.
    pub open spec fn output(self, x: Binary32, p: GtrParams) -> Binary32 {
        if p.cab_model == CabModel::DiBypass {
            x
        } else {
            flushed(self.with_air(x, p))
        }
    }

    /// The cabinet after one input: untouched by the bypass model; else each
    /// filter that ran has taken its input.
    pub open spec fn step(self, x: Binary32, p: GtrParams) -> Self {
        if p.cab_model == CabModel::DiBypass {
            self
        } else {
            Cab {
                sr: self.sr,
                tilt: self.tilt.step(x),
                presence_hp: if below(of_bits(ZERO), p.presence) {
                    self.presence_hp.step(self.tilted(x, p))
                } else {
                    self.presence_hp
                },
                air_hp: if below(of_bits(ZERO), p.air) {
                    self.air_hp.step(self.with_presence(x, p))
                } else {
                    self.air_hp
                },
            }
        }
    }

    /// A cabinet with cleared filters and the given poles.
    pub open spec fn fresh(sr: Binary32, k: CabPoles) -> Self {
        Cab {
            sr,
            tilt: TiltEq {
                lp: crate::dsp::filters::OnePoleLp { a: difference(of_bits(ONE), k.tilt), z: of_bits(ZERO) },
                strength: of_bits(crate::dsp::filters::TILT_STRENGTH),
            },
            presence_hp: OnePoleHp {
                lp: crate::dsp::filters::OnePoleLp { a: difference(of_bits(ONE), k.presence), z: of_bits(ZERO) },
            },
            air_hp: OnePoleHp {
                lp: crate::dsp::filters::OnePoleLp { a: difference(of_bits(ONE), k.air), z: of_bits(ZERO) },
            },
        }
    }

    /// The cabinet with the given poles, filter memory untouched.
    pub open spec fn tuned(self, sr: Binary32, k: CabPoles) -> Self {
        Cab {
            sr,
            tilt: TiltEq {
                lp: crate::dsp::filters::OnePoleLp { a: difference(of_bits(ONE), k.tilt), z: self.tilt.lp.z },
                strength: self.tilt.strength,
            },
            presence_hp: OnePoleHp {
                lp: crate::dsp::filters::OnePoleLp {
                    a: difference(of_bits(ONE), k.presence),
                    z: self.presence_hp.lp.z,
                },
            },
            air_hp: OnePoleHp {
                lp: crate::dsp::filters::OnePoleLp { a: difference(of_bits(ONE), k.air), z: self.air_hp.lp.z },
            },
        }
    }

    /// The exponents to evaluate for the cabinet's poles at `sr`.
    pub fn exponents(sr: Binary32) -> (r: CabPoles)
        ensures
            r == Self::exponents_of(sr),
    {
        CabPoles {
            tilt: cutoff_exponent(sr, Binary32::from_bits(TILT_PIVOT_HZ)),
            presence: cutoff_exponent(sr, Binary32::from_bits(PRESENCE_HZ)),
            air: cutoff_exponent(sr, Binary32::from_bits(AIR_HZ)),
        }
    }

    /// `k` holds the exponentials of `Cab::exponents` for `sr`.
    pub fn new(sr: Binary32, k: &CabPoles) -> (r: Self)
        ensures
            r == Self::fresh(sr, *k),
    {
        let mut c = Cab { sr, tilt: TiltEq::new(), presence_hp: OnePoleHp::new(), air_hp: OnePoleHp::new() };
        c.reset(sr, k);
        c
    }

    /// Clears the filters and sets their poles anew.
    pub fn reset(&mut self, sr: Binary32, k: &CabPoles)
        ensures
            *final(self) == Self::fresh(sr, *k),
    {
        self.sr = sr;
        self.tilt = TiltEq::new();
        self.tilt.set_pivot(k.tilt);
        self.presence_hp = OnePoleHp::new();
        self.presence_hp.set_cutoff(k.presence);
        self.air_hp = OnePoleHp::new();
        self.air_hp.set_cutoff(k.air);
    }

    /// Sets the poles anew and keeps the filters' memory.
    pub fn update_params(&mut self, sr: Binary32, k: &CabPoles)
        ensures
            *final(self) == old(self).tuned(sr, *k),
    {
        self.sr = sr;
        self.tilt.set_pivot(k.tilt);
        self.presence_hp.set_cutoff(k.presence);
        self.air_hp.set_cutoff(k.air);
    }

    /// One sample through the cabinet.
    pub fn process_sample(&mut self, x: Binary32, p: &GtrParams) -> (y: Binary32)
        ensures
            *final(self) == old(self).step(x, *p),
            y == old(self).output(x, *p),
    {
        if p.cab_model == CabModel::DiBypass {
            return x;
        }
        let bias = tone_bias(p.cab_model);
        let tone_amt = p.tone.plus(bias).clamp(Binary32::from_bits(ZERO), Binary32::from_bits(ONE));
        let tilt = tone_amt.times(Binary32::from_bits(TWO)).minus(Binary32::from_bits(ONE));
        let mut y = self.tilt.process(x, tilt);
        if p.presence.gt(Binary32::from_bits(ZERO)) {
            let base = Binary32::from_bits(ONE).plus(Binary32::from_bits(TWO).times(p.presence));
            let hi_mid = self.presence_hp.process(y);
            y = y.plus(hi_mid.times(base.minus(Binary32::from_bits(ONE))));
        }
        if p.air.gt(Binary32::from_bits(ZERO)) {
            let base = Binary32::from_bits(ONE).plus(Binary32::from_bits(THREE).times(p.air));
            let hi_hi = self.air_hp.process(y);
            y = y.plus(hi_hi.times(base.minus(Binary32::from_bits(ONE))));
        }
        flush_denormals(y)
    }
}

impl CabPoles {
    /// Each pole lies between 0 and 1, as the exponential of what
    /// `Cab::exponents` returns does.
    pub open spec fn valid(self) -> bool {
        in_unit(self.tilt) && in_unit(self.presence) && in_unit(self.air)
    }
}

impl Cab {
    /// No filter holds anything, and the coefficients are finite.
    pub open spec fn at_rest(self) -> bool {
        &&& self.tilt.lp.z.is_zero()
        &&& self.tilt.lp.a.is_finite()
        &&& under(self.tilt.strength, 0)
        &&& self.presence_hp.lp.z.is_zero()
        &&& self.presence_hp.lp.a.is_finite()
        &&& self.air_hp.lp.z.is_zero()
        &&& self.air_hp.lp.a.is_finite()
    }
}

/// The bypass model hands every input through untouched, whatever the
/// tone, presence and air, and leaves the filters alone.
pub proof fn lemma_bypass_is_identity(c: Cab, x: Binary32, p: GtrParams)
    requires
        p.cab_model == CabModel::DiBypass,
    ensures
        c.output(x, p) == x,
        c.step(x, p) == c,
{
}

/// With the tone in its range the tilt amount is a number.
pub proof fn lemma_tilt_amount_is_a_number(p: GtrParams)
    requires
        p.in_range(),
    ensures
        !tilt_amount(p).is_nan(),
{
    lemma_sum_under(p.tone, tone_bias_of(p.cab_model), 0);
    let tone_amt = clamped(sum(p.tone, tone_bias_of(p.cab_model)), of_bits(ZERO), of_bits(ONE));
    lemma_product_under(tone_amt, of_bits(TWO), 0, 1);
    lemma_sum_under(product(tone_amt, of_bits(TWO)), of_bits(ONE), 1);
}

/// A boost gain for an amount between 0 and 1 is finite.
pub proof fn lemma_boost_gain_finite(slope: u32, amount: Binary32)
    requires
        under(of_bits(slope), 2),
        in_unit(amount),
    ensures
        boost_gain(slope, amount).is_finite(),
{
    lemma_product_under(of_bits(slope), amount, 2, 0);
    lemma_sum_under(of_bits(ONE), product(of_bits(slope), amount), 2);
    lemma_sum_under(sum(of_bits(ONE), product(of_bits(slope), amount)), of_bits(ONE), 3);
}

/// A fresh cabinet is at rest, and so is one that takes new poles at rest.
pub proof fn lemma_fresh_cab_rests(c: Cab, sr: Binary32, k: CabPoles)
    requires
        k.valid(),
    ensures
        Cab::fresh(sr, k).at_rest(),
        c.at_rest() ==> c.tuned(sr, k).at_rest(),
{
    lemma_sum_under(of_bits(ONE), k.tilt, 0);
    lemma_sum_under(of_bits(ONE), k.presence, 0);
    lemma_sum_under(of_bits(ONE), k.air, 0);
}

/// With every control in its range a cabinet at rest answers zero with
/// zero and stays at rest.
pub proof fn lemma_cab_rests(c: Cab, x: Binary32, p: GtrParams)
    requires
        c.at_rest(),
        x.is_zero(),
        p.in_range(),
    ensures
        c.output(x, p).is_zero(),
        c.step(x, p).at_rest(),
{
    if p.cab_model != CabModel::DiBypass {
        lemma_tilt_amount_is_a_number(p);
        lemma_tilt_rests(c.tilt, x, tilt_amount(p));
        let y1 = c.tilted(x, p);
        if below(of_bits(ZERO), p.presence) {
            lemma_high_pass_rests(c.presence_hp, y1);
            lemma_boost_gain_finite(TWO, p.presence);
            lemma_product_zero(c.presence_hp.output(y1), boost_gain(TWO, p.presence));
            lemma_sum_zero(y1, product(c.presence_hp.output(y1), boost_gain(TWO, p.presence)));
        }
        let y2 = c.with_presence(x, p);
        if below(of_bits(ZERO), p.air) {
            lemma_high_pass_rests(c.air_hp, y2);
            lemma_boost_gain_finite(THREE, p.air);
            lemma_product_zero(c.air_hp.output(y2), boost_gain(THREE, p.air));
            lemma_sum_zero(y2, product(c.air_hp.output(y2), boost_gain(THREE, p.air)));
        }
    }
}

/// A boost never cuts: for an amount between 0 and 1 and a slope that is
/// not negative, the gain at which a band is added back is not negative.
pub proof fn lemma_boost_never_cuts(slope: u32, amount: Binary32)
    requires
        slope <= 0x4080_0000,
        in_unit(amount),
    ensures
        at_most(of_bits(ZERO), boost_gain(slope, amount)),
{
    let one = of_bits(ONE);
    let minus_one = of_bits(crate::dsp::MINUS_ONE);
    let scaled = product(of_bits(slope), amount);
    lemma_product_under(of_bits(slope), amount, 2, 0);
    if amount.is_zero() {
        lemma_product_zero(amount, of_bits(slope));
    }
    lemma_sum_monotone(one, of_bits(ZERO), one, scaled);
    lemma_sum_with_zero(one, of_bits(ZERO));
    lemma_sum_under(one, scaled, 2);
    lemma_sum_monotone(one, minus_one, sum(one, scaled), minus_one);
    lemma_landmarks();
}

} // verus!
