//! Noise gate: a peak envelope follower that opens fast and closes slowly.

use vstd::prelude::*;
use crate::num::binary32::{Binary32, of_bits, absolute, below, at_most, larger};
use crate::num::laws::{lemma_product_in_unit, lemma_halfway_to_one, lemma_opening_stays_at_one, halfway_to_one, halfway_to_one_times, in_unit};
use crate::num::arith::{product, quotient};
use crate::params::{GtrParams, db_exponent, db_to_gain_exponent};
use crate::dsp::{flush_denormals, flushed, time_to_coeff, time_to_coeff_exponent, coeff_of, release_exponent, ZERO, ONE};

verus! {

/// 0.5: the share of the way to fully open that the gain covers per sample.
pub const OPEN_RATE: u32 = 0x3f00_0000;

/// 0.4: the gain closes in this share of the time the envelope takes.
pub const GAIN_RELEASE_SHARE: u32 = 0x3ecc_cccd;

/// 1000: milliseconds in a second.
pub const THOUSAND: u32 = 0x447a_0000;

/// 1e-4: the shortest release, in seconds.
pub const SHORTEST_RELEASE: u32 = 0x38d1_b717;

/// The exponentials a noise gate's coefficients come from; as returned by
/// [`Gate::exponents`] they hold the exponents to evaluate.
#[derive(Clone, Copy, Debug)]
pub struct GateCoeffs {
    /// Linear threshold.
    pub threshold: Binary32,
    /// Per-sample decay of the envelope.
    pub env_decay: Binary32,
    /// Per-sample decay of the gain.
    pub gain_decay: Binary32,
}

/// Noise gate: what it remembers between samples and its coefficients.
#[derive(Clone, Copy, Debug)]
pub struct Gate {
    /// Sample rate in Hz.
    pub sr: Binary32,
    /// Peak envelope of the input.
    pub env: Binary32,
    /// Smoothed gain, 0 closed to 1 open.
    pub gain: Binary32,
    /// Linear level under which the gain closes.
    pub thresh_lin: Binary32,
    /// Factor by which the envelope falls per sample.
    pub env_release_coeff: Binary32,
    /// Factor by which a closing gain falls per sample.
    pub gain_release_coeff: Binary32,
}

/// The release time in seconds, at least 1e-4.
pub open spec fn release_seconds(p: GtrParams) -> Binary32 {
    larger(quotient(p.gate_release_ms, of_bits(THOUSAND)), of_bits(SHORTEST_RELEASE))
}

impl Gate {
    /// The exponents whose exponentials a noise gate needs for a snapshot.
    pub open spec fn exponents_of(sr: Binary32, p: GtrParams) -> GateCoeffs {
        GateCoeffs {
            threshold: db_exponent(p.gate_threshold),
            env_decay: release_exponent(release_seconds(p), sr),
            gain_decay: release_exponent(product(release_seconds(p), of_bits(GAIN_RELEASE_SHARE)), sr),
        }
    }

    /// This gate with the coefficients for a snapshot, memory untouched.
    pub open spec fn tuned(self, sr: Binary32, p: GtrParams, k: GateCoeffs) -> Self {
        Gate {
            sr,
            env: self.env,
            gain: self.gain,
            thresh_lin: k.threshold,
            env_release_coeff: coeff_of(release_seconds(p), k.env_decay),
            gain_release_coeff: coeff_of(product(release_seconds(p), of_bits(GAIN_RELEASE_SHARE)), k.gain_decay),
        }
    }

    /// An open gate with no envelope, tuned for the default snapshot.
    pub open spec fn fresh(sr: Binary32, k: GateCoeffs) -> Self {
        (Gate {
            sr,
            env: of_bits(ZERO),
            gain: of_bits(ONE),
            thresh_lin: k.threshold,
            env_release_coeff: of_bits(ZERO),
            gain_release_coeff: of_bits(ZERO),
        }).tuned(sr, GtrParams::defaults(), k)
    }

    /// The envelope after one input: the input's level at once where that
    /// is higher, else the old envelope decayed.
    pub open spec fn next_env(self, x: Binary32) -> Binary32 {
        if below(self.env, absolute(x)) {
            absolute(x)
        } else {
            product(self.env, self.env_release_coeff)
        }
    }

    /// The gain after one input: decayed while the envelope is under the
    /// threshold, else moved half of the way to 1, `gain + (1 - gain) * 0.5`.
    pub open spec fn next_gain(self, x: Binary32) -> Binary32 {
        if below(self.next_env(x), self.thresh_lin) {
            product(self.gain, self.gain_release_coeff)
        } else {
            halfway_to_one(self.gain)
        }
    }

    /// This gate after one input.
    pub open spec fn step(self, x: Binary32) -> Self {
        Gate {
            sr: self.sr,
            env: self.next_env(x),
            gain: self.next_gain(x),
            thresh_lin: self.thresh_lin,
            env_release_coeff: self.env_release_coeff,
            gain_release_coeff: self.gain_release_coeff,
        }
    }

    /// The output for one input: the input times the new gain.
    pub open spec fn output(self, x: Binary32) -> Binary32 {
        flushed(product(x, self.next_gain(x)))
    }

    /// The exponents to evaluate before [`Gate::update_params`].
    pub fn exponents(sr: Binary32, p: &GtrParams) -> (r: GateCoeffs)
        ensures
            r == Self::exponents_of(sr, *p),
    {
        let rel_s = p.gate_release_ms.over(Binary32::from_bits(THOUSAND)).max(Binary32::from_bits(SHORTEST_RELEASE));
        GateCoeffs {
            threshold: db_to_gain_exponent(p.gate_threshold),
            env_decay: time_to_coeff_exponent(rel_s, sr),
            gain_decay: time_to_coeff_exponent(rel_s.times(Binary32::from_bits(GAIN_RELEASE_SHARE)), sr),
        }
    }

    /// An open gate with no envelope, tuned for the default snapshot; `k`
    /// holds the exponentials of `Gate::exponents` for that snapshot.
    pub fn new(sr: Binary32, k: &GateCoeffs) -> (r: Self)
        ensures
            r == Self::fresh(sr, *k),
    {
        let mut g = Gate {
            sr,
            env: Binary32::from_bits(ZERO),
            gain: Binary32::from_bits(ONE),
            thresh_lin: k.threshold,
            env_release_coeff: Binary32::from_bits(ZERO),
            gain_release_coeff: Binary32::from_bits(ZERO),
        };
        let p = GtrParams::default();
        g.update_params(sr, &p, k);
        g
    }

    /// Returns this gate to what a new one is at `sr`: open, no envelope,
    /// tuned for the default snapshot; `k` as for [`Gate::new`].
    pub fn reset(&mut self, sr: Binary32, k: &GateCoeffs)
        ensures
            *final(self) == Self::fresh(sr, *k),
    {
        self.env = Binary32::from_bits(ZERO);
        self.gain = Binary32::from_bits(ONE);
        let p = GtrParams::default();
        self.update_params(sr, &p, k);
    }

    /// Takes the coefficients for a snapshot; `k` holds the exponentials of
    /// `Gate::exponents` for it.
    pub fn update_params(&mut self, sr: Binary32, p: &GtrParams, k: &GateCoeffs)
        ensures
            *final(self) == old(self).tuned(sr, *p, *k),
    {
        self.sr = sr;
        self.thresh_lin = k.threshold;
        let rel_s = p.gate_release_ms.over(Binary32::from_bits(THOUSAND)).max(Binary32::from_bits(SHORTEST_RELEASE));
        self.env_release_coeff = time_to_coeff(rel_s, k.env_decay);
        self.gain_release_coeff = time_to_coeff(rel_s.times(Binary32::from_bits(GAIN_RELEASE_SHARE)), k.gain_decay);
    }

    /// One sample through this gate.
    pub fn process_sample(&mut self, x: Binary32) -> (y: Binary32)
        ensures
            *final(self) == old(self).step(x),
            y == old(self).output(x),
    {
        let level = x.abs();
        if level.gt(self.env) {
            self.env = level;
        } else {
            self.env = self.env.times(self.env_release_coeff);
        }
        if self.env.lt(self.thresh_lin) {
            self.gain = self.gain.times(self.gain_release_coeff);
        } else {
            self.gain = self.gain.plus(Binary32::from_bits(ONE).minus(self.gain).times(Binary32::from_bits(OPEN_RATE)));
        }
        flush_denormals(x.times(self.gain))
    }
}

impl Gate {
    /// The envelope is finite and not negative, the gain lies between 0
    /// and 1, and so does each release coefficient.
    pub open spec fn wf(self) -> bool {
        &&& at_most(of_bits(ZERO), self.env)
        &&& self.env.is_finite()
        &&& in_unit(self.gain)
        &&& in_unit(self.env_release_coeff)
        &&& in_unit(self.gain_release_coeff)
    }

    /// The envelope is at or above the threshold after input `x`, so that
    /// the gain opens.
    pub open spec fn opens(self, x: Binary32) -> bool {
        !below(self.next_env(x), self.thresh_lin)
    }

    /// This gate after the inputs `xs`, first to last.
    pub open spec fn run(self, xs: Seq<Binary32>) -> Self
        decreases xs.len(),
    {
        if xs.len() == 0 {
            self
        } else {
            self.step(xs[0]).run(xs.subrange(1, xs.len() as int))
        }
    }

    /// The gain opens at every one of the inputs `xs`.
    pub open spec fn opens_throughout(self, xs: Seq<Binary32>) -> bool
        decreases xs.len(),
    {
        xs.len() == 0 || (self.opens(xs[0]) && self.step(xs[0]).opens_throughout(xs.subrange(1, xs.len() as int)))
    }
}

/// One input that is not an infinity keeps a well-formed gate well-formed.
pub proof fn lemma_gate_stays_well_formed(g: Gate, x: Binary32)
    requires
        g.wf(),
        !x.is_infinite(),
    ensures
        g.step(x).wf(),
{
    lemma_product_in_unit(g.env, g.env_release_coeff);
    lemma_product_in_unit(g.gain, g.gain_release_coeff);
    lemma_halfway_to_one(g.gain);
}

/// While the envelope is at or above the threshold the gain never falls
/// and never passes 1.
pub proof fn lemma_gate_opens_upward(g: Gate, x: Binary32)
    requires
        g.wf(),
        g.opens(x),
    ensures
        at_most(g.gain, g.step(x).gain),
        at_most(g.step(x).gain, of_bits(ONE)),
{
    lemma_halfway_to_one(g.gain);
}

/// While the envelope is under the threshold the gain is multiplied by the
/// gain release coefficient each sample, so it never rises and never
/// passes below 0.
pub proof fn lemma_gate_closes_downward(g: Gate, x: Binary32)
    requires
        g.wf(),
        !g.opens(x),
    ensures
        g.step(x).gain == product(g.gain, g.gain_release_coeff),
        at_most(g.step(x).gain, g.gain),
        at_most(of_bits(ZERO), g.step(x).gain),
{
    lemma_product_in_unit(g.gain, g.gain_release_coeff);
}

impl GateCoeffs {
    /// Each decay lies between 0 and 1, as the exponential of what
    /// `Gate::exponents` returns does.
    pub open spec fn valid(self) -> bool {
        in_unit(self.env_decay) && in_unit(self.gain_decay)
    }
}

/// A gate that is new or reset is well-formed, and a well-formed one
/// stays so when it takes new coefficients.
pub proof fn lemma_fresh_gate_is_well_formed(g: Gate, sr: Binary32, p: GtrParams, k: GateCoeffs)
    requires
        k.valid(),
    ensures
        Gate::fresh(sr, k).wf(),
        Gate::fresh(sr, k).env.is_zero(),
        g.wf() ==> g.tuned(sr, p, k).wf(),
{
}

/// While the gain opens it takes one opening step per input.
pub proof fn lemma_gate_opening_run(g: Gate, xs: Seq<Binary32>)
    requires
        g.opens_throughout(xs),
    ensures
        g.run(xs).gain == halfway_to_one_times(g.gain, xs.len()),
    decreases xs.len(),
{
    if xs.len() > 0 {
        lemma_gate_opening_run(g.step(xs[0]), xs.subrange(1, xs.len() as int));
    }
}

/// An input held above the threshold opens a gate fully: after 25 samples
/// or more at each of which the envelope is at or above the threshold, the
/// gain is exactly 1.
pub proof fn lemma_gate_opens_fully(g: Gate, xs: Seq<Binary32>)
    requires
        in_unit(g.gain),
        g.opens_throughout(xs),
        xs.len() >= 25,
    ensures
        g.run(xs).gain == of_bits(ONE),
{
    lemma_gate_opening_run(g, xs);
    lemma_opening_stays_at_one(g.gain, xs.len());
}

} // verus!
