//! One channel's chain: input trim, gate, low cut, amp, cabinet.

use vstd::prelude::*;
use crate::num::binary32::{Binary32, of_bits};
use crate::num::arith::{product, difference};
use crate::params::GtrParams;
use crate::dsp::amp::{Amp, amp_output};
use crate::dsp::cab::{Cab, CabPoles};
use crate::dsp::filters::{OnePoleHp, OnePoleLp, cutoff_exponent, pole_exponent};
use crate::dsp::gate::{Gate, GateCoeffs};
use crate::dsp::{ZERO, ONE};
use crate::dsp::amp::lemma_amp_rests;
use crate::dsp::cab::{lemma_cab_rests, lemma_fresh_cab_rests};
use crate::dsp::filters::lemma_high_pass_rests;
use crate::dsp::gate::{lemma_gate_stays_well_formed, lemma_fresh_gate_is_well_formed};
use crate::num::laws::{lemma_product_zero, lemma_product_in_unit, lemma_sum_under, in_unit};

verus! {

/// 100 Hz: the low cut a chain starts with, until a snapshot sets its own.
pub const START_LOW_CUT_HZ: u32 = 0x42c8_0000;

/// Every exponential a chain's coefficients come from; as returned by
/// [`GuitarChain::exponents`] it holds the exponents to evaluate.
#[derive(Clone, Copy, Debug)]
pub struct ChainCoeffs {
    pub gate: GateCoeffs,
    /// Pole of the low cut.
    pub low_cut: Binary32,
    pub cab: CabPoles,
}

/// One channel's chain. Left and right each own one and share nothing.
pub struct GuitarChain {
    pub sr: Binary32,
    pub gate: Gate,
    pub pre_lowcut: OnePoleHp,
    pub amp: Amp,
    pub cab: Cab,
}

impl GuitarChain {
    /// The exponents for a snapshot at `sr`, with the low cut at `low_cut_hz`.
    pub open spec fn exponents_of(sr: Binary32, p: GtrParams, low_cut_hz: Binary32) -> ChainCoeffs {
        ChainCoeffs {
            gate: Gate::exponents_of(sr, p),
            low_cut: pole_exponent(sr, low_cut_hz),
            cab: Cab::exponents_of(sr),
        }
    }

    /// The signal after trim, gate and low cut.
    pub open spec fn low_cut_output(self, x: Binary32, input_linear: Binary32) -> Binary32 {
        self.pre_lowcut.output(self.gate.output(product(x, input_linear)))
    }

    /// The output for one input: trim, gate, low cut, amp, cabinet.
    pub open spec fn output(self, x: Binary32, p: GtrParams, input_linear: Binary32) -> Binary32 {
        self.cab.output(amp_output(self.low_cut_output(x, input_linear), p), p)
    }

    /// The chain after one input.
    pub open spec fn step(self, x: Binary32, p: GtrParams, input_linear: Binary32) -> Self {
        let trimmed = product(x, input_linear);
        GuitarChain {
            sr: self.sr,
            gate: self.gate.step(trimmed),
            pre_lowcut: self.pre_lowcut.step(self.gate.output(trimmed)),
            amp: self.amp,
            cab: self.cab.step(amp_output(self.low_cut_output(x, input_linear), p), p),
        }
    }

    /// A chain at silence, as a new or reset one is: gate open and tuned
    /// for the default snapshot, filters cleared, the low cut and the cabinet
    /// on the given poles.
    pub open spec fn fresh(sr: Binary32, k: ChainCoeffs) -> Self {
        GuitarChain {
            sr,
            gate: Gate::fresh(sr, k.gate),
            pre_lowcut: OnePoleHp { lp: OnePoleLp { a: difference(of_bits(ONE), k.low_cut), z: of_bits(ZERO) } },
            amp: Amp { sr },
            cab: Cab::fresh(sr, k.cab),
        }
    }

    /// The chain with the coefficients for a snapshot, memory untouched.
    pub open spec fn tuned(self, p: GtrParams, k: ChainCoeffs) -> Self {
        GuitarChain {
            sr: self.sr,
            gate: self.gate.tuned(self.sr, p, k.gate),
            pre_lowcut: OnePoleHp {
                lp: OnePoleLp { a: difference(of_bits(ONE), k.low_cut), z: self.pre_lowcut.lp.z },
            },
            amp: self.amp,
            cab: self.cab.tuned(self.sr, k.cab),
        }
    }

    /// The exponents to evaluate before [`GuitarChain::update_params`].
    pub fn exponents(sr: Binary32, p: &GtrParams) -> (r: ChainCoeffs)
        ensures
            r == Self::exponents_of(sr, *p, p.low_cut_hz),
    {
        ChainCoeffs {
            gate: Gate::exponents(sr, p),
            low_cut: cutoff_exponent(sr, p.low_cut_hz),
            cab: Cab::exponents(sr),
        }
    }

    /// The exponents to evaluate before [`GuitarChain::new`] and
    /// [`GuitarChain::reset`]: those of the default snapshot, with the low
    /// cut at 100 Hz.
    pub fn start_exponents(sr: Binary32) -> (r: ChainCoeffs)
        ensures
            r == Self::exponents_of(sr, GtrParams::defaults(), of_bits(START_LOW_CUT_HZ)),
    {
        let p = GtrParams::default();
        ChainCoeffs {
            gate: Gate::exponents(sr, &p),
            low_cut: cutoff_exponent(sr, Binary32::from_bits(START_LOW_CUT_HZ)),
            cab: Cab::exponents(sr),
        }
    }

    /// `k` holds the exponentials of `GuitarChain::start_exponents` for `sr`.
    pub fn new(sr: Binary32, k: &ChainCoeffs) -> (r: Self)
        ensures
            r == Self::fresh(sr, *k),
    {
        let mut chain = GuitarChain {
            sr,
            gate: Gate::new(sr, &k.gate),
            pre_lowcut: OnePoleHp::new(),
            amp: Amp::new(sr),
            cab: Cab::new(sr, &k.cab),
        };
        chain.reset(sr, k);
        chain
    }

    /// Returns the chain to what a new one is at `sr`, whatever it held;
    /// `k` holds the exponentials of `GuitarChain::start_exponents` for `sr`.
    pub fn reset(&mut self, sr: Binary32, k: &ChainCoeffs)
        ensures
            *final(self) == Self::fresh(sr, *k),
    {
        self.sr = sr;
        self.gate.reset(sr, &k.gate);
        self.pre_lowcut = OnePoleHp::new();
        self.pre_lowcut.set_cutoff(k.low_cut);
        self.amp.reset(sr);
        self.cab.reset(sr, &k.cab);
    }

    /// Called once per block; `k` holds the exponentials of
    /// `GuitarChain::exponents` for the chain's sample rate and `p`.
    pub fn update_params(&mut self, p: &GtrParams, k: &ChainCoeffs)
        ensures
            *final(self) == old(self).tuned(*p, *k),
    {
        self.gate.update_params(self.sr, p, &k.gate);
        self.pre_lowcut.set_cutoff(k.low_cut);
        self.cab.update_params(self.sr, &k.cab);
    }

    /// One sample through the chain; `input_linear` is the exponential of
    /// `p.input_exponent()`.
    pub fn process_sample(&mut self, x: Binary32, p: &GtrParams, input_linear: Binary32) -> (y: Binary32)
        ensures
            *final(self) == old(self).step(x, *p, input_linear),
            y == old(self).output(x, *p, input_linear),
    {
        let mut s = x.times(input_linear);
        s = self.gate.process_sample(s);
        s = self.pre_lowcut.process(s);
        s = self.amp.process_sample(s, p);
        s = self.cab.process_sample(s, p);
        s
    }
}

impl ChainCoeffs {
    /// Every decay and pole lies between 0 and 1.
    pub open spec fn valid(self) -> bool {
        self.gate.valid() && in_unit(self.low_cut) && self.cab.valid()
    }
}

impl GuitarChain {
    /// The chain holds no signal: no envelope, no filter memory; its gate
    /// is well-formed and its coefficients are finite.
    pub open spec fn at_rest(self) -> bool {
        &&& self.gate.wf()
        &&& self.gate.env.is_zero()
        &&& self.pre_lowcut.lp.z.is_zero()
        &&& self.pre_lowcut.lp.a.is_finite()
        &&& self.cab.at_rest()
    }

    /// The chain after `n` samples of silence.
    pub open spec fn idle(self, p: GtrParams, input_linear: Binary32, n: nat) -> Self
        decreases n,
    {
        if n == 0 {
            self
        } else {
            self.idle(p, input_linear, (n - 1) as nat).step(of_bits(ZERO), p, input_linear)
        }
    }
}

/// A chain is at rest when new or reset, and still after it takes the
/// coefficients of a block, provided every decay and pole handed in lies
/// between 0 and 1.
pub proof fn lemma_reset_chain_rests(c: GuitarChain, sr: Binary32, p: GtrParams, k: ChainCoeffs)
    requires
        k.valid(),
    ensures
        GuitarChain::fresh(sr, k).at_rest(),
        c.at_rest() ==> c.tuned(p, k).at_rest(),
{
    lemma_fresh_gate_is_well_formed(c.gate, sr, p, k.gate);
    lemma_fresh_gate_is_well_formed(c.gate, c.sr, p, k.gate);
    lemma_fresh_cab_rests(c.cab, sr, k.cab);
    lemma_fresh_cab_rests(c.cab, c.sr, k.cab);
    lemma_sum_under(of_bits(ONE), k.low_cut, 0);
}

/// Zero is a fixed point of the chain: with every control in its range and
/// a finite input gain, a chain at rest answers zero with zero and stays at
/// rest.
pub proof fn lemma_chain_rests(c: GuitarChain, x: Binary32, p: GtrParams, input_linear: Binary32)
    requires
        c.at_rest(),
        x.is_zero(),
        p.in_range(),
        input_linear.is_finite(),
    ensures
        c.output(x, p, input_linear).is_zero(),
        c.step(x, p, input_linear).at_rest(),
{
    let trimmed = product(x, input_linear);
    lemma_product_zero(x, input_linear);
    lemma_gate_stays_well_formed(c.gate, trimmed);
    lemma_product_in_unit(c.gate.env, c.gate.env_release_coeff);
    lemma_product_zero(c.gate.env, c.gate.env_release_coeff);
    lemma_product_zero(trimmed, c.gate.next_gain(trimmed));
    let gated = c.gate.output(trimmed);
    lemma_high_pass_rests(c.pre_lowcut, gated);
    let cut = c.pre_lowcut.output(gated);
    lemma_amp_rests(cut, p);
    lemma_cab_rests(c.cab, amp_output(cut, p), p);
}

/// Silence in, silence out, for as long as it lasts: after any number of
/// zero samples a chain that was at rest is still at rest and answers the
/// next zero with zero.
pub proof fn lemma_silence_stays_silent(c: GuitarChain, p: GtrParams, input_linear: Binary32, n: nat)
    requires
        c.at_rest(),
        p.in_range(),
        input_linear.is_finite(),
    ensures
        c.idle(p, input_linear, n).at_rest(),
        c.idle(p, input_linear, n).output(of_bits(ZERO), p, input_linear).is_zero(),
    decreases n,
{
    if n > 0 {
        lemma_silence_stays_silent(c, p, input_linear, (n - 1) as nat);
        lemma_chain_rests(c.idle(p, input_linear, (n - 1) as nat), of_bits(ZERO), p, input_linear);
    }
    lemma_chain_rests(c.idle(p, input_linear, n), of_bits(ZERO), p, input_linear);
}

} // verus!
