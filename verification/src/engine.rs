//! The whole effect: one chain per channel into the shared stereo stage.

use vstd::prelude::*;
use crate::num::binary32::{Binary32, of_bits};
use crate::params::{GtrParams, db_exponent};
use crate::dsp::chain::{GuitarChain, ChainCoeffs, lemma_chain_rests, lemma_reset_chain_rests};
use crate::dsp::fx::{StereoFx, FxState, Limiter, lemma_stage_rests, lemma_silent_stage_rests, LIMITER_RELEASE_S};
use crate::num::laws::in_unit;
use crate::dsp::{release_exponent, ZERO};

verus! {

/// 44100 Hz: the sample rate before the host names one.
pub const DEFAULT_SAMPLE_RATE: u32 = 0x472c_4400;

/// The exponentials needed to start or reset at a sample rate; as returned
/// by [`EdmGtr::start_exponents`] it holds the exponents to evaluate.
#[derive(Clone, Copy, Debug)]
pub struct StartCoeffs {
    pub chain: ChainCoeffs,
    /// Release of the limiter.
    pub limiter: Binary32,
}

/// The exponentials needed for one block; as returned by
/// [`EdmGtr::block_exponents`] it holds the exponents to evaluate.
#[derive(Clone, Copy, Debug)]
pub struct BlockCoeffs {
    pub chain: ChainCoeffs,
    /// Linear input gain.
    pub input_linear: Binary32,
    /// Linear output gain.
    pub output_linear: Binary32,
}

/// What the effect holds.
pub struct EngineState {
    pub sample_rate: Binary32,
    pub chain_l: GuitarChain,
    pub chain_r: GuitarChain,
    pub fx: FxState,
}

/// The right input, or the left one where there is no right channel.
pub open spec fn right_or_left(in_l: Binary32, in_r: Option<Binary32>) -> Binary32 {
    match in_r {
        Some(r) => r,
        None => in_l,
    }
}

impl EngineState {
    /// The output for one frame: each chain's output for its channel,
    /// through the stereo stage.
    pub open spec fn output(self, in_l: Binary32, in_r: Option<Binary32>, p: GtrParams, k: BlockCoeffs) -> (
        Binary32,
        Binary32,
    ) {
        self.fx.output(
            self.chain_l.output(in_l, p, k.input_linear),
            self.chain_r.output(right_or_left(in_l, in_r), p, k.input_linear),
            p,
            k.output_linear,
        )
    }

    /// The effect after one frame.
    pub open spec fn step(self, in_l: Binary32, in_r: Option<Binary32>, p: GtrParams, k: BlockCoeffs) -> Self {
        EngineState {
            sample_rate: self.sample_rate,
            chain_l: self.chain_l.step(in_l, p, k.input_linear),
            chain_r: self.chain_r.step(right_or_left(in_l, in_r), p, k.input_linear),
            fx: self.fx.step(
                self.chain_l.output(in_l, p, k.input_linear),
                self.chain_r.output(right_or_left(in_l, in_r), p, k.input_linear),
                p,
                k.output_linear,
            ),
        }
    }

    /// The effect at silence for a sample rate, as a new or reset one is.
    pub open spec fn fresh(sr: Binary32, k: StartCoeffs) -> Self {
        EngineState {
            sample_rate: sr,
            chain_l: GuitarChain::fresh(sr, k.chain),
            chain_r: GuitarChain::fresh(sr, k.chain),
            fx: FxState::silent(sr, Limiter::fresh(sr, k.limiter)),
        }
    }
}

/// The effect: left chain, right chain and stereo stage at one sample rate.
pub struct EdmGtr {
    pub sample_rate: Binary32,
    pub chain_l: GuitarChain,
    pub chain_r: GuitarChain,
    pub fx: StereoFx,
}

impl View for EdmGtr {
    type V = EngineState;

    open spec fn view(&self) -> EngineState {
        EngineState { sample_rate: self.sample_rate, chain_l: self.chain_l, chain_r: self.chain_r, fx: self.fx@ }
    }
}

impl EdmGtr {
    /// The exponents to evaluate before [`EdmGtr::new`],
    /// [`EdmGtr::initialize`] and [`EdmGtr::reset`].
    pub fn start_exponents(sr: Binary32) -> (r: StartCoeffs)
        ensures
            r.chain == GuitarChain::exponents_of(
                sr,
                GtrParams::defaults(),
                of_bits(crate::dsp::chain::START_LOW_CUT_HZ),
            ),
            r.limiter == release_exponent(of_bits(LIMITER_RELEASE_S), sr),
    {
        StartCoeffs { chain: GuitarChain::start_exponents(sr), limiter: Limiter::exponent(sr) }
    }

    /// The exponents to evaluate at the start of a block.
    pub fn block_exponents(&self, p: &GtrParams) -> (r: BlockCoeffs)
        ensures
            r.chain == GuitarChain::exponents_of(self.sample_rate, *p, p.low_cut_hz),
            r.input_linear == db_exponent(p.input_gain),
            r.output_linear == db_exponent(p.output_gain),
    {
        BlockCoeffs {
            chain: GuitarChain::exponents(self.sample_rate, p),
            input_linear: p.input_exponent(),
            output_linear: p.output_exponent(),
        }
    }

    /// The effect at silence; `k` holds the exponentials of
    /// `EdmGtr::start_exponents` for `sr`.
    pub fn new(sr: Binary32, k: &StartCoeffs) -> (r: Self)
        ensures
            r@ == EngineState::fresh(sr, *k),
    {
        EdmGtr {
            sample_rate: sr,
            chain_l: GuitarChain::new(sr, &k.chain),
            chain_r: GuitarChain::new(sr, &k.chain),
            fx: StereoFx::new(sr, k.limiter),
        }
    }

    /// Takes the host's sample rate and returns everything to silence; `k`
    /// holds the exponentials of `EdmGtr::start_exponents` for `sr`.
    /// Always succeeds.
    pub fn initialize(&mut self, sr: Binary32, k: &StartCoeffs) -> (ok: bool)
        ensures
            ok,
            final(self)@ == EngineState::fresh(sr, *k),
    {
        self.sample_rate = sr;
        self.chain_l.reset(sr, &k.chain);
        self.chain_r.reset(sr, &k.chain);
        self.fx.reset(sr, k.limiter);
        true
    }

    /// Returns everything to silence at the current sample rate, whatever
    /// the effect held; `k` holds the exponentials of
    /// `EdmGtr::start_exponents` for that rate.
    pub fn reset(&mut self, k: &StartCoeffs)
        ensures
            final(self)@ == EngineState::fresh(old(self).sample_rate, *k),
    {
        self.chain_l.reset(self.sample_rate, &k.chain);
        self.chain_r.reset(self.sample_rate, &k.chain);
        self.fx.reset(self.sample_rate, k.limiter);
    }

    /// Called once at the start of a block; `k` holds the exponentials of
    /// `block_exponents` for `p`.
    pub fn update_params(&mut self, p: &GtrParams, k: &BlockCoeffs)
        ensures
            final(self)@ == (EngineState {
                chain_l: old(self).chain_l.tuned(*p, k.chain),
                chain_r: old(self).chain_r.tuned(*p, k.chain),
                ..old(self)@
            }),
    {
        self.chain_l.update_params(p, &k.chain);
        self.chain_r.update_params(p, &k.chain);
    }

    /// One frame through the effect. Without a right input the left one
    /// feeds both chains.
    pub fn process_frame(&mut self, in_l: Binary32, in_r: Option<Binary32>, p: &GtrParams, k: &BlockCoeffs) -> (out: (
        Binary32,
        Binary32,
    ))
        ensures
            out == old(self)@.output(in_l, in_r, *p, *k),
            final(self)@ == old(self)@.step(in_l, in_r, *p, *k),
    {
        let right = match in_r {
            Some(r) => r,
            None => in_l,
        };
        let dry_l = self.chain_l.process_sample(in_l, p, k.input_linear);
        let dry_r = self.chain_r.process_sample(right, p, k.input_linear);
        self.fx.process_frame(dry_l, dry_r, p, k.output_linear)
    }
}

impl StartCoeffs {
    /// Every decay and pole lies between 0 and 1.
    pub open spec fn valid(self) -> bool {
        self.chain.valid() && in_unit(self.limiter)
    }
}

impl BlockCoeffs {
    /// Every decay and pole lies between 0 and 1, and both gains are
    /// finite.
    pub open spec fn valid(self) -> bool {
        self.chain.valid() && self.input_linear.is_finite() && self.output_linear.is_finite()
    }
}

impl EngineState {
    /// The effect holds no signal anywhere.
    pub open spec fn at_rest(self) -> bool {
        self.chain_l.at_rest() && self.chain_r.at_rest() && self.fx.at_rest()
    }

    /// The effect after `n` frames of silence.
    pub open spec fn idle(self, p: GtrParams, k: BlockCoeffs, n: nat) -> Self
        decreases n,
    {
        if n == 0 {
            self
        } else {
            self.idle(p, k, (n - 1) as nat).step(of_bits(ZERO), Some(of_bits(ZERO)), p, k)
        }
    }
}

/// The effect is at rest when new or reset, and stays at rest when it takes
/// the coefficients of a block, provided every decay and pole handed in lies
/// between 0 and 1.
pub proof fn lemma_new_effect_rests(e: EngineState, sr: Binary32, start: StartCoeffs, p: GtrParams, k: BlockCoeffs)
    requires
        start.valid(),
        k.valid(),
    ensures
        EngineState::fresh(sr, start).at_rest(),
        e.at_rest() ==> (EngineState {
            chain_l: e.chain_l.tuned(p, k.chain),
            chain_r: e.chain_r.tuned(p, k.chain),
            ..e
        }).at_rest(),
{
    lemma_reset_chain_rests(e.chain_l, sr, p, start.chain);
    lemma_reset_chain_rests(e.chain_l, sr, p, k.chain);
    lemma_reset_chain_rests(e.chain_r, sr, p, k.chain);
    lemma_silent_stage_rests(sr, start.limiter);
}

/// Zero is a fixed point of the whole effect: with every control in its
/// range and finite gains, an effect at rest answers a frame of zeros with
/// zeros and stays at rest.
pub proof fn lemma_effect_rests(e: EngineState, in_l: Binary32, in_r: Option<Binary32>, p: GtrParams, k: BlockCoeffs)
    requires
        e.at_rest(),
        in_l.is_zero(),
        right_or_left(in_l, in_r).is_zero(),
        p.in_range(),
        k.input_linear.is_finite(),
        k.output_linear.is_finite(),
    ensures
        e.output(in_l, in_r, p, k).0.is_zero(),
        e.output(in_l, in_r, p, k).1.is_zero(),
        e.step(in_l, in_r, p, k).at_rest(),
{
    lemma_chain_rests(e.chain_l, in_l, p, k.input_linear);
    lemma_chain_rests(e.chain_r, right_or_left(in_l, in_r), p, k.input_linear);
    lemma_stage_rests(
        e.fx,
        e.chain_l.output(in_l, p, k.input_linear),
        e.chain_r.output(right_or_left(in_l, in_r), p, k.input_linear),
        p,
        k.output_linear,
    );
}

/// Silence in, silence out, for as long as it lasts: after any number of
/// frames of zeros an effect that was at rest is still at rest and answers
/// the next frame of zeros with zeros.
pub proof fn lemma_effect_stays_silent(e: EngineState, p: GtrParams, k: BlockCoeffs, n: nat)
    requires
        e.at_rest(),
        p.in_range(),
        k.input_linear.is_finite(),
        k.output_linear.is_finite(),
    ensures
        e.idle(p, k, n).at_rest(),
        e.idle(p, k, n).output(of_bits(ZERO), Some(of_bits(ZERO)), p, k).0.is_zero(),
        e.idle(p, k, n).output(of_bits(ZERO), Some(of_bits(ZERO)), p, k).1.is_zero(),
    decreases n,
{
    if n > 0 {
        lemma_effect_stays_silent(e, p, k, (n - 1) as nat);
        lemma_effect_rests(e.idle(p, k, (n - 1) as nat), of_bits(ZERO), Some(of_bits(ZERO)), p, k);
    }
    lemma_effect_rests(e.idle(p, k, n), of_bits(ZERO), Some(of_bits(ZERO)), p, k);
}

} // verus!
