//! The stereo finishing stage: feedback delays, mid/side widening, output
//! trim, limiter and a final soft clip.

use vstd::prelude::*;
use vstd::arithmetic::power2::{pow2, lemma_pow2_adds, lemma2_to64, lemma2_to64_rest};
use crate::num::binary32::{Binary32, of_bits, absolute, below, at_most, larger, clamped, lemma_mag_value_increases};
use crate::num::rounding::mag_value;
use crate::num::arith::{product, sum, difference, quotient};
use crate::num::whole::whole_part;
use crate::num::laws::{lemma_product_one, lemma_product_zero, lemma_product_shrinks, lemma_product_in_unit, lemma_sum_with_zero, lemma_quotient_under_one, lemma_round_multiple, lemma_landmarks, lemma_sum_zero, lemma_product_under, lemma_sum_under, lemma_round_error, lemma_round_monotone, lemma_mag_value_sign, in_unit, under};
use crate::num::rounding::{round_mag, lemma_grid_round_fixed, lemma_grid_round_scale};
use crate::params::GtrParams;
use crate::dsp::{fast_tanh, flush_denormals, flushed, soft_clip, time_to_coeff, time_to_coeff_exponent, coeff_of, release_exponent, lemma_soft_clip_zero, lemma_soft_clip_ceiling, ZERO, ONE};

verus! {

/// 0.040 and 0.047 seconds: the two delay times, unequal so that left and
/// right do not comb together.
pub const DELAY_LEFT_S: u32 = 0x3d23_d70a;

pub const DELAY_RIGHT_S: u32 = 0x3d40_8312;

/// 0.98: the level the limiter holds the peak to.
pub const CEILING: u32 = 0x3f7a_e148;

/// 1e-9: the least envelope the limiter divides by.
pub const ENV_FLOOR: u32 = 0x3089_705f;

/// 0.05 seconds: the limiter's release.
pub const LIMITER_RELEASE_S: u32 = 0x3d4c_cccd;

/// 0.25 and 0.4: the feedback at no space, and what full space adds.
pub const FEEDBACK_FLOOR: u32 = 0x3e80_0000;

pub const FEEDBACK_RANGE: u32 = 0x3ecc_cccd;

/// 0.3: the share of each delayed channel fed into the other.
pub const CROSSFEED: u32 = 0x3e99_999a;

pub const HALF: u32 = 0x3f00_0000;

/// 1.5: what full width adds to the side gain.
pub const WIDTH_RANGE: u32 = 0x3fc0_0000;

/// What a delay line holds: its samples and the place of the next read and
/// write.
pub struct DelayState {
    pub samples: Seq<Binary32>,
    pub cursor: int,
}

impl DelayState {
    /// The cursor points into the samples.
    pub open spec fn wf(self) -> bool {
        0 <= self.cursor < self.samples.len()
    }

    /// The sample about to be given back.
    pub open spec fn front(self) -> Binary32 {
        self.samples[self.cursor]
    }

    /// The line after one input: the input plus the sample at the cursor
    /// times the feedback stands at the cursor, and the cursor has moved on
    /// by one, back to the start after the last place.
    pub open spec fn step(self, x: Binary32, feedback: Binary32) -> Self {
        DelayState {
            samples: self.samples.update(self.cursor, flushed(sum(x, product(self.front(), feedback)))),
            cursor: if self.cursor + 1 >= self.samples.len() {
                0
            } else {
                self.cursor + 1
            },
        }
    }

    /// A line of `len` zeros with the cursor at the start.
    pub open spec fn silent(len: nat) -> Self {
        DelayState { samples: Seq::new(len, |i: int| of_bits(ZERO)), cursor: 0 }
    }
}

/// Circular delay line of fixed length.
pub struct DelayLine {
    buf: Vec<Binary32>,
    idx: usize,
}

impl View for DelayLine {
    type V = DelayState;

    closed spec fn view(&self) -> DelayState {
        DelayState { samples: self.buf@, cursor: self.idx as int }
    }
}

impl DelayLine {
    #[verifier::type_invariant]
    spec fn shape(self) -> bool {
        self.buf.len() >= 1 && self.idx < self.buf.len()
    }

    /// A line of `len` zeros, of one where `len` is 0.
    pub fn new(len: usize) -> (r: Self)
        ensures
            r@ == DelayState::silent(
                (if len >= 1 {
                    len
                } else {
                    1
                }) as nat,
            ),
    {
        let n: usize = if len >= 1 {
            len
        } else {
            1
        };
        let mut buf: Vec<Binary32> = Vec::new();
        let mut i: usize = 0;
        while i < n
            invariant
                i <= n,
                buf@ == Seq::new(i as nat, |j: int| of_bits(ZERO)),
            decreases n - i,
        {
            buf.push(Binary32::from_bits(ZERO));
            i += 1;
            proof {
                assert(buf@ =~= Seq::new(i as nat, |j: int| of_bits(ZERO)));
            }
        }
        DelayLine { buf, idx: 0 }
    }

    /// Number of samples the line holds.
    pub fn len(&self) -> (n: usize)
        ensures
            n == self@.samples.len(),
            self@.wf(),
    {
        proof {
            use_type_invariant(self);
        }
        self.buf.len()
    }

    /// Returns the sample at the cursor and stores the input, with that
    /// sample fed back, in its place.
    pub fn process(&mut self, x: Binary32, feedback: Binary32) -> (y: Binary32)
        ensures
            old(self)@.wf(),
            y == old(self)@.front(),
            final(self)@ == old(self)@.step(x, feedback),
    {
        proof {
            use_type_invariant(&*self);
        }
        let y = self.buf[self.idx];
        let v = flush_denormals(x.plus(y.times(feedback)));
        self.buf[self.idx] = v;
        let next: usize = self.idx + 1;
        self.idx = if next >= self.buf.len() {
            0
        } else {
            next
        };
        y
    }
}

/// Peak limiter with one gain for both channels, so the image stays put.
#[derive(Clone, Copy, Debug)]
pub struct Limiter {
    pub sr: Binary32,
    /// Peak envelope of the louder channel.
    pub env: Binary32,
    pub ceiling: Binary32,
    pub release_coeff: Binary32,
}

impl Limiter {
    /// The envelope after one frame: the peak at once where that is higher,
    /// else the old envelope decayed.
    pub open spec fn next_env(self, l: Binary32, r: Binary32) -> Binary32 {
        let peak = larger(absolute(l), absolute(r));
        if below(self.env, peak) {
            peak
        } else {
            product(self.env, self.release_coeff)
        }
    }

    /// The gain for one frame: the ceiling over the envelope once the
    /// envelope is above the ceiling, else 1.
    pub open spec fn gain(self, l: Binary32, r: Binary32) -> Binary32 {
        let env = self.next_env(l, r);
        if below(self.ceiling, env) {
            quotient(self.ceiling, larger(env, of_bits(ENV_FLOOR)))
        } else {
            of_bits(ONE)
        }
    }

    /// The limiter after one frame.
    pub open spec fn step(self, l: Binary32, r: Binary32) -> Self {
        Limiter { sr: self.sr, env: self.next_env(l, r), ceiling: self.ceiling, release_coeff: self.release_coeff }
    }

    /// The output for one frame.
    pub open spec fn output(self, l: Binary32, r: Binary32) -> (Binary32, Binary32) {
        (flushed(product(self.gain(l, r), l)), flushed(product(self.gain(l, r), r)))
    }

    /// The exponent whose exponential is the release coefficient at `sr`.
    pub fn exponent(sr: Binary32) -> (r: Binary32)
        ensures
            r == release_exponent(of_bits(LIMITER_RELEASE_S), sr),
    {
        time_to_coeff_exponent(Binary32::from_bits(LIMITER_RELEASE_S), sr)
    }

    /// A limiter with no envelope, its ceiling at 0.98.
    pub open spec fn fresh(sr: Binary32, decay: Binary32) -> Self {
        Limiter {
            sr,
            env: of_bits(ZERO),
            ceiling: of_bits(CEILING),
            release_coeff: coeff_of(of_bits(LIMITER_RELEASE_S), decay),
        }
    }

    /// `decay` is the exponential of `Limiter::exponent` for `sr`.
    pub fn new(sr: Binary32, decay: Binary32) -> (r: Self)
        ensures
            r == Self::fresh(sr, decay),
    {
        let mut l = Limiter {
            sr,
            env: Binary32::from_bits(ZERO),
            ceiling: Binary32::from_bits(CEILING),
            release_coeff: Binary32::from_bits(ZERO),
        };
        l.update_params(sr, decay);
        l
    }

    /// Takes the release for a sample rate; `decay` is the exponential of
    /// `Limiter::exponent` for `sr`.
    pub fn update_params(&mut self, sr: Binary32, decay: Binary32)
        ensures
            *final(self) == (Limiter {
                sr,
                release_coeff: coeff_of(of_bits(LIMITER_RELEASE_S), decay),
                ..*old(self)
            }),
    {
        self.sr = sr;
        self.release_coeff = time_to_coeff(Binary32::from_bits(LIMITER_RELEASE_S), decay);
    }

    /// One frame through the limiter.
    pub fn process(&mut self, l: Binary32, r: Binary32) -> (out: (Binary32, Binary32))
        ensures
            *final(self) == old(self).step(l, r),
            out == old(self).output(l, r),
    {
        let peak = l.abs().max(r.abs());
        if peak.gt(self.env) {
            self.env = peak;
        } else {
            self.env = self.env.times(self.release_coeff);
        }
        let mut gl = Binary32::from_bits(ONE);
        if self.env.gt(self.ceiling) {
            gl = self.ceiling.over(self.env.max(Binary32::from_bits(ENV_FLOOR)));
        }
        let l2 = gl.times(l);
        let r2 = gl.times(r);
        (flush_denormals(l2), flush_denormals(r2))
    }
}

/// `0.25 + 0.4 * space`.
pub open spec fn feedback_of(space: Binary32) -> Binary32 {
    sum(of_bits(FEEDBACK_FLOOR), product(of_bits(FEEDBACK_RANGE), space))
}

/// `own + 0.3 * other`: a delayed channel with some of the other fed in.
pub open spec fn crossfed(own: Binary32, other: Binary32) -> Binary32 {
    sum(own, product(of_bits(CROSSFEED), other))
}

/// `dry * (1 - mix) + wet * mix`.
pub open spec fn blended(dry: Binary32, wet: Binary32, mix: Binary32) -> Binary32 {
    sum(product(dry, difference(of_bits(ONE), mix)), product(wet, mix))
}

/// `(l + r) / 2`.
pub open spec fn mid_of(l: Binary32, r: Binary32) -> Binary32 {
    product(of_bits(HALF), sum(l, r))
}

/// `(l - r) / 2`.
pub open spec fn side_of(l: Binary32, r: Binary32) -> Binary32 {
    product(of_bits(HALF), difference(l, r))
}

/// `1 + 1.5 * width`.
pub open spec fn side_gain_of(width: Binary32) -> Binary32 {
    sum(of_bits(ONE), product(width, of_bits(WIDTH_RANGE)))
}

/// Left and right with the side scaled by the side gain: mid plus and
/// minus the new side.
pub open spec fn widened(l: Binary32, r: Binary32, width: Binary32) -> (Binary32, Binary32) {
    let new_side = product(side_of(l, r), side_gain_of(width));
    (sum(mid_of(l, r), new_side), difference(mid_of(l, r), new_side))
}

/// Widens a stereo pair through mid and side; a width of 0 leaves the side
/// as it is, a width of 1 scales it by 2.5.
pub fn widen(l: Binary32, r: Binary32, width: Binary32) -> (out: (Binary32, Binary32))
    ensures
        out == widened(l, r, width),
{
    let mid = Binary32::from_bits(HALF).times(l.plus(r));
    let side = Binary32::from_bits(HALF).times(l.minus(r));
    let side_gain = Binary32::from_bits(ONE).plus(width.times(Binary32::from_bits(WIDTH_RANGE)));
    let new_side = side.times(side_gain);
    (mid.plus(new_side), mid.minus(new_side))
}

/// The number of samples in `seconds` at sample rate `sr`, at least 1.
pub open spec fn delay_len(seconds: u32, sr: Binary32) -> nat {
    let w = whole_part(product(of_bits(seconds), sr));
    if w >= 1 {
        w as nat
    } else {
        1
    }
}

/// What the stereo stage holds.
pub struct FxState {
    pub sr: Binary32,
    pub delay_l: DelayState,
    pub delay_r: DelayState,
    pub limiter: Limiter,
}

impl FxState {
    /// The space and the width of a snapshot, each held to [0, 1].
    pub open spec fn space_of(p: GtrParams) -> Binary32 {
        clamped(p.space, of_bits(ZERO), of_bits(ONE))
    }

    pub open spec fn width_of(p: GtrParams) -> Binary32 {
        clamped(p.width, of_bits(ZERO), of_bits(ONE))
    }

    /// The frame after space, width and output trim, as the limiter sees it.
    pub open spec fn trimmed(self, dry_l: Binary32, dry_r: Binary32, p: GtrParams, output_linear: Binary32) -> (
        Binary32,
        Binary32,
    ) {
        let dl = self.delay_l.front();
        let dr = self.delay_r.front();
        let l = blended(dry_l, crossfed(dl, dr), Self::space_of(p));
        let r = blended(dry_r, crossfed(dr, dl), Self::space_of(p));
        let w = widened(l, r, Self::width_of(p));
        (product(w.0, output_linear), product(w.1, output_linear))
    }

    /// The output for one frame: the trimmed frame, limited where the
    /// limiter is on, then soft-clipped.
    pub open spec fn output(self, dry_l: Binary32, dry_r: Binary32, p: GtrParams, output_linear: Binary32) -> (
        Binary32,
        Binary32,
    ) {
        let t = self.trimmed(dry_l, dry_r, p, output_linear);
        let lim = if p.limiter_on {
            self.limiter.output(t.0, t.1)
        } else {
            t
        };
        (flushed(soft_clip(lim.0)), flushed(soft_clip(lim.1)))
    }

    /// The stage after one frame: each delay has taken its channel, and
    /// the limiter, where it is on, the trimmed frame.
    pub open spec fn step(self, dry_l: Binary32, dry_r: Binary32, p: GtrParams, output_linear: Binary32) -> Self {
        let t = self.trimmed(dry_l, dry_r, p, output_linear);
        FxState {
            sr: self.sr,
            delay_l: self.delay_l.step(dry_l, feedback_of(Self::space_of(p))),
            delay_r: self.delay_r.step(dry_r, feedback_of(Self::space_of(p))),
            limiter: if p.limiter_on {
                self.limiter.step(t.0, t.1)
            } else {
                self.limiter
            },
        }
    }

    /// The stage at silence for a sample rate: delays of zeros sized for
    /// it, and the given limiter.
    pub open spec fn silent(sr: Binary32, limiter: Limiter) -> Self {
        FxState {
            sr,
            delay_l: DelayState::silent(delay_len(DELAY_LEFT_S, sr)),
            delay_r: DelayState::silent(delay_len(DELAY_RIGHT_S, sr)),
            limiter,
        }
    }
}

/// Space (feedback delays), width (mid/side) and the safety stages on the
/// way out.
pub struct StereoFx {
    pub sr: Binary32,
    pub delay_l: DelayLine,
    pub delay_r: DelayLine,
    pub limiter: Limiter,
}

impl View for StereoFx {
    type V = FxState;

    open spec fn view(&self) -> FxState {
        FxState { sr: self.sr, delay_l: self.delay_l@, delay_r: self.delay_r@, limiter: self.limiter }
    }
}

impl StereoFx {
    /// `limiter_decay` is the exponential of `Limiter::exponent` for `sr`.
    pub fn new(sr: Binary32, limiter_decay: Binary32) -> (r: Self)
        ensures
            r@ == FxState::silent(sr, Limiter::fresh(sr, limiter_decay)),
    {
        let dl: usize = Binary32::from_bits(DELAY_LEFT_S).times(sr).to_usize();
        let dr: usize = Binary32::from_bits(DELAY_RIGHT_S).times(sr).to_usize();
        StereoFx {
            sr,
            delay_l: DelayLine::new(dl),
            delay_r: DelayLine::new(dr),
            limiter: Limiter::new(sr, limiter_decay),
        }
    }

    /// Returns the stage to what a new one is at `sr`, whatever it held:
    /// new delays and a new limiter.
    pub fn reset(&mut self, sr: Binary32, limiter_decay: Binary32)
        ensures
            final(self)@ == FxState::silent(sr, Limiter::fresh(sr, limiter_decay)),
    {
        self.sr = sr;
        self.delay_l = DelayLine::new(Binary32::from_bits(DELAY_LEFT_S).times(sr).to_usize());
        self.delay_r = DelayLine::new(Binary32::from_bits(DELAY_RIGHT_S).times(sr).to_usize());
        self.limiter = Limiter::new(sr, limiter_decay);
    }

    /// One frame through the stage; `output_linear` is the exponential of
    /// `p.output_exponent()`.
    pub fn process_frame(&mut self, dry_l: Binary32, dry_r: Binary32, p: &GtrParams, output_linear: Binary32) -> (out: (
        Binary32,
        Binary32,
    ))
        ensures
            old(self)@.delay_l.wf(),
            old(self)@.delay_r.wf(),
            out == old(self)@.output(dry_l, dry_r, *p, output_linear),
            final(self)@ == old(self)@.step(dry_l, dry_r, *p, output_linear),
    {
        let space = p.space.clamp(Binary32::from_bits(ZERO), Binary32::from_bits(ONE));
        let width = p.width.clamp(Binary32::from_bits(ZERO), Binary32::from_bits(ONE));
        let fb = Binary32::from_bits(FEEDBACK_FLOOR).plus(Binary32::from_bits(FEEDBACK_RANGE).times(space));
        let dl = self.delay_l.process(dry_l, fb);
        let dr = self.delay_r.process(dry_r, fb);
        let wet_l = dl.plus(Binary32::from_bits(CROSSFEED).times(dr));
        let wet_r = dr.plus(Binary32::from_bits(CROSSFEED).times(dl));
        let mix = space;
        let dry_share = Binary32::from_bits(ONE).minus(mix);
        let l = dry_l.times(dry_share).plus(wet_l.times(mix));
        let r = dry_r.times(dry_share).plus(wet_r.times(mix));
        let wide = widen(l, r, width);
        let mut l = wide.0.times(output_linear);
        let mut r = wide.1.times(output_linear);
        if p.limiter_on {
            let limited = self.limiter.process(l, r);
            l = limited.0;
            r = limited.1;
        }
        let l = fast_tanh(l);
        let r = fast_tanh(r);
        (flush_denormals(l), flush_denormals(r))
    }
}

impl Limiter {
    /// The envelope is finite and not negative, the release lies between
    /// 0 and 1, and the ceiling is a positive finite number.
    pub open spec fn wf(self) -> bool {
        &&& at_most(of_bits(ZERO), self.env)
        &&& self.env.is_finite()
        &&& in_unit(self.release_coeff)
        &&& below(of_bits(ZERO), self.ceiling)
        &&& self.ceiling.is_finite()
    }
}

/// While envelope and peak stay at or under the ceiling the limiter hands
/// both channels through, but for the flush, and its envelope stays there.
pub proof fn lemma_limiter_is_transparent(lim: Limiter, l: Binary32, r: Binary32)
    requires
        lim.wf(),
        at_most(lim.env, lim.ceiling),
        at_most(absolute(l), lim.ceiling),
        at_most(absolute(r), lim.ceiling),
    ensures
        lim.output(l, r) == (flushed(l), flushed(r)),
        lim.step(l, r).wf(),
        at_most(lim.step(l, r).env, lim.ceiling),
{
    lemma_product_in_unit(lim.env, lim.release_coeff);
    lemma_product_one(l);
    lemma_product_one(r);
}

/// The limiter never amplifies: its gain lies between 0 and 1, so neither
/// channel of a finite frame leaves with a larger magnitude than it came
/// with.
pub proof fn lemma_limiter_never_amplifies(lim: Limiter, l: Binary32, r: Binary32)
    requires
        lim.wf(),
        l.is_finite(),
        r.is_finite(),
    ensures
        in_unit(lim.gain(l, r)),
        lim.output(l, r).0.mag() <= l.mag(),
        lim.output(l, r).1.mag() <= r.mag(),
        lim.step(l, r).wf(),
{
    lemma_product_in_unit(lim.env, lim.release_coeff);
    let env = lim.next_env(l, r);
    if below(lim.ceiling, env) {
        lemma_quotient_under_one(lim.ceiling, larger(env, of_bits(ENV_FLOOR)));
    }
    lemma_product_shrinks(l, lim.gain(l, r));
    lemma_product_shrinks(r, lim.gain(l, r));
}

/// 2.5, the side gain at full width.
pub const FULL_SIDE_GAIN: u32 = 0x4020_0000;

/// At no width the side gain is exactly 1, at full width exactly 2.5.
pub proof fn lemma_side_gain_ends()
    ensures
        side_gain_of(of_bits(ZERO)) == of_bits(ONE),
        side_gain_of(of_bits(ONE)) == of_bits(FULL_SIDE_GAIN),
{
    lemma_product_zero(of_bits(ZERO), of_bits(WIDTH_RANGE));
    lemma_sum_with_zero(of_bits(ONE), product(of_bits(ZERO), of_bits(WIDTH_RANGE)));
    lemma_product_one(of_bits(WIDTH_RANGE));
    lemma_landmarks();
    lemma2_to64();
    lemma_pow2_adds(22, 127);
    lemma_pow2_adds(23, 126);
    assert(0x3fc0_0000int / 0x80_0000 == 127 && 0x3fc0_0000int % 0x80_0000 == 0x40_0000);
    assert(0x4020_0000int / 0x80_0000 == 128 && 0x4020_0000int % 0x80_0000 == 0x20_0000);
    let p126 = pow2(126) as int;
    let p127 = pow2(127) as int;
    vstd::arithmetic::power2::lemma_pow2_unfold(127);
    let total = mag_value(0x3f80_0000) + mag_value(0x3fc0_0000);
    assert(total == 0xa0_0000 * p127) by (nonlinear_arith)
        requires
            total == 0x80_0000 * p126 + 0xc0_0000 * p126,
            p127 == 2 * p126,
    ;
    lemma_round_multiple(0xa0_0000, 127);
    let got = crate::num::rounding::round_mag(total, 1);
    assert(mag_value(0x4020_0000) == 0xa0_0000 * p127);
    if got < 0x4020_0000 {
        lemma_mag_value_increases(got, 0x4020_0000);
    }
    if got > 0x4020_0000 {
        lemma_mag_value_increases(0x4020_0000, got);
    }
}

/// At no width the side channel passes unchanged; at full width it is
/// scaled by 2.5. The mid channel is the same at every width.
pub proof fn lemma_width_scales_the_side(l: Binary32, r: Binary32)
    requires
        !side_of(l, r).is_nan(),
    ensures
        widened(l, r, of_bits(ZERO)) == (sum(mid_of(l, r), side_of(l, r)), difference(mid_of(l, r), side_of(l, r))),
        widened(l, r, of_bits(ONE)) == (
            sum(mid_of(l, r), product(side_of(l, r), of_bits(FULL_SIDE_GAIN))),
            difference(mid_of(l, r), product(side_of(l, r), of_bits(FULL_SIDE_GAIN))),
        ),
{
    lemma_side_gain_ends();
    lemma_product_one(side_of(l, r));
}

impl DelayState {
    /// The line holds nothing but zeros.
    pub open spec fn at_rest(self) -> bool {
        self.wf() && forall|i: int| 0 <= i < self.samples.len() ==> (#[trigger] self.samples[i]).is_zero()
    }
}

impl FxState {
    /// Both delays hold nothing but zeros and the limiter is well-formed.
    pub open spec fn at_rest(self) -> bool {
        self.delay_l.at_rest() && self.delay_r.at_rest() && self.limiter.wf()
    }
}

/// A delay line of zeros answers zero with zero and stays one, at a finite
/// feedback.
pub proof fn lemma_delay_rests(d: DelayState, x: Binary32, feedback: Binary32)
    requires
        d.at_rest(),
        x.is_zero(),
        feedback.is_finite(),
    ensures
        d.front().is_zero(),
        d.step(x, feedback).at_rest(),
{
    lemma_product_zero(d.front(), feedback);
    lemma_sum_zero(x, product(d.front(), feedback));
}

/// A stage that is new or reset is at rest where the release handed in
/// lies between 0 and 1.
pub proof fn lemma_silent_stage_rests(sr: Binary32, limiter_decay: Binary32)
    requires
        in_unit(limiter_decay),
    ensures
        FxState::silent(sr, Limiter::fresh(sr, limiter_decay)).at_rest(),
{
}

/// With every control in its range and a finite output gain, a stage at
/// rest answers a frame of zeros with zeros and stays at rest.
pub proof fn lemma_stage_rests(s: FxState, dry_l: Binary32, dry_r: Binary32, p: GtrParams, output_linear: Binary32)
    requires
        s.at_rest(),
        dry_l.is_zero(),
        dry_r.is_zero(),
        p.in_range(),
        output_linear.is_finite(),
    ensures
        s.output(dry_l, dry_r, p, output_linear).0.is_zero(),
        s.output(dry_l, dry_r, p, output_linear).1.is_zero(),
        s.step(dry_l, dry_r, p, output_linear).at_rest(),
{
    let space = FxState::space_of(p);
    let width = FxState::width_of(p);
    let fb = feedback_of(space);
    lemma_product_under(of_bits(FEEDBACK_RANGE), space, 0, 0);
    lemma_sum_under(of_bits(FEEDBACK_FLOOR), product(of_bits(FEEDBACK_RANGE), space), 0);
    lemma_delay_rests(s.delay_l, dry_l, fb);
    lemma_delay_rests(s.delay_r, dry_r, fb);
    let dl = s.delay_l.front();
    let dr = s.delay_r.front();
    lemma_product_zero(dr, of_bits(CROSSFEED));
    lemma_product_zero(dl, of_bits(CROSSFEED));
    lemma_sum_zero(dl, product(of_bits(CROSSFEED), dr));
    lemma_sum_zero(dr, product(of_bits(CROSSFEED), dl));
    let wet_l = crossfed(dl, dr);
    let wet_r = crossfed(dr, dl);
    lemma_sum_under(of_bits(ONE), space, 0);
    let dry_share = difference(of_bits(ONE), space);
    lemma_product_zero(dry_l, dry_share);
    lemma_product_zero(dry_r, dry_share);
    lemma_product_zero(wet_l, space);
    lemma_product_zero(wet_r, space);
    lemma_sum_zero(product(dry_l, dry_share), product(wet_l, space));
    lemma_sum_zero(product(dry_r, dry_share), product(wet_r, space));
    let l = blended(dry_l, wet_l, space);
    let r = blended(dry_r, wet_r, space);
    lemma_sum_zero(l, r);
    lemma_product_zero(sum(l, r), of_bits(HALF));
    lemma_product_zero(difference(l, r), of_bits(HALF));
    lemma_product_under(width, of_bits(WIDTH_RANGE), 0, 1);
    lemma_sum_under(of_bits(ONE), product(width, of_bits(WIDTH_RANGE)), 1);
    lemma_product_zero(side_of(l, r), side_gain_of(width));
    let new_side = product(side_of(l, r), side_gain_of(width));
    lemma_sum_zero(mid_of(l, r), new_side);
    let w = widened(l, r, width);
    lemma_product_zero(w.0, output_linear);
    lemma_product_zero(w.1, output_linear);
    let t = s.trimmed(dry_l, dry_r, p, output_linear);
    if p.limiter_on {
        lemma_limiter_never_amplifies(s.limiter, t.0, t.1);
        lemma_product_zero(t.0, s.limiter.gain(t.0, t.1));
        lemma_product_zero(t.1, s.limiter.gain(t.0, t.1));
        lemma_soft_clip_zero(s.limiter.output(t.0, t.1).0);
        lemma_soft_clip_zero(s.limiter.output(t.0, t.1).1);
    } else {
        lemma_soft_clip_zero(t.0);
        lemma_soft_clip_zero(t.1);
    }
}

impl DelayState {
    /// The line after the inputs `xs`, first to last, at one feedback.
    pub open spec fn run(self, xs: Seq<Binary32>, feedback: Binary32) -> Self
        decreases xs.len(),
    {
        if xs.len() == 0 {
            self
        } else {
            self.step(xs[0], feedback).run(xs.subrange(1, xs.len() as int), feedback)
        }
    }

    /// How many steps the cursor is away from place `c`.
    pub open spec fn steps_to(self, c: int) -> int {
        if c >= self.cursor {
            c - self.cursor
        } else {
            c - self.cursor + self.samples.len()
        }
    }
}

/// A place keeps what it holds until the cursor comes round to it.
pub proof fn lemma_delay_keeps_place(d: DelayState, xs: Seq<Binary32>, feedback: Binary32, c: int)
    requires
        d.wf(),
        0 <= c < d.samples.len(),
        xs.len() <= d.steps_to(c),
    ensures
        d.run(xs, feedback).wf(),
        d.run(xs, feedback).samples.len() == d.samples.len(),
        d.run(xs, feedback).samples[c] == d.samples[c],
        d.run(xs, feedback).steps_to(c) == d.steps_to(c) - xs.len(),
    decreases xs.len(),
{
    if xs.len() > 0 {
        lemma_delay_keeps_place(d.step(xs[0], feedback), xs.subrange(1, xs.len() as int), feedback, c);
    }
}

/// What goes into a line of length `n` comes back out `n` samples later:
/// after a write and `n - 1` further samples, the line gives back what the
/// write stored, from the place it was written to.
pub proof fn lemma_delay_gives_back(d: DelayState, x: Binary32, xs: Seq<Binary32>, feedback: Binary32)
    requires
        d.wf(),
        xs.len() == d.samples.len() - 1,
    ensures
        d.step(x, feedback).run(xs, feedback).cursor == d.cursor,
        d.step(x, feedback).run(xs, feedback).front() == flushed(sum(x, product(d.front(), feedback))),
{
    lemma_delay_keeps_place(d.step(x, feedback), xs, feedback, d.cursor);
}

/// 0.99: a release coefficient at or above this, as every sample rate
/// from 2 kHz up gives, lets the envelope fall slowly enough for the
/// limiter to hold its output in the unit range.
pub const STEADY_RELEASE: u32 = 0x3f7d_70a4;

/// The units that 1, the ceiling, the steady release and infinity stand for.
proof fn lemma_limiter_values()
    ensures
        mag_value(0x3f80_0000) == 0x20_0000_0000_0000_0000_0000_0000_0000_0000_0000,
        mag_value(0x3f7a_e148) == 0x1f_5c29_0000_0000_0000_0000_0000_0000_0000_0000,
        mag_value(0x3f7d_70a4) == 0x1f_ae14_8000_0000_0000_0000_0000_0000_0000_0000,
        mag_value(0x7f80_0000) == 0x20_0000_0000_0000_0000_0000_0000_0000_0000_0000_0000_0000_0000_0000_0000_0000_0000_0000,
{
    lemma2_to64();
    lemma2_to64_rest();
    lemma_pow2_adds(64, 61);
    lemma_pow2_adds(125, 1);
    lemma_pow2_adds(64, 64);
    lemma_pow2_adds(128, 126);
    assert(pow2(125) == 0x2000_0000_0000_0000_0000_0000_0000_0000);
    assert(pow2(126) == 0x4000_0000_0000_0000_0000_0000_0000_0000);
    assert(pow2(128) == 0x1_0000_0000_0000_0000_0000_0000_0000_0000);
    assert(pow2(254) == 0x4000_0000_0000_0000_0000_0000_0000_0000_0000_0000_0000_0000_0000_0000_0000_0000)
        by (nonlinear_arith)
        requires
            pow2(254) == pow2(128) * pow2(126),
            pow2(128) == 0x1_0000_0000_0000_0000_0000_0000_0000_0000,
            pow2(126) == 0x4000_0000_0000_0000_0000_0000_0000_0000,
    ;
    assert(0x3f80_0000int / 0x80_0000 == 127 && 0x3f80_0000int % 0x80_0000 == 0);
    assert(0x3f7a_e148int / 0x80_0000 == 126 && 0x3f7a_e148int % 0x80_0000 == 0x7a_e148);
    assert(0x3f7d_70a4int / 0x80_0000 == 126 && 0x3f7d_70a4int % 0x80_0000 == 0x7d_70a4);
    assert(0x7f80_0000int / 0x80_0000 == 255 && 0x7f80_0000int % 0x80_0000 == 0);
}

/// On an attack the gain times any sample no larger than the peak is at
/// most 1, in units squared.
proof fn lemma_attack_product(vg: int, vx: int, peak: int)
    requires
        0 <= vx <= peak,
        peak <= 0x20_0000_0000_0000_0000_0000_0000_0000_0000_0000_0000_0000_0000_0000_0000_0000_0000_0000,
        vg >= 0,
        vg * peak * 0x100_0000 <= 0x1f_5c29_0000_0000_0000_0000_0000_0000_0000_0000
            * 0x20_0000_0000_0000_0000_0000_0000_0000_0000_0000 * 0x100_0001 + peak * 0x80_0000,
    ensures
        vg * vx <= 0x20_0000_0000_0000_0000_0000_0000_0000_0000_0000 * 0x20_0000_0000_0000_0000_0000_0000_0000_0000_0000,
{
    assert(vg * vx <= vg * peak) by (nonlinear_arith)
        requires
            0 <= vx <= peak,
            vg >= 0,
    ;
}

/// On a release that leaves the envelope under the ceiling, a sample no
/// larger than the old envelope is at most 1.
proof fn lemma_release_input(vx: int, env: int, rel: int, ve: int)
    requires
        0 <= vx <= env,
        rel >= 0x1f_ae14_8000_0000_0000_0000_0000_0000_0000_0000,
        ve <= 0x1f_5c29_0000_0000_0000_0000_0000_0000_0000_0000,
        ve * 0x20_0000_0000_0000_0000_0000_0000_0000_0000_0000 * 0x100_0000 >= env * rel * 0xff_ffff
            - 0x20_0000_0000_0000_0000_0000_0000_0000_0000_0000 * 0x80_0000,
    ensures
        vx <= 0x20_0000_0000_0000_0000_0000_0000_0000_0000_0000,
{
    let r0 = 0x1f_ae14_8000_0000_0000_0000_0000_0000_0000_0000int;
    let u = 0x20_0000_0000_0000_0000_0000_0000_0000_0000_0000int;
    assert(env * r0 <= env * rel) by (nonlinear_arith)
        requires
            env >= 0,
            rel >= r0,
    ;
    assert(ve * u <= 0x1f_5c29_0000_0000_0000_0000_0000_0000_0000_0000 * u) by (nonlinear_arith)
        requires
            ve <= 0x1f_5c29_0000_0000_0000_0000_0000_0000_0000_0000,
            u > 0,
    ;
}

/// On a release that leaves the envelope above the ceiling, the gain times
/// any sample no larger than the old envelope is at most 1, in units squared.
proof fn lemma_release_product(vg: int, vx: int, env: int, rel: int, ve: int)
    requires
        0 <= vx <= env,
        rel >= 0x1f_ae14_8000_0000_0000_0000_0000_0000_0000_0000,
        0 <= vg <= 0x20_0000_0000_0000_0000_0000_0000_0000_0000_0000,
        0 <= ve <= 0x20_0000_0000_0000_0000_0000_0000_0000_0000_0000_0000_0000_0000_0000_0000_0000_0000_0000,
        ve * 0x20_0000_0000_0000_0000_0000_0000_0000_0000_0000 * 0x100_0000 >= env * rel * 0xff_ffff
            - 0x20_0000_0000_0000_0000_0000_0000_0000_0000_0000 * 0x80_0000,
        vg * ve * 0x100_0000 <= 0x1f_5c29_0000_0000_0000_0000_0000_0000_0000_0000
            * 0x20_0000_0000_0000_0000_0000_0000_0000_0000_0000 * 0x100_0001 + ve * 0x80_0000,
    ensures
        vg * vx <= 0x20_0000_0000_0000_0000_0000_0000_0000_0000_0000 * 0x20_0000_0000_0000_0000_0000_0000_0000_0000_0000,
{
    let r0 = 0x1f_ae14_8000_0000_0000_0000_0000_0000_0000_0000int;
    let u = 0x20_0000_0000_0000_0000_0000_0000_0000_0000_0000int;
    let c = 0x1f_5c29_0000_0000_0000_0000_0000_0000_0000_0000int;
    let z = vg * env;
    let held = env * rel * 0xff_ffff;
    let cap = ve * u * 0x100_0000 + u * 0x80_0000;
    let gve = vg * ve * 0x100_0000;
    assert(vg * vx <= z && z >= 0) by (nonlinear_arith)
        requires
            0 <= vx <= env,
            vg >= 0,
            z == vg * env,
    ;
    assert(z * r0 * 0xff_ffff <= vg * held) by (nonlinear_arith)
        requires
            z == vg * env,
            held == env * rel * 0xff_ffff,
            vg >= 0,
            env >= 0,
            rel >= r0,
    ;
    assert(vg * held <= vg * cap) by (nonlinear_arith)
        requires
            held <= cap,
            vg >= 0,
    ;
    assert(vg * cap == u * gve + vg * u * 0x80_0000) by (nonlinear_arith)
        requires
            cap == ve * u * 0x100_0000 + u * 0x80_0000,
            gve == vg * ve * 0x100_0000,
    ;
    assert(u * gve <= u * (c * u * 0x100_0001 + ve * 0x80_0000)) by (nonlinear_arith)
        requires
            gve <= c * u * 0x100_0001 + ve * 0x80_0000,
            u > 0,
    ;
    assert(vg * u * 0x80_0000 <= u * u * 0x80_0000) by (nonlinear_arith)
        requires
            0 <= vg <= u,
            u > 0,
    ;
}

/// One channel of a frame under the limiter: what the gain leaves of it has
/// a magnitude of at most 1.
proof fn lemma_limited_channel(lim: Limiter, l: Binary32, r: Binary32, x: Binary32)
    requires
        lim.wf(),
        lim.ceiling == of_bits(CEILING),
        at_most(of_bits(STEADY_RELEASE), lim.release_coeff),
        l.is_finite(),
        r.is_finite(),
        x == l || x == r,
    ensures
        product(lim.gain(l, r), x).mag() <= ONE,
{
    let peak = larger(absolute(l), absolute(r));
    let env = lim.next_env(l, r);
    let g = lim.gain(l, r);
    let u = mag_value(0x3f80_0000);
    let c = mag_value(0x3f7a_e148);
    let vx = mag_value(x.mag());
    lemma_limiter_values();
    lemma_landmarks();
    lemma_limiter_never_amplifies(lim, l, r);
    lemma_mag_value_sign(x.mag());
    lemma_mag_value_sign(peak.mag());
    lemma_mag_value_sign(lim.env.mag());
    lemma_mag_value_sign(env.mag());
    lemma_mag_value_sign(g.mag());
    if x.mag() < peak.mag() {
        lemma_mag_value_increases(x.mag(), peak.mag());
    }
    if peak.mag() < 0x7f80_0000 {
        lemma_mag_value_increases(peak.mag(), 0x7f80_0000);
    }
    if env.mag() < 0x7f80_0000 {
        lemma_mag_value_increases(env.mag(), 0x7f80_0000);
    }
    if g.mag() < 0x3f80_0000 {
        lemma_mag_value_increases(g.mag(), 0x3f80_0000);
    }
    let vg = mag_value(g.mag());
    let vp = mag_value(peak.mag());
    let ve = mag_value(env.mag());
    let v0 = mag_value(lim.env.mag());
    let vr = mag_value(lim.release_coeff.mag());
    if !below(lim.ceiling, env) {
        lemma_product_one(x);
        // the gain is 1: the channel itself must be within the unit
        if below(lim.env, peak) {
            if x.mag() > 0x3f7a_e148 {
                assert(false);
            }
        } else {
            if peak.mag() < lim.env.mag() {
                lemma_mag_value_increases(peak.mag(), lim.env.mag());
            }
            if 0x3f7d_70a4 < lim.release_coeff.mag() {
                lemma_mag_value_increases(0x3f7d_70a4, lim.release_coeff.mag());
            }
            if env.mag() < 0x3f7a_e148 {
                lemma_mag_value_increases(env.mag(), 0x3f7a_e148);
            }
            lemma_product_in_unit(lim.env, lim.release_coeff);
            assert(v0 * vr >= 0) by (nonlinear_arith)
                requires
                    v0 >= 0,
                    vr >= 0,
            ;
            lemma_mag_value_sign(lim.release_coeff.mag());
            lemma_round_error(v0 * vr, u);
            lemma_release_input(vx, v0, vr, ve);
            if x.mag() > 0x3f80_0000 {
                lemma_mag_value_increases(0x3f80_0000, x.mag());
            }
        }
    } else {
        // the gain is the ceiling over the envelope
        assert(larger(env, of_bits(ENV_FLOOR)) == env);
        assert(c * u >= 0) by (nonlinear_arith)
            requires
                c >= 0,
                u >= 0,
        ;
        lemma_round_error(c * u, ve);
        assert(g.mag() == round_mag(c * u, ve));
        if below(lim.env, peak) {
            lemma_attack_product(vg, vx, vp);
        } else {
            if peak.mag() < lim.env.mag() {
                lemma_mag_value_increases(peak.mag(), lim.env.mag());
            }
            if 0x3f7d_70a4 < lim.release_coeff.mag() {
                lemma_mag_value_increases(0x3f7d_70a4, lim.release_coeff.mag());
            }
            lemma_product_in_unit(lim.env, lim.release_coeff);
            lemma_mag_value_sign(lim.release_coeff.mag());
            assert(v0 * vr >= 0) by (nonlinear_arith)
                requires
                    v0 >= 0,
                    vr >= 0,
            ;
            lemma_round_error(v0 * vr, u);
            lemma_release_product(vg, vx, v0, vr, ve);
        }
        assert(vg * vx >= 0 && vx * vg == vg * vx && 1 * u == u) by (nonlinear_arith)
            requires
                vg >= 0,
                vx >= 0,
        ;
        lemma_round_monotone(vg * vx, u * u, u);
        lemma_grid_round_scale(u, 1, u);
        lemma_grid_round_fixed(0x3f80_0000);
    }
}

/// The limiter holds the unit range: with the ceiling at 0.98 and a release
/// coefficient of at least 0.99, every finite frame leaves with both
/// channels at a magnitude of at most 1.
pub proof fn lemma_limiter_holds_the_unit(lim: Limiter, l: Binary32, r: Binary32)
    requires
        lim.wf(),
        lim.ceiling == of_bits(CEILING),
        at_most(of_bits(STEADY_RELEASE), lim.release_coeff),
        l.is_finite(),
        r.is_finite(),
    ensures
        lim.output(l, r).0.mag() <= ONE,
        lim.output(l, r).1.mag() <= ONE,
{
    lemma_limited_channel(lim, l, r, l);
    lemma_limited_channel(lim, l, r, r);
}

/// With every control in its range, inputs and delayed samples of
/// magnitude at most 2^100 and an output gain of at most 2^10, the frame that
/// reaches the limiter is finite.
pub proof fn lemma_trimmed_frame_is_finite(
    s: FxState,
    dry_l: Binary32,
    dry_r: Binary32,
    p: GtrParams,
    output_linear: Binary32,
)
    requires
        p.in_range(),
        under(dry_l, 100),
        under(dry_r, 100),
        under(s.delay_l.front(), 100),
        under(s.delay_r.front(), 100),
        under(output_linear, 10),
    ensures
        s.trimmed(dry_l, dry_r, p, output_linear).0.is_finite(),
        s.trimmed(dry_l, dry_r, p, output_linear).1.is_finite(),
{
    let space = FxState::space_of(p);
    let width = FxState::width_of(p);
    let dl = s.delay_l.front();
    let dr = s.delay_r.front();
    lemma_product_under(of_bits(CROSSFEED), dr, 0, 100);
    lemma_product_under(of_bits(CROSSFEED), dl, 0, 100);
    lemma_sum_under(dl, product(of_bits(CROSSFEED), dr), 100);
    lemma_sum_under(dr, product(of_bits(CROSSFEED), dl), 100);
    let wet_l = crossfed(dl, dr);
    let wet_r = crossfed(dr, dl);
    lemma_sum_under(of_bits(ONE), space, 0);
    let dry_share = difference(of_bits(ONE), space);
    lemma_product_under(dry_l, dry_share, 100, 1);
    lemma_product_under(dry_r, dry_share, 100, 1);
    lemma_product_under(wet_l, space, 101, 0);
    lemma_product_under(wet_r, space, 101, 0);
    lemma_sum_under(product(dry_l, dry_share), product(wet_l, space), 101);
    lemma_sum_under(product(dry_r, dry_share), product(wet_r, space), 101);
    let l = blended(dry_l, wet_l, space);
    let r = blended(dry_r, wet_r, space);
    lemma_sum_under(l, r, 102);
    lemma_product_under(of_bits(HALF), sum(l, r), 0, 103);
    lemma_product_under(of_bits(HALF), difference(l, r), 0, 103);
    lemma_product_under(width, of_bits(WIDTH_RANGE), 0, 1);
    lemma_sum_under(of_bits(ONE), product(width, of_bits(WIDTH_RANGE)), 1);
    lemma_product_under(side_of(l, r), side_gain_of(width), 103, 2);
    let new_side = product(side_of(l, r), side_gain_of(width));
    lemma_sum_under(mid_of(l, r), new_side, 105);
    let w = widened(l, r, width);
    lemma_product_under(w.0, output_linear, 106, 10);
    lemma_product_under(w.1, output_linear, 106, 10);
}

/// The safety stages do their work: with the limiter on, its release at
/// 0.99 or more and a finite frame reaching it, both outputs of the stage
/// lie between -1 and 1.
pub proof fn lemma_stage_holds_the_unit(
    s: FxState,
    dry_l: Binary32,
    dry_r: Binary32,
    p: GtrParams,
    output_linear: Binary32,
)
    requires
        p.limiter_on,
        s.limiter.wf(),
        s.limiter.ceiling == of_bits(CEILING),
        at_most(of_bits(STEADY_RELEASE), s.limiter.release_coeff),
        s.trimmed(dry_l, dry_r, p, output_linear).0.is_finite(),
        s.trimmed(dry_l, dry_r, p, output_linear).1.is_finite(),
    ensures
        s.output(dry_l, dry_r, p, output_linear).0.mag() <= ONE,
        s.output(dry_l, dry_r, p, output_linear).1.mag() <= ONE,
{
    let t = s.trimmed(dry_l, dry_r, p, output_linear);
    lemma_limiter_holds_the_unit(s.limiter, t.0, t.1);
    lemma_soft_clip_ceiling(s.limiter.output(t.0, t.1).0);
    lemma_soft_clip_ceiling(s.limiter.output(t.0, t.1).1);
}

/// Two roundings, of the gain and of the product, keep the product within
/// one part in 2^21 of the ceiling.
proof fn lemma_attack_lands(vo: int, y: int, peak: int)
    requires
        0 <= peak <= 0x20_0000_0000_0000_0000_0000_0000_0000_0000_0000_0000_0000_0000_0000_0000_0000_0000_0000,
        y * 0x100_0000 <= 0x1f_5c29_0000_0000_0000_0000_0000_0000_0000_0000
            * 0x20_0000_0000_0000_0000_0000_0000_0000_0000_0000 * 0x100_0001 + peak * 0x80_0000,
        y * 0x100_0000 >= 0x1f_5c29_0000_0000_0000_0000_0000_0000_0000_0000
            * 0x20_0000_0000_0000_0000_0000_0000_0000_0000_0000 * 0xff_ffff - peak * 0x80_0000,
        vo * 0x20_0000_0000_0000_0000_0000_0000_0000_0000_0000 * 0x100_0000 <= y * 0x100_0001
            + 0x20_0000_0000_0000_0000_0000_0000_0000_0000_0000 * 0x80_0000,
        vo * 0x20_0000_0000_0000_0000_0000_0000_0000_0000_0000 * 0x100_0000 >= y * 0xff_ffff
            - 0x20_0000_0000_0000_0000_0000_0000_0000_0000_0000 * 0x80_0000,
    ensures
        vo * 0x20_0000 <= 0x1f_5c29_0000_0000_0000_0000_0000_0000_0000_0000 * 0x20_0001,
        vo * 0x20_0000 >= 0x1f_5c29_0000_0000_0000_0000_0000_0000_0000_0000 * 0x1f_ffff,
{
}

/// A peak above the ceiling that raises the envelope is brought down to
/// the ceiling: the louder channel of such a frame leaves the gain at 0.98
/// to within one part in 2^21.
pub proof fn lemma_limiter_lands_on_the_ceiling(lim: Limiter, l: Binary32, r: Binary32, x: Binary32)
    requires
        lim.wf(),
        lim.ceiling == of_bits(CEILING),
        l.is_finite(),
        r.is_finite(),
        x == l || x == r,
        absolute(x) == larger(absolute(l), absolute(r)),
        below(lim.env, absolute(x)),
        below(lim.ceiling, absolute(x)),
    ensures
        mag_value(product(lim.gain(l, r), x).mag()) * 0x20_0000 <= mag_value(CEILING as int) * 0x20_0001,
        mag_value(product(lim.gain(l, r), x).mag()) * 0x20_0000 >= mag_value(CEILING as int) * 0x1f_ffff,
{
    let peak = absolute(x);
    let g = lim.gain(l, r);
    let u = mag_value(0x3f80_0000);
    let c = mag_value(0x3f7a_e148);
    let vp = mag_value(peak.mag());
    lemma_limiter_values();
    lemma_landmarks();
    lemma_limiter_never_amplifies(lim, l, r);
    lemma_mag_value_sign(peak.mag());
    lemma_mag_value_sign(g.mag());
    lemma_mag_value_increases(peak.mag(), 0x7f80_0000);
    let vg = mag_value(g.mag());
    assert(larger(peak, of_bits(ENV_FLOOR)) == peak);
    assert(c * u >= 0) by (nonlinear_arith)
        requires
            c >= 0,
            u >= 0,
    ;
    lemma_round_error(c * u, vp);
    assert(g.mag() == round_mag(c * u, vp));
    let y = vg * vp;
    assert(y >= 0 && vp * vg == y) by (nonlinear_arith)
        requires
            y == vg * vp,
            vg >= 0,
            vp >= 0,
    ;
    lemma_product_shrinks(x, g);
    lemma_round_error(y, u);
    let vo = mag_value(product(g, x).mag());
    assert(vo == mag_value(round_mag(y, u)));
    assert(vg * vp * 0x100_0000 == y * 0x100_0000 && vo * u * 0x100_0000 == (vo * u) * 0x100_0000) by (nonlinear_arith)
        requires
            y == vg * vp,
    ;
    lemma_attack_lands(vo, y, vp);
}

} // verus!
