use edm_gtr::dsp::amp::Amp;
use edm_gtr::dsp::cab::{Cab, CabPoles};
use edm_gtr::dsp::chain::{ChainCoeffs, GuitarChain};
use edm_gtr::dsp::filters::{cutoff_exponent, OnePoleHp, OnePoleLp, TiltEq};
use edm_gtr::dsp::fx::{widen, DelayLine, Limiter, StereoFx};
use edm_gtr::dsp::gate::{Gate, GateCoeffs};
use edm_gtr::dsp::{fast_tanh, flush_denormals, time_to_coeff, time_to_coeff_exponent};
use edm_gtr::engine::{BlockCoeffs, EdmGtr, StartCoeffs};
use edm_gtr::num::binary32::Binary32;
use edm_gtr::params::{db_to_gain_exponent, AmpModel, CabModel, GtrParams};

fn b(x: f32) -> Binary32 {
    Binary32::from_bits(x.to_bits())
}

fn f(x: Binary32) -> f32 {
    f32::from_bits(x.to_bits())
}

fn exp(x: Binary32) -> Binary32 {
    b(f(x).exp())
}

fn exp_gate(k: GateCoeffs) -> GateCoeffs {
    GateCoeffs { threshold: exp(k.threshold), env_decay: exp(k.env_decay), gain_decay: exp(k.gain_decay) }
}

fn exp_cab(k: CabPoles) -> CabPoles {
    CabPoles { tilt: exp(k.tilt), presence: exp(k.presence), air: exp(k.air) }
}

fn exp_chain(k: ChainCoeffs) -> ChainCoeffs {
    ChainCoeffs { gate: exp_gate(k.gate), low_cut: exp(k.low_cut), cab: exp_cab(k.cab) }
}

fn exp_start(k: StartCoeffs) -> StartCoeffs {
    StartCoeffs { chain: exp_chain(k.chain), limiter: exp(k.limiter) }
}

fn exp_block(k: BlockCoeffs) -> BlockCoeffs {
    BlockCoeffs { chain: exp_chain(k.chain), input_linear: exp(k.input_linear), output_linear: exp(k.output_linear) }
}

fn params(
    input_gain: f32,
    drive: f32,
    tone: f32,
    space: f32,
    width: f32,
    output_gain: f32,
    gate_threshold: f32,
    gate_release_ms: f32,
    amp_model: AmpModel,
    low_cut_hz: f32,
    presence: f32,
    air: f32,
    cab_model: CabModel,
    limiter_on: bool,
) -> GtrParams {
    GtrParams::with_values(
        b(input_gain),
        b(drive),
        b(tone),
        b(space),
        b(width),
        b(output_gain),
        b(gate_threshold),
        b(gate_release_ms),
        amp_model,
        b(low_cut_hz),
        b(presence),
        b(air),
        cab_model,
        limiter_on,
    )
}

// Hardware arithmetic for the same formulas, to hold the library against.

fn hw_tanh(x: f32) -> f32 {
    let x2 = x * x;
    x * (27.0 + x2) / (27.0 + 9.0 * x2)
}

fn hw_flush(x: f32) -> f32 {
    if x.abs() < 1e-24 {
        0.0
    } else {
        x
    }
}

fn hw_time_to_coeff(time_s: f32, sr: f32) -> f32 {
    if time_s <= 0.0 {
        0.0
    } else {
        (-1.0 / (time_s * sr)).exp()
    }
}

fn hw_db_to_gain(db: f32) -> f32 {
    (db * 0.115129f32).exp()
}

struct HwLp {
    a: f32,
    z: f32,
}

impl HwLp {
    fn new() -> Self {
        HwLp { a: 0.0, z: 0.0 }
    }

    fn set_cutoff(&mut self, sr: f32, hz: f32) {
        let hz = hz.max(1.0).min(sr * 0.45);
        let a = (-2.0 * core::f32::consts::PI * hz / sr).exp();
        self.a = 1.0 - a;
    }

    fn process(&mut self, x: f32) -> f32 {
        self.z += self.a * (x - self.z);
        hw_flush(self.z)
    }

    fn high(&mut self, x: f32) -> f32 {
        let lp = self.process(x);
        hw_flush(x - lp)
    }

    fn tilt(&mut self, x: f32, tilt: f32) -> f32 {
        let tilt = tilt.clamp(-1.0, 1.0);
        let low = self.process(x);
        let high = x - low;
        let k = tilt * 0.8;
        let low_gain = 1.0 + (-k);
        let high_gain = 1.0 + k;
        hw_flush(low * low_gain + high * high_gain)
    }
}

struct HwGate {
    env: f32,
    gain: f32,
    thresh: f32,
    env_rel: f32,
    gain_rel: f32,
}

impl HwGate {
    fn new(sr: f32, threshold_db: f32, release_ms: f32) -> Self {
        let rel_s = (release_ms / 1000.0).max(1e-4);
        HwGate {
            env: 0.0,
            gain: 1.0,
            thresh: hw_db_to_gain(threshold_db),
            env_rel: hw_time_to_coeff(rel_s, sr),
            gain_rel: hw_time_to_coeff(rel_s * 0.4, sr),
        }
    }

    fn process(&mut self, x: f32) -> f32 {
        let level = x.abs();
        if level > self.env {
            self.env = level;
        } else {
            self.env *= self.env_rel;
        }
        if self.env < self.thresh {
            self.gain *= self.gain_rel;
        } else {
            self.gain += (1.0 - self.gain) * 0.5;
        }
        hw_flush(x * self.gain)
    }
}

fn hw_amp(x: f32, drive: f32, model: AmpModel) -> f32 {
    let drive = drive.clamp(0.0, 1.0);
    let (pre_gain, sat, post) = match model {
        AmpModel::CleanGlass => (1.0 + 3.0 * drive, 0.7 + 0.3 * drive, 0.9),
        AmpModel::CrunchTight => (1.5 + 6.0 * drive, 0.9 + 0.5 * drive, 0.7),
        AmpModel::LeadEdm => (2.0 + 10.0 * drive, 1.1 + 0.6 * drive, 0.6),
    };
    let pre = x * pre_gain;
    let shaped = hw_tanh(pre * sat);
    let wet = 0.2 + 0.7 * drive;
    let dry = 1.0 - wet;
    hw_flush((pre * dry + shaped * wet) * post)
}

struct HwCab {
    tilt: HwLp,
    presence: HwLp,
    air: HwLp,
}

impl HwCab {
    fn new(sr: f32) -> Self {
        let mut c = HwCab { tilt: HwLp::new(), presence: HwLp::new(), air: HwLp::new() };
        c.tilt.set_cutoff(sr, 1600.0);
        c.presence.set_cutoff(sr, 3000.0);
        c.air.set_cutoff(sr, 8000.0);
        c
    }

    fn process(&mut self, x: f32, tone: f32, pres: f32, air: f32, cab: CabModel) -> f32 {
        if cab == CabModel::DiBypass {
            return x;
        }
        let bias = match cab {
            CabModel::TightModern => 0.1,
            CabModel::WarmVintage => -0.1,
            CabModel::BrightPop => 0.25,
            CabModel::DiBypass => 0.0,
        };
        let tone_amt = (tone + bias).clamp(0.0, 1.0);
        let tilt = tone_amt * 2.0 - 1.0;
        let mut y = self.tilt.tilt(x, tilt);
        if pres > 0.0 {
            let base = 1.0 + 2.0 * pres;
            let hi = self.presence.high(y);
            y += hi * (base - 1.0);
        }
        if air > 0.0 {
            let base = 1.0 + 3.0 * air;
            let hi = self.air.high(y);
            y += hi * (base - 1.0);
        }
        hw_flush(y)
    }
}

struct HwDelay {
    buf: Vec<f32>,
    idx: usize,
}

impl HwDelay {
    fn new(len: usize) -> Self {
        HwDelay { buf: vec![0.0; len.max(1)], idx: 0 }
    }

    fn process(&mut self, x: f32, feedback: f32) -> f32 {
        let y = self.buf[self.idx];
        self.buf[self.idx] = hw_flush(x + y * feedback);
        self.idx += 1;
        if self.idx >= self.buf.len() {
            self.idx = 0;
        }
        y
    }
}

struct HwLimiter {
    env: f32,
    release: f32,
}

impl HwLimiter {
    fn process(&mut self, l: f32, r: f32) -> (f32, f32) {
        let peak = l.abs().max(r.abs());
        if peak > self.env {
            self.env = peak;
        } else {
            self.env *= self.release;
        }
        let mut gl = 1.0;
        if self.env > 0.98 {
            gl = 0.98 / self.env.max(1e-9);
        }
        (hw_flush(gl * l), hw_flush(gl * r))
    }
}

struct HwEngine {
    gate_l: HwGate,
    gate_r: HwGate,
    cut_l: HwLp,
    cut_r: HwLp,
    cab_l: HwCab,
    cab_r: HwCab,
    delay_l: HwDelay,
    delay_r: HwDelay,
    limiter: HwLimiter,
}

impl HwEngine {
    fn new(sr: f32, p: &[f32; 12]) -> Self {
        let mut cut_l = HwLp::new();
        cut_l.set_cutoff(sr, p[8]);
        let mut cut_r = HwLp::new();
        cut_r.set_cutoff(sr, p[8]);
        HwEngine {
            gate_l: HwGate::new(sr, p[6], p[7]),
            gate_r: HwGate::new(sr, p[6], p[7]),
            cut_l,
            cut_r,
            cab_l: HwCab::new(sr),
            cab_r: HwCab::new(sr),
            delay_l: HwDelay::new((0.040 * sr) as usize),
            delay_r: HwDelay::new((0.047 * sr) as usize),
            limiter: HwLimiter { env: 0.0, release: hw_time_to_coeff(0.05, sr) },
        }
    }

    fn frame(&mut self, in_l: f32, in_r: f32, p: &[f32; 12], amp: AmpModel, cab: CabModel, limit: bool) -> (f32, f32) {
        let g = hw_db_to_gain(p[0]);
        let mut l = in_l * g;
        l = self.gate_l.process(l);
        l = self.cut_l.high(l);
        l = hw_amp(l, p[1], amp);
        l = self.cab_l.process(l, p[2], p[9], p[10], cab);
        let mut r = in_r * g;
        r = self.gate_r.process(r);
        r = self.cut_r.high(r);
        r = hw_amp(r, p[1], amp);
        r = self.cab_r.process(r, p[2], p[9], p[10], cab);
        let (dry_l, dry_r) = (l, r);
        let space = p[3].clamp(0.0, 1.0);
        let width = p[4].clamp(0.0, 1.0);
        let fb = 0.25 + 0.4 * space;
        let dl = self.delay_l.process(dry_l, fb);
        let dr = self.delay_r.process(dry_r, fb);
        let wet_l = dl + 0.3 * dr;
        let wet_r = dr + 0.3 * dl;
        let mix = space;
        let mut l = dry_l * (1.0 - mix) + wet_l * mix;
        let mut r = dry_r * (1.0 - mix) + wet_r * mix;
        let mid = 0.5 * (l + r);
        let side = 0.5 * (l - r);
        let side_gain = 1.0 + width * 1.5;
        let new_side = side * side_gain;
        l = mid + new_side;
        r = mid - new_side;
        let out_gain = hw_db_to_gain(p[5]);
        l *= out_gain;
        r *= out_gain;
        if limit {
            let lim = self.limiter.process(l, r);
            l = lim.0;
            r = lim.1;
        }
        (hw_flush(hw_tanh(l)), hw_flush(hw_tanh(r)))
    }
}

struct Lcg(u64);

impl Lcg {
    fn next(&mut self) -> u32 {
        self.0 = self.0.wrapping_mul(6364136223846793005).wrapping_add(1442695040888963407);
        (self.0 >> 32) as u32
    }

    fn unit(&mut self) -> f32 {
        (self.next() >> 8) as f32 / 16777216.0
    }

    fn signal(&mut self) -> f32 {
        self.unit() * 2.0 - 1.0
    }
}

fn engine_pair(sr: f32, p: &[f32; 12], amp: AmpModel, cab: CabModel, limit: bool) -> (EdmGtr, GtrParams, BlockCoeffs, HwEngine) {
    let snapshot = params(p[0], p[1], p[2], p[3], p[4], p[5], p[6], p[7], amp, p[8], p[9], p[10], cab, limit);
    let start = exp_start(EdmGtr::start_exponents(b(sr)));
    let mut e = EdmGtr::new(b(sr), &start);
    let block = exp_block(e.block_exponents(&snapshot));
    e.update_params(&snapshot, &block);
    (e, snapshot, block, HwEngine::new(sr, p))
}

#[test]
fn soft_clip_and_flush_match_the_hardware() {
    let mut g = Lcg(11);
    for _ in 0..20000 {
        let x = f32::from_bits(g.next());
        if x.is_nan() {
            continue;
        }
        let got = f(fast_tanh(b(x)));
        let want = hw_tanh(x);
        assert!(got.to_bits() == want.to_bits() || (got.is_nan() && want.is_nan()), "{:?}", x);
        assert_eq!(f(flush_denormals(b(x))).to_bits(), hw_flush(x).to_bits(), "{:?}", x);
    }
    assert_eq!(f(flush_denormals(b(9.9e-25))), 0.0);
    assert_eq!(f(flush_denormals(b(-9.9e-25))).to_bits(), 0);
    assert_eq!(f(flush_denormals(b(1e-24))), 1e-24);
    assert_eq!(f(flush_denormals(b(-0.0))).to_bits(), 0);
    assert_eq!(f(fast_tanh(b(1.0))), 28.0f32 / 36.0f32);
}

#[test]
fn coefficients_match_the_hardware() {
    for &sr in [44100.0f32, 48000.0, 96000.0, 8000.0].iter() {
        for &hz in [0.5f32, 1.0, 40.0, 100.0, 110.0, 1000.0, 1600.0, 3000.0, 8000.0, 30000.0, 1e9].iter() {
            let mut lp = OnePoleLp::new();
            lp.set_cutoff(exp(cutoff_exponent(b(sr), b(hz))));
            let mut hw = HwLp::new();
            hw.set_cutoff(sr, hz);
            assert_eq!(f(lp.a).to_bits(), hw.a.to_bits(), "{} {}", sr, hz);
        }
        for &t in [0.05f32, 0.08, 0.032, 1e-4, 0.4].iter() {
            let got = time_to_coeff(b(t), exp(time_to_coeff_exponent(b(t), b(sr))));
            assert_eq!(f(got).to_bits(), hw_time_to_coeff(t, sr).to_bits());
        }
    }
    assert_eq!(f(time_to_coeff(b(0.0), b(0.5))), 0.0);
    assert_eq!(f(time_to_coeff(b(-1.0), b(0.5))), 0.0);
    assert_eq!(f(time_to_coeff(b(1.0), b(0.5))), 0.5);
    for &db in [-60.0f32, -50.0, -24.0, -18.0, 0.0, 6.0, 24.0].iter() {
        assert_eq!(f(exp(db_to_gain_exponent(b(db)))).to_bits(), hw_db_to_gain(db).to_bits());
    }
}

#[test]
fn filters_match_the_hardware() {
    let mut g = Lcg(12);
    let sr = 44100.0f32;
    let mut lp = OnePoleLp::new();
    lp.set_cutoff(exp(cutoff_exponent(b(sr), b(1000.0))));
    let mut hp = OnePoleHp::new();
    hp.set_cutoff(exp(cutoff_exponent(b(sr), b(110.0))));
    let mut tilt = TiltEq::new();
    tilt.set_pivot(exp(cutoff_exponent(b(sr), b(1600.0))));
    let mut hw_lp = HwLp::new();
    hw_lp.set_cutoff(sr, 1000.0);
    let mut hw_hp = HwLp::new();
    hw_hp.set_cutoff(sr, 110.0);
    let mut hw_tilt = HwLp::new();
    hw_tilt.set_cutoff(sr, 1600.0);
    for _ in 0..5000 {
        let x = g.signal();
        let t = g.signal() * 1.5;
        assert_eq!(f(lp.process(b(x))).to_bits(), hw_lp.process(x).to_bits());
        assert_eq!(f(hp.process(b(x))).to_bits(), hw_hp.high(x).to_bits());
        assert_eq!(f(tilt.process(b(x), b(t))).to_bits(), hw_tilt.tilt(x, t).to_bits());
    }
}

#[test]
fn gate_matches_the_hardware() {
    let mut g = Lcg(13);
    let sr = 48000.0f32;
    let p = params(0.0, 0.5, 0.5, 0.2, 0.5, 0.0, -30.0, 25.0, AmpModel::LeadEdm, 80.0, 0.5, 0.5, CabModel::BrightPop, true);
    let k = exp_gate(Gate::exponents(b(sr), &GtrParams::default()));
    let mut gate = Gate::new(b(sr), &k);
    let k2 = exp_gate(Gate::exponents(b(sr), &p));
    gate.update_params(b(sr), &p, &k2);
    let mut hw = HwGate::new(sr, -30.0, 25.0);
    for i in 0..20000 {
        let loud = (i / 2000) % 2 == 0;
        let x = g.signal() * if loud { 0.5 } else { 0.001 };
        assert_eq!(f(gate.process_sample(b(x))).to_bits(), hw.process(x).to_bits());
        assert_eq!(f(gate.gain).to_bits(), hw.gain.to_bits());
        assert_eq!(f(gate.env).to_bits(), hw.env.to_bits());
    }
}

#[test]
fn amp_matches_the_hardware() {
    let mut g = Lcg(14);
    let mut amp = Amp::new(b(44100.0));
    for i in 0..30000 {
        let model = match i % 3 {
            0 => AmpModel::CleanGlass,
            1 => AmpModel::CrunchTight,
            _ => AmpModel::LeadEdm,
        };
        let drive = g.unit() * 1.4 - 0.2;
        let x = g.signal() * 2.0;
        let p = params(0.0, drive, 0.5, 0.2, 0.5, 0.0, -30.0, 25.0, model, 80.0, 0.5, 0.5, CabModel::BrightPop, true);
        assert_eq!(f(amp.process_sample(b(x), &p)).to_bits(), hw_amp(x, drive, model).to_bits());
    }
}

#[test]
fn cab_matches_the_hardware() {
    let mut g = Lcg(15);
    let sr = 44100.0f32;
    let models = [CabModel::TightModern, CabModel::WarmVintage, CabModel::BrightPop, CabModel::DiBypass];
    for (n, &model) in models.iter().enumerate() {
        let k = exp_cab(Cab::exponents(b(sr)));
        let mut cab = Cab::new(b(sr), &k);
        let mut hw = HwCab::new(sr);
        for i in 0..4000 {
            let tone = g.unit();
            let pres = if i % 7 == 0 { 0.0 } else { g.unit() };
            let air = if i % 5 == 0 { 0.0 } else { g.unit() };
            let x = g.signal();
            let p = params(0.0, 0.5, tone, 0.2, 0.5, 0.0, -30.0, 25.0, AmpModel::LeadEdm, 80.0, pres, air, model, true);
            let got = f(cab.process_sample(b(x), &p));
            let want = hw.process(x, tone, pres, air, model);
            assert_eq!(got.to_bits(), want.to_bits(), "model {} sample {}", n, i);
        }
    }
}

#[test]
fn delay_line_gives_back_what_went_in() {
    let mut d = DelayLine::new(3);
    assert_eq!(d.len(), 3);
    let fb = b(0.5);
    let outs: Vec<f32> = [1.0f32, 2.0, 3.0, 0.0, 0.0, 0.0, 0.0].iter().map(|&x| f(d.process(b(x), fb))).collect();
    assert_eq!(outs, vec![0.0, 0.0, 0.0, 1.0, 2.0, 3.0, 0.5]);
    assert_eq!(DelayLine::new(0).len(), 1);
}

#[test]
fn delay_lengths_follow_the_sample_rate() {
    let fx = StereoFx::new(b(44100.0), b(0.999));
    assert_eq!(fx.delay_l.len(), 1764);
    assert_eq!(fx.delay_r.len(), 2072);
    let fx = StereoFx::new(b(48000.0), b(0.999));
    assert_eq!(fx.delay_l.len(), (0.040f32 * 48000.0) as usize);
    assert_eq!(fx.delay_r.len(), (0.047f32 * 48000.0) as usize);
    let fx = StereoFx::new(b(0.0), b(0.999));
    assert_eq!(fx.delay_l.len(), 1);
    let fx = StereoFx::new(b(f32::NAN), b(0.999));
    assert_eq!(fx.delay_r.len(), 1);
}

#[test]
fn whole_part_matches_the_hardware() {
    let mut g = Lcg(16);
    for _ in 0..100000 {
        let x = f32::from_bits(g.next());
        assert_eq!(b(x).to_usize(), x as usize, "{:?}", x);
    }
    for &x in [0.0f32, -0.0, 0.99999994, 1.0, 1.5, 2.0, 16777216.0, 4294967296.0, 1.8446744e19, 1e30, f32::INFINITY, -1.0, f32::NAN].iter() {
        assert_eq!(b(x).to_usize(), x as usize, "{:?}", x);
    }
}

#[test]
fn limiter_matches_the_hardware() {
    let mut g = Lcg(17);
    let sr = 44100.0f32;
    let mut lim = Limiter::new(b(sr), exp(Limiter::exponent(b(sr))));
    let mut hw = HwLimiter { env: 0.0, release: hw_time_to_coeff(0.05, sr) };
    for i in 0..20000 {
        let scale = if (i / 3000) % 2 == 0 { 0.5 } else { 3.0 };
        let l = g.signal() * scale;
        let r = g.signal() * scale;
        let got = lim.process(b(l), b(r));
        let want = hw.process(l, r);
        assert_eq!((f(got.0).to_bits(), f(got.1).to_bits()), (want.0.to_bits(), want.1.to_bits()));
    }
}

#[test]
fn whole_effect_matches_the_hardware() {
    let sr = 44100.0f32;
    let settings: [([f32; 12], AmpModel, CabModel, bool); 4] = [
        ([0.0, 0.55, 0.5, 0.25, 0.6, 0.0, -50.0, 80.0, 110.0, 0.5, 0.3, 0.0], AmpModel::CrunchTight, CabModel::TightModern, true),
        ([12.0, 1.0, 0.9, 1.0, 1.0, 6.0, -20.0, 10.0, 40.0, 1.0, 1.0, 0.0], AmpModel::LeadEdm, CabModel::BrightPop, true),
        ([-24.0, 0.0, 0.0, 0.0, 0.0, -18.0, -60.0, 400.0, 200.0, 0.0, 0.0, 0.0], AmpModel::CleanGlass, CabModel::WarmVintage, false),
        ([3.0, 0.3, 0.2, 0.7, 0.3, 2.0, -40.0, 120.0, 90.0, 0.2, 0.9, 0.0], AmpModel::CrunchTight, CabModel::DiBypass, false),
    ];
    for (n, (p, amp, cab, limit)) in settings.iter().enumerate() {
        let (mut e, snapshot, block, mut hw) = engine_pair(sr, p, *amp, *cab, *limit);
        let mut g = Lcg(100 + n as u64);
        for i in 0..6000 {
            let burst = (i / 500) % 3 != 2;
            let l = g.signal() * if burst { 0.8 } else { 0.0005 };
            let r = g.signal() * if burst { 0.8 } else { 0.0005 };
            let got = e.process_frame(b(l), Some(b(r)), &snapshot, &block);
            let want = hw.frame(l, r, p, *amp, *cab, *limit);
            assert_eq!((f(got.0).to_bits(), f(got.1).to_bits()), (want.0.to_bits(), want.1.to_bits()), "setting {} frame {}", n, i);
        }
    }
}

#[test]
fn missing_right_channel_takes_the_left() {
    let sr = 44100.0f32;
    let p = [0.0, 0.55, 0.5, 0.25, 0.6, 0.0, -50.0, 80.0, 110.0, 0.5, 0.3, 0.0];
    let (mut mono, snapshot, block, _) = engine_pair(sr, &p, AmpModel::CrunchTight, CabModel::TightModern, true);
    let (mut both, _, _, _) = engine_pair(sr, &p, AmpModel::CrunchTight, CabModel::TightModern, true);
    let mut g = Lcg(21);
    for _ in 0..3000 {
        let x = g.signal() * 0.5;
        let a = mono.process_frame(b(x), None, &snapshot, &block);
        let c = both.process_frame(b(x), Some(b(x)), &snapshot, &block);
        assert_eq!((a.0.to_bits(), a.1.to_bits()), (c.0.to_bits(), c.1.to_bits()));
    }
}

#[test]
fn widen_scales_the_side() {
    let (l, r) = (0.75f32, -0.25f32);
    let out = widen(b(l), b(r), b(0.0));
    assert_eq!((f(out.0), f(out.1)), (0.75, -0.25));
    let out = widen(b(l), b(r), b(1.0));
    let side = 0.5 * (f(out.0) - f(out.1));
    assert_eq!(side, 2.5 * 0.5);
    let mid = 0.5 * (f(out.0) + f(out.1));
    assert_eq!(mid, 0.25);
}

#[test]
fn chain_reset_returns_to_silence() {
    let sr = 44100.0f32;
    let start = exp_chain(GuitarChain::start_exponents(b(sr)));
    let mut chain = GuitarChain::new(b(sr), &start);
    let p = GtrParams::default();
    let k = exp_chain(GuitarChain::exponents(b(sr), &p));
    chain.update_params(&p, &k);
    let g = exp(p.input_exponent());
    let mut rng = Lcg(5);
    for _ in 0..1000 {
        chain.process_sample(b(rng.signal()), &p, g);
    }
    chain.reset(b(sr), &start);
    assert_eq!(chain.gate.env.to_bits(), 0);
    assert_eq!(f(chain.gate.gain), 1.0);
    assert_eq!(chain.pre_lowcut.lp.z.to_bits(), 0);
    assert_eq!(chain.cab.tilt.lp.z.to_bits(), 0);
    assert_eq!(chain.cab.presence_hp.lp.z.to_bits(), 0);
    assert_eq!(chain.cab.air_hp.lp.z.to_bits(), 0);
    let mut hw = HwLp::new();
    hw.set_cutoff(sr, 100.0);
    assert_eq!(f(chain.pre_lowcut.lp.a).to_bits(), hw.a.to_bits());
}

#[test]
fn reset_is_the_same_as_new() {
    let sr = 48000.0f32;
    let start = exp_start(EdmGtr::start_exponents(b(sr)));
    let mut used = EdmGtr::new(b(44100.0), &exp_start(EdmGtr::start_exponents(b(44100.0))));
    let p = params(6.0, 0.9, 0.8, 0.7, 0.6, 3.0, -20.0, 10.0, AmpModel::LeadEdm, 60.0, 0.7, 0.2, CabModel::BrightPop, true);
    let k = exp_block(used.block_exponents(&p));
    used.update_params(&p, &k);
    let mut g = Lcg(31);
    for _ in 0..3000 {
        used.process_frame(b(g.signal() * 4.0), Some(b(g.signal() * 4.0)), &p, &k);
    }
    assert!(used.initialize(b(sr), &start));
    let mut fresh = EdmGtr::new(b(sr), &start);
    assert_eq!(used.chain_l.gate.thresh_lin.to_bits(), fresh.chain_l.gate.thresh_lin.to_bits());
    assert_eq!(used.chain_r.gate.gain_release_coeff.to_bits(), fresh.chain_r.gate.gain_release_coeff.to_bits());
    assert_eq!(used.fx.limiter.env.to_bits(), 0);
    assert_eq!(used.fx.delay_r.len(), fresh.fx.delay_r.len());
    let q = GtrParams::default();
    let kq = exp_block(fresh.block_exponents(&q));
    for _ in 0..3000 {
        let (l, r) = (b(g.signal()), b(g.signal()));
        let a = used.process_frame(l, Some(r), &q, &kq);
        let c = fresh.process_frame(l, Some(r), &q, &kq);
        assert_eq!((a.0.to_bits(), a.1.to_bits()), (c.0.to_bits(), c.1.to_bits()));
    }
    used.reset(&start);
    used.reset(&start);
    let mut again = EdmGtr::new(b(sr), &start);
    for _ in 0..100 {
        let (l, r) = (b(g.signal()), b(g.signal()));
        let a = used.process_frame(l, Some(r), &q, &kq);
        let c = again.process_frame(l, Some(r), &q, &kq);
        assert_eq!((a.0.to_bits(), a.1.to_bits()), (c.0.to_bits(), c.1.to_bits()));
    }
}
