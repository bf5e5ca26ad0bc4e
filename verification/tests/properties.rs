use edm_gtr::dsp::cab::{Cab, CabPoles};
use edm_gtr::dsp::chain::{ChainCoeffs, GuitarChain};
use edm_gtr::dsp::filters::{cutoff_exponent, OnePoleLp};
use edm_gtr::dsp::flush_denormals;
use edm_gtr::dsp::fx::{Limiter, StereoFx};
use edm_gtr::dsp::gate::{Gate, GateCoeffs};
use edm_gtr::engine::{BlockCoeffs, EdmGtr, StartCoeffs};
use edm_gtr::num::binary32::Binary32;
use edm_gtr::params::{AmpModel, CabModel, GtrParams};

fn b(x: f32) -> Binary32 {
    Binary32::from_bits(x.to_bits())
}

fn f(x: Binary32) -> f32 {
    f32::from_bits(x.to_bits())
}

fn exp(x: Binary32) -> Binary32 {
    b(f(x).exp())
}

fn exp_gate(k: GateCoeffs) -> GateCoeffs {
    GateCoeffs { threshold: exp(k.threshold), env_decay: exp(k.env_decay), gain_decay: exp(k.gain_decay) }
}

fn exp_cab(k: CabPoles) -> CabPoles {
    CabPoles { tilt: exp(k.tilt), presence: exp(k.presence), air: exp(k.air) }
}

fn exp_chain(k: ChainCoeffs) -> ChainCoeffs {
    ChainCoeffs { gate: exp_gate(k.gate), low_cut: exp(k.low_cut), cab: exp_cab(k.cab) }
}

fn exp_start(k: StartCoeffs) -> StartCoeffs {
    StartCoeffs { chain: exp_chain(k.chain), limiter: exp(k.limiter) }
}

fn exp_block(k: BlockCoeffs) -> BlockCoeffs {
    BlockCoeffs { chain: exp_chain(k.chain), input_linear: exp(k.input_linear), output_linear: exp(k.output_linear) }
}

fn coefficient(sr: f32, hz: f32) -> f32 {
    let mut lp = OnePoleLp::new();
    lp.set_cutoff(exp(cutoff_exponent(b(sr), b(hz))));
    f(lp.a)
}

#[test]
fn coefficient_rises_with_the_cutoff() {
    let sr = 44100.0f32;
    let cutoffs = [1.0f32, 2.0, 10.0, 40.0, 100.0, 110.0, 200.0, 1000.0, 1600.0, 3000.0, 8000.0, 15000.0, 19845.0];
    for w in cutoffs.windows(2) {
        let (a1, a2) = (coefficient(sr, w[0]), coefficient(sr, w[1]));
        assert!(a1 < a2, "{} {}", w[0], w[1]);
        assert!(0.0 < a1 && a2 < 1.0);
    }
}

#[test]
fn cutoff_is_held_between_one_hertz_and_the_ceiling() {
    let sr = 44100.0f32;
    assert_eq!(coefficient(sr, 0.001), coefficient(sr, 1.0));
    assert_eq!(coefficient(sr, -5.0), coefficient(sr, 1.0));
    assert_eq!(coefficient(sr, 1e9), coefficient(sr, sr * 0.45));
    assert_eq!(coefficient(sr, 30000.0), coefficient(sr, 19845.0));
}

#[test]
fn flush_cuts_below_the_threshold_and_nowhere_else() {
    for &x in [0.0f32, 1e-45, 1e-30, 9.999999e-25, -9.999999e-25, -1e-38].iter() {
        assert_eq!(f(flush_denormals(b(x))).to_bits(), 0, "{:?}", x);
    }
    for &x in [1e-24f32, -1e-24, 1.0000001e-24, 1e-10, -0.5, 1.0, 3e38, f32::INFINITY, f32::NEG_INFINITY].iter() {
        assert_eq!(f(flush_denormals(b(x))).to_bits(), x.to_bits(), "{:?}", x);
        let once = flush_denormals(b(x));
        assert_eq!(flush_denormals(once).to_bits(), once.to_bits());
    }
    assert!(f(flush_denormals(b(f32::NAN))).is_nan());
}

#[test]
fn silence_in_silence_out() {
    for &sr in [44100.0f32, 48000.0, 96000.0].iter() {
        let start = exp_chain(GuitarChain::start_exponents(b(sr)));
        let mut chain = GuitarChain::new(b(sr), &start);
        let p = GtrParams::default();
        let k = exp_chain(GuitarChain::exponents(b(sr), &p));
        chain.update_params(&p, &k);
        let g = exp(p.input_exponent());
        for _ in 0..5000 {
            assert_eq!(f(chain.process_sample(b(0.0), &p, g)), 0.0);
        }
        chain.reset(b(sr), &start);
        for _ in 0..100 {
            assert_eq!(f(chain.process_sample(b(-0.0), &p, g)), 0.0);
        }
    }
}

#[test]
fn silence_through_the_whole_effect() {
    let sr = 44100.0f32;
    let mut e = EdmGtr::new(b(sr), &exp_start(EdmGtr::start_exponents(b(sr))));
    let p = GtrParams::default();
    let k = exp_block(e.block_exponents(&p));
    e.update_params(&p, &k);
    for _ in 0..5000 {
        let out = e.process_frame(b(0.0), Some(b(0.0)), &p, &k);
        assert_eq!((f(out.0), f(out.1)), (0.0, 0.0));
    }
}

#[test]
fn bypass_hands_the_input_through() {
    let sr = 44100.0f32;
    let mut cab = Cab::new(b(sr), &exp_cab(Cab::exponents(b(sr))));
    let inputs = [0.0f32, -0.0, 1e-30, -1e-30, 0.25, -0.75, 1.0, 100.0, f32::MAX, f32::INFINITY];
    for (i, &x) in inputs.iter().enumerate() {
        for &(tone, pres, air) in [(0.0f32, 0.0f32, 0.0f32), (1.0, 1.0, 1.0), (0.5, 0.3, 0.9), (0.2, 0.0, 1.0)].iter() {
            let p = GtrParams::with_values(
                b(0.0),
                b(0.5),
                b(tone),
                b(0.2),
                b(0.5),
                b(0.0),
                b(-50.0),
                b(80.0),
                AmpModel::CrunchTight,
                b(110.0),
                b(pres),
                b(air),
                CabModel::DiBypass,
                true,
            );
            assert_eq!(cab.process_sample(b(x), &p).to_bits(), x.to_bits(), "input {}", i);
        }
    }
    assert_eq!(cab.tilt.lp.z.to_bits(), 0);
    assert_eq!(cab.presence_hp.lp.z.to_bits(), 0);
    assert_eq!(cab.air_hp.lp.z.to_bits(), 0);
}

fn gate_at(sr: f32, threshold_db: f32, release_ms: f32) -> Gate {
    let mut p = GtrParams::default();
    p.gate_threshold = b(threshold_db);
    p.gate_release_ms = b(release_ms);
    let mut gate = Gate::new(b(sr), &exp_gate(Gate::exponents(b(sr), &GtrParams::default())));
    gate.update_params(b(sr), &p, &exp_gate(Gate::exponents(b(sr), &p)));
    gate
}

#[test]
fn gate_opens_to_one_and_stays() {
    let mut gate = gate_at(44100.0, -30.0, 80.0);
    gate.gain = b(0.0);
    let mut last = 0.0f32;
    let mut steps = 0;
    while f(gate.gain) < 1.0 {
        gate.process_sample(b(0.5));
        assert!(f(gate.gain) > last);
        last = f(gate.gain);
        steps += 1;
        assert!(steps <= 25);
    }
    assert_eq!(steps, 25);
    for _ in 0..100 {
        gate.process_sample(b(0.5));
        assert_eq!(f(gate.gain), 1.0);
    }
    let mut gate = gate_at(44100.0, -30.0, 80.0);
    gate.gain = b(0.0);
    gate.process_sample(b(0.5));
    assert_eq!(f(gate.gain), 0.5);
    gate.process_sample(b(0.5));
    assert_eq!(f(gate.gain), 0.75);
}

#[test]
fn gate_closes_by_its_release_coefficient() {
    let mut gate = gate_at(44100.0, -30.0, 80.0);
    let coeff = f(gate.gain_release_coeff);
    assert_eq!(coeff, (-1.0f32 / ((80.0f32 / 1000.0).max(1e-4) * 0.4 * 44100.0)).exp());
    assert!(0.0 < coeff && coeff < 1.0);
    let mut expected = 1.0f32;
    for _ in 0..20000 {
        gate.process_sample(b(0.001));
        expected *= coeff;
        assert_eq!(f(gate.gain), expected);
    }
    assert!(f(gate.gain) < 1e-5);
    assert_eq!(f(gate.thresh_lin), (-30.0f32 * 0.115129f32).exp());
}

#[test]
fn limiter_holds_a_sustained_peak_near_the_ceiling() {
    let sr = 44100.0f32;
    let mut lim = Limiter::new(b(sr), exp(Limiter::exponent(b(sr))));
    for &peak in [1.0f32, 1.5, 2.0, 10.0].iter() {
        for i in 0..2000 {
            let out = lim.process(b(peak), b(-peak * 0.5));
            let (l, r) = (f(out.0), f(out.1));
            assert!(l <= peak && r.abs() <= peak * 0.5);
            if i > 2 {
                assert!((l - 0.98).abs() < 0.001, "{} {}", peak, l);
                assert!((r + 0.49).abs() < 0.001);
            }
        }
    }
}

#[test]
fn limiter_is_transparent_under_the_ceiling() {
    let sr = 44100.0f32;
    let mut lim = Limiter::new(b(sr), exp(Limiter::exponent(b(sr))));
    let frames = [(0.5f32, -0.25f32), (0.98, 0.98), (-0.98, 0.1), (0.0, 0.0), (1e-10, -1e-20), (0.3, 0.97999996)];
    for _ in 0..50 {
        for &(l, r) in frames.iter() {
            let out = lim.process(b(l), b(r));
            assert_eq!((out.0.to_bits(), out.1.to_bits()), (l.to_bits(), r.to_bits()));
            assert!(f(lim.env) <= 0.98);
        }
    }
}

#[test]
fn impulse_through_the_low_pass_decays_geometrically() {
    let sr = 44100.0f32;
    let mut lp = OnePoleLp::new();
    lp.set_cutoff(exp(cutoff_exponent(b(sr), b(1000.0))));
    let a = f(lp.a);
    assert_eq!(a, 1.0f32 - (-2.0f32 * core::f32::consts::PI * 1000.0 / 44100.0).exp());
    assert!((a - 0.1341).abs() < 2e-3);
    assert!((a - 0.13279).abs() < 1e-5);
    let y0 = f(lp.process(b(1.0)));
    assert_eq!(y0, a);
    let mut want = y0 as f64;
    let mut prev = y0;
    for n in 1..200 {
        let y = f(lp.process(b(0.0)));
        want *= 1.0 - a as f64;
        assert!(y < prev && y > 0.0);
        assert!(((y as f64) - want).abs() <= want * 1e-5, "sample {}", n);
        assert_eq!(y, prev + a * (0.0 - prev));
        prev = y;
    }
}

#[test]
fn default_settings_keep_a_sustained_tone_in_range() {
    let sr = 44100.0f32;
    let mut e = EdmGtr::new(b(sr), &exp_start(EdmGtr::start_exponents(b(sr))));
    let p = GtrParams::default();
    assert_eq!(f(p.drive), 0.55);
    assert!(p.amp_model == AmpModel::CrunchTight && p.cab_model == CabModel::TightModern && p.limiter_on);
    let k = exp_block(e.block_exponents(&p));
    e.update_params(&p, &k);
    let mut loudest = 0.0f32;
    for n in 0..44100 {
        let x = 0.5 * (2.0 * core::f32::consts::PI * 440.0 * n as f32 / sr).sin();
        let out = e.process_frame(b(x), Some(b(x)), &p, &k);
        let (l, r) = (f(out.0), f(out.1));
        assert!(l.is_finite() && r.is_finite());
        if n > 4410 {
            assert!(-1.0 <= l && l <= 1.0 && -1.0 <= r && r <= 1.0, "frame {}: {} {}", n, l, r);
            loudest = loudest.max(l.abs()).max(r.abs());
        }
    }
    assert!(loudest > 0.1);
}

#[test]
fn width_leaves_or_scales_the_side_through_the_stage() {
    let sr = 44100.0f32;
    let decay = exp(Limiter::exponent(b(sr)));
    for &(width, scale) in [(0.0f32, 1.0f32), (1.0, 2.5)].iter() {
        let mut fx = StereoFx::new(b(sr), decay);
        let mut p = GtrParams::default();
        p.space = b(0.0);
        p.width = b(width);
        p.limiter_on = false;
        let (l, r) = (0.125f32, -0.0625f32);
        let out = fx.process_frame(b(l), b(r), &p, b(1.0));
        let clip = |v: f32| v * (27.0 + v * v) / (27.0 + 9.0 * (v * v));
        let mid = 0.5 * (l + r);
        let side = 0.5 * (l - r) * scale;
        assert_eq!((f(out.0), f(out.1)), (clip(mid + side), clip(mid - side)));
    }
}

#[test]
fn default_snapshot_has_the_documented_values() {
    let p = GtrParams::default();
    assert_eq!(f(p.input_gain), 0.0);
    assert_eq!(f(p.drive), 0.55);
    assert_eq!(f(p.tone), 0.5);
    assert_eq!(f(p.space), 0.25);
    assert_eq!(f(p.width), 0.6);
    assert_eq!(f(p.output_gain), 0.0);
    assert_eq!(f(p.gate_threshold), -50.0);
    assert_eq!(f(p.gate_release_ms), 80.0);
    assert_eq!(f(p.low_cut_hz), 110.0);
    assert_eq!(f(p.presence), 0.5);
    assert_eq!(f(p.air), 0.3);
    assert!(p.limiter_on);
    assert_eq!(f(p.input_exponent()), 0.0);
    let mut q = p;
    q.output_gain = b(6.0);
    assert_eq!(f(q.output_exponent()), 6.0f32 * 0.115129f32);
}

#[test]
fn soft_clip_keeps_a_unit_input_in_the_unit() {
    let mut x = -1.0f32;
    while x <= 1.0 {
        let y = f(edm_gtr::dsp::fast_tanh(b(x)));
        assert!(y.abs() <= 1.0 && (y < 0.0) == (x < 0.0), "{}", x);
        x += 1.0 / 1024.0;
    }
    assert_eq!(f(edm_gtr::dsp::fast_tanh(b(3.0))), 1.0);
}

#[test]
fn not_a_number_passes_through_without_harm() {
    let sr = 44100.0f32;
    let mut e = EdmGtr::new(b(sr), &exp_start(EdmGtr::start_exponents(b(sr))));
    let p = GtrParams::default();
    let k = exp_block(e.block_exponents(&p));
    e.update_params(&p, &k);
    let start = exp_start(EdmGtr::start_exponents(b(sr)));
    let out = e.process_frame(b(f32::NAN), Some(b(0.25)), &p, &k);
    assert!(f(out.0).is_nan() && f(out.1).is_nan());
    e.reset(&start);
    let out = e.process_frame(b(0.0), Some(b(0.0)), &p, &k);
    assert_eq!((f(out.0), f(out.1)), (0.0, 0.0));
    let out = e.process_frame(b(f32::INFINITY), None, &p, &k);
    assert!(f(out.0).is_nan() && f(out.1).is_nan());
    assert!(e.initialize(b(48000.0), &exp_start(EdmGtr::start_exponents(b(48000.0)))));
    e.update_params(&p, &exp_block(e.block_exponents(&p)));
    let k = exp_block(e.block_exponents(&p));
    let out = e.process_frame(b(0.0), None, &p, &k);
    assert_eq!((f(out.0), f(out.1)), (0.0, 0.0));
    assert_eq!(e.fx.delay_l.len(), 1920);
    assert!(b(f32::NAN).plus(b(1.0)).is_nan());
    assert_eq!(b(f32::NAN).times(b(0.0)).to_bits(), 0x7fc0_0000);
    assert_eq!(b(f32::INFINITY).minus(b(f32::INFINITY)).to_bits(), 0x7fc0_0000);
    assert_eq!(b(0.0).over(b(0.0)).to_bits(), 0x7fc0_0000);
    assert_eq!(b(f32::NAN).max(b(2.0)).to_bits(), 2.0f32.to_bits());
    assert_eq!(b(2.0).min(b(f32::NAN)).to_bits(), 2.0f32.to_bits());
    assert!(b(f32::NAN).clamp(b(0.0), b(1.0)).is_nan());
    assert_eq!(b(5.0).clamp(b(0.0), b(1.0)).to_bits(), 1.0f32.to_bits());
    assert_eq!(b(-5.0).clamp(b(0.0), b(1.0)).to_bits(), 0);
}

#[test]
fn level_just_above_the_threshold_lets_the_envelope_dip_under_it() {
    let mut gate = gate_at(44100.0, -30.0, 80.0);
    let threshold = f(gate.thresh_lin);
    let level = threshold * 1.0001;
    assert!(level * f(gate.env_release_coeff) < threshold);
    gate.gain = b(0.5);
    gate.process_sample(b(level));
    assert_eq!(f(gate.env), level);
    assert_eq!(f(gate.gain), 0.75);
    gate.process_sample(b(level));
    assert!(f(gate.env) < threshold);
    assert_eq!(f(gate.gain), 0.75 * f(gate.gain_release_coeff));
    gate.process_sample(b(level));
    assert_eq!(f(gate.env), level);
    assert!(f(gate.gain) > 0.75);
}
