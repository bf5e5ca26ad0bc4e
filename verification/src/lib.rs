//! A guitar amplifier signal chain with a stereo finishing stage: noise
//! gate, low cut, amp and cabinet per channel, then delay, width, limiter
//! and soft clip for the pair.
//!
//! Every sample, coefficient and control is an IEEE 754 binary32 number held
//! as its bit pattern ([`num::binary32::Binary32`]). Sums, differences,
//! products and quotients are computed on those bits, exact result rounded
//! once to nearest, ties to even, so that each stage's output is stated and
//! proved bit for bit.
//!
//! The library evaluates no exponential. Where a coefficient is `e^x`, a
//! function of the library gives `x` and another takes `e^x` from the
//! caller.

pub mod num;
pub mod params;
pub mod dsp;
pub mod engine;
