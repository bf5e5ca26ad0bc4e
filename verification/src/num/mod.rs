//! Binary32 arithmetic on bit patterns.

pub mod rounding;
pub mod binary32;
pub mod arith;
pub mod laws;
pub mod whole;
