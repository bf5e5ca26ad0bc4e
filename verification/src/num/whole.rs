//! The whole part of a number, as a count.

use vstd::prelude::*;
use vstd::arithmetic::power2::{pow2, lemma_pow2_pos, lemma_pow2_adds, lemma2_to64, lemma2_to64_rest, lemma_pow2_strictly_increases};
use vstd::arithmetic::div_mod::{lemma_div_by_multiple, lemma_div_multiples_vanish_quotient, lemma_basic_div, lemma_div_is_ordered};
use vstd::bits::{lemma_u64_shr_is_div, lemma_u64_shl_is_mul};
use crate::num::rounding::{mag_value, INF_MAG};
use crate::num::binary32::{Binary32, unpack, lemma_mag_value_increases};
use crate::num::laws::lemma_landmarks;

verus! {

/// Bits of 1.
pub const ONE_BITS: u32 = 0x3f80_0000;

/// Bits of 2^64.
pub const TWO_64_BITS: u32 = 0x5f80_0000;

/// The number cut down to a whole count: 0 for NaN and for anything with the
/// sign set, the largest count for what lies beyond it.
pub open spec fn whole_part(a: Binary32) -> int {
    if a.is_nan() || a.negative() {
        0
    } else {
        let w = mag_value(a.mag()) / (pow2(149) as int);
        if w > usize::MAX {
            usize::MAX as int
        } else {
            w
        }
    }
}

impl Binary32 {
    /// The whole part as a count, toward zero and saturating.
    pub fn to_usize(self) -> (r: usize)
        ensures
            r as int == whole_part(self),
    {
        let a: u32 = self.magnitude();
        if a > INF_MAG || self.sign_bit() {
            return 0;
        }
        proof {
            lemma_landmarks();
            lemma_pow2_pos(149);
            lemma2_to64();
        }
        if a < ONE_BITS {
            proof {
                lemma_mag_value_increases(a as int, 0x3f80_0000);
                lemma_basic_div(mag_value(a as int), pow2(149) as int);
            }
            return 0;
        }
        if a >= TWO_64_BITS {
            proof {
                if a > TWO_64_BITS {
                    lemma_mag_value_increases(0x5f80_0000, a as int);
                }
                lemma_div_by_multiple(pow2(64) as int, pow2(149) as int);
                lemma_div_is_ordered(mag_value(0x5f80_0000), mag_value(a as int), pow2(149) as int);
            }
            return usize::MAX;
        }
        let (m, k) = unpack(a);
        let v: u64;
        if k >= 149 {
            proof {
                lemma2_to64_rest();
                if k - 149 < 40 {
                    lemma_pow2_strictly_increases((k - 149) as nat, 40);
                }
                assert(m * pow2((k - 149) as nat) < 0x1_0000_0000_0000_0000) by (nonlinear_arith)
                    requires
                        m < 0x100_0000,
                        pow2((k - 149) as nat) <= 0x100_0000_0000,
                ;
                lemma_u64_shl_is_mul(m, (k - 149) as u64);
                lemma_pow2_adds((k - 149) as nat, 149);
                assert(m * pow2(k as nat) == (m * pow2((k - 149) as nat)) * pow2(149)) by (nonlinear_arith)
                    requires
                        pow2(k as nat) == pow2((k - 149) as nat) * pow2(149),
                ;
                lemma_div_by_multiple(m * pow2((k - 149) as nat), pow2(149) as int);
            }
            v = m << ((k - 149) as u64);
        } else {
            proof {
                lemma_u64_shr_is_div(m, (149 - k) as u64);
                lemma_pow2_adds(k as nat, (149 - k) as nat);
                lemma_pow2_pos(k as nat);
                lemma_pow2_pos((149 - k) as nat);
                lemma_div_multiples_vanish_quotient(pow2(k as nat) as int, m as int, pow2((149 - k) as nat) as int);
                assert(pow2(k as nat) * m == m * pow2(k as nat)) by (nonlinear_arith);
            }
            v = m >> ((149 - k) as u64);
        }
        if v > usize::MAX as u64 {
            usize::MAX
        } else {
            v as usize
        }
    }
}

} // verus!
