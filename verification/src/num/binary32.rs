//! The binary32 number type: a bit pattern with its reading as a number.

use vstd::prelude::*;
use vstd::arithmetic::power2::{pow2, lemma_pow2_pos, lemma_pow2_strictly_increases, lemma2_to64};
use crate::num::rounding::{mag_value, HIDDEN, INF_MAG};

verus! {

/// Bit that carries the sign.
pub const SIGN: u32 = 0x8000_0000;

/// Bits of the one NaN that arithmetic produces.
pub const NAN_BITS: u32 = 0x7fc0_0000;

/// An IEEE 754 binary32 number, held as its 32 bits: sign, 8 bits of
/// exponent, 23 bits of fraction.
#[derive(Clone, Copy, Debug, PartialEq, Eq, Structural)]
pub struct Binary32 {
    pub bits: u32,
}

impl Binary32 {
    /// The sign bit is set (also on a zero, an infinity or a NaN).
    pub open spec fn negative(self) -> bool {
        self.bits >= 0x8000_0000
    }

    /// The bits without the sign.
    pub open spec fn mag(self) -> int {
        if self.bits >= 0x8000_0000 {
            self.bits - 0x8000_0000
        } else {
            self.bits as int
        }
    }

    /// Not a number: an exponent of all ones with a fraction that is not zero.
    pub open spec fn spec_is_nan(self) -> bool {
        self.mag() > 0x7f80_0000
    }

    /// An infinity: an exponent of all ones with a fraction of zero.
    pub open spec fn is_infinite(self) -> bool {
        self.mag() == 0x7f80_0000
    }

    /// Neither NaN nor an infinity.
    pub open spec fn is_finite(self) -> bool {
        self.mag() < 0x7f80_0000
    }

    /// One of the two zeros.
    pub open spec fn is_zero(self) -> bool {
        self.mag() == 0
    }

    /// The number itself, in units of 2^-149, where the number is finite.
    pub open spec fn units(self) -> int {
        if self.negative() {
            -mag_value(self.mag())
        } else {
            mag_value(self.mag())
        }
    }

    /// Place of the number among all binary32 numbers in ascending order;
    /// the two zeros share place 0. NaN has no place.
    pub open spec fn rank(self) -> int {
        if self.negative() {
            -self.mag()
        } else {
            self.mag()
        }
    }

    /// The number with the given bits.
    pub fn from_bits(bits: u32) -> (r: Self)
        ensures
            r == of_bits(bits),
    {
        Binary32 { bits }
    }

    /// The 32 bits of the number.
    pub fn to_bits(self) -> (r: u32)
        ensures
            r == self.bits,
    {
        self.bits
    }

    /// Whether the sign bit is set.
    pub fn sign_bit(self) -> (r: bool)
        ensures
            r == self.negative(),
    {
        self.bits >= SIGN
    }

    /// The bits without the sign.
    pub fn magnitude(self) -> (r: u32)
        ensures
            r as int == self.mag(),
            r < 0x8000_0000,
    {
        if self.bits >= SIGN {
            self.bits - SIGN
        } else {
            self.bits
        }
    }

    /// Whether the number is NaN.
    #[verifier::when_used_as_spec(spec_is_nan)]
    pub fn is_nan(self) -> (r: bool)
        ensures
            r == self.spec_is_nan(),
    {
        self.magnitude() > INF_MAG
    }

    /// The number without its sign.
    pub fn abs(self) -> (r: Self)
        ensures
            r == absolute(self),
    {
        Binary32 { bits: self.magnitude() }
    }

    /// The number with its sign changed.
    pub fn neg(self) -> (r: Self)
        ensures
            r == negated(self),
    {
        if self.bits >= SIGN {
            Binary32 { bits: self.bits - SIGN }
        } else {
            Binary32 { bits: self.bits + SIGN }
        }
    }

    /// `self < other` as numbers; false where either is NaN.
    pub fn lt(self, other: Self) -> (r: bool)
        ensures
            r == below(self, other),
    {
        let a: u32 = self.magnitude();
        let b: u32 = other.magnitude();
        if a > INF_MAG || b > INF_MAG {
            false
        } else if self.bits >= SIGN {
            if other.bits >= SIGN {
                b < a
            } else {
                a != 0 || b != 0
            }
        } else {
            if other.bits >= SIGN {
                false
            } else {
                a < b
            }
        }
    }

    /// `self > other` as numbers; false where either is NaN.
    pub fn gt(self, other: Self) -> (r: bool)
        ensures
            r == below(other, self),
    {
        other.lt(self)
    }

    /// `self <= other` as numbers; false where either is NaN.
    pub fn le(self, other: Self) -> (r: bool)
        ensures
            r == at_most(self, other),
    {
        let a: u32 = self.magnitude();
        let b: u32 = other.magnitude();
        if a > INF_MAG || b > INF_MAG {
            false
        } else if self.bits >= SIGN {
            if other.bits >= SIGN {
                b <= a
            } else {
                true
            }
        } else {
            if other.bits >= SIGN {
                a == 0 && b == 0
            } else {
                a <= b
            }
        }
    }

    /// The larger of two numbers; the other one where one is NaN.
    pub fn max(self, other: Self) -> (r: Self)
        ensures
            r == larger(self, other),
    {
        if self.is_nan() {
            other
        } else if other.is_nan() {
            self
        } else if self.lt(other) {
            other
        } else {
            self
        }
    }

    /// The smaller of two numbers; the other one where one is NaN.
    pub fn min(self, other: Self) -> (r: Self)
        ensures
            r == smaller(self, other),
    {
        if self.is_nan() {
            other
        } else if other.is_nan() {
            self
        } else if other.lt(self) {
            other
        } else {
            self
        }
    }

    /// The number held between `lo` and `hi`; NaN stays NaN.
    pub fn clamp(self, lo: Self, hi: Self) -> (r: Self)
        requires
            at_most(lo, hi),
        ensures
            r == clamped(self, lo, hi),
    {
        if self.lt(lo) {
            lo
        } else if hi.lt(self) {
            hi
        } else {
            self
        }
    }
}

/// The number with the given bits.
pub open spec fn of_bits(bits: u32) -> Binary32 {
    Binary32 { bits }
}

/// The number with the given sign and magnitude bits.
pub open spec fn make(negative: bool, mag: int) -> Binary32 {
    Binary32 {
        bits: (if negative {
            mag + 0x8000_0000
        } else {
            mag
        }) as u32,
    }
}

pub open spec fn absolute(a: Binary32) -> Binary32 {
    make(false, a.mag())
}

pub open spec fn negated(a: Binary32) -> Binary32 {
    make(!a.negative(), a.mag())
}

/// `a < b` as numbers: neither is NaN and `a` comes first.
pub open spec fn below(a: Binary32, b: Binary32) -> bool {
    !a.is_nan() && !b.is_nan() && a.rank() < b.rank()
}

/// `a <= b` as numbers: neither is NaN and `b` does not come first.
pub open spec fn at_most(a: Binary32, b: Binary32) -> bool {
    !a.is_nan() && !b.is_nan() && a.rank() <= b.rank()
}

/// Of two equal numbers (the two zeros) `a` is the larger.
pub open spec fn larger(a: Binary32, b: Binary32) -> Binary32 {
    if a.is_nan() {
        b
    } else if b.is_nan() {
        a
    } else if below(a, b) {
        b
    } else {
        a
    }
}

/// Of two equal numbers (the two zeros) `a` is the smaller.
pub open spec fn smaller(a: Binary32, b: Binary32) -> Binary32 {
    if a.is_nan() {
        b
    } else if b.is_nan() {
        a
    } else if below(b, a) {
        b
    } else {
        a
    }
}

pub open spec fn clamped(a: Binary32, lo: Binary32, hi: Binary32) -> Binary32 {
    if below(a, lo) {
        lo
    } else if below(hi, a) {
        hi
    } else {
        a
    }
}

/// Splits finite magnitude bits into a significand and a power of two whose
/// product is the magnitude in units.
pub(crate) fn unpack(mag: u32) -> (r: (u64, i64))
    requires
        mag < 0x7f80_0000,
    ensures
        r.0 * pow2(r.1 as nat) == mag_value(mag as int),
        0 <= r.1 <= 253,
        r.0 < 0x100_0000,
        mag >= 0x80_0000 <==> r.0 >= 0x80_0000,
        r.1 > 0 ==> r.0 >= 0x80_0000,
        r.0 == 0 <==> mag == 0,
        r.1 == (if mag < 0x100_0000 { 0 } else { mag / 0x80_0000 - 1 }),
{
    let e: u32 = mag / HIDDEN;
    let f: u32 = mag % HIDDEN;
    if e == 0 {
        proof {
            lemma2_to64();
            assert(f * pow2(0) == f) by (nonlinear_arith)
                requires
                    pow2(0) == 1,
            ;
        }
        (f as u64, 0)
    } else {
        ((f + HIDDEN) as u64, (e - 1) as i64)
    }
}

/// Larger magnitude bits stand for a larger magnitude.
pub proof fn lemma_mag_value_increases(m1: int, m2: int)
    requires
        0 <= m1 < m2 <= 0x7f80_0000,
    ensures
        0 <= mag_value(m1) < mag_value(m2),
{
    let e1 = m1 / 0x80_0000;
    let e2 = m2 / 0x80_0000;
    let f1 = m1 % 0x80_0000;
    let f2 = m2 % 0x80_0000;
    lemma2_to64();
    if e2 == 0 {
    } else {
        let k2 = (e2 - 1) as nat;
        lemma_pow2_pos(k2);
        if e1 == 0 {
            assert((0x80_0000 + f2) * pow2(k2) >= 0x80_0000) by (nonlinear_arith)
                requires
                    f2 >= 0,
                    pow2(k2) >= 1,
            ;
        } else {
            let k1 = (e1 - 1) as nat;
            lemma_pow2_pos(k1);
            if e1 == e2 {
                assert((0x80_0000 + f1) * pow2(k1) < (0x80_0000 + f2) * pow2(k1) && (0x80_0000 + f1) * pow2(k1)
                    >= 0) by (nonlinear_arith)
                    requires
                        0 <= f1 < f2,
                        pow2(k1) >= 1,
                ;
            } else {
                vstd::arithmetic::power2::lemma_pow2_unfold((k1 + 1) as nat);
                if k1 + 1 < k2 {
                    lemma_pow2_strictly_increases((k1 + 1) as nat, k2);
                }
                assert((0x80_0000 + f1) * pow2(k1) < (0x80_0000 + f2) * pow2(k2) && (0x80_0000 + f1) * pow2(k1)
                    >= 0) by (nonlinear_arith)
                    requires
                        0 <= f1 < 0x80_0000,
                        0 <= f2,
                        pow2(k1) >= 1,
                        2 * pow2(k1) <= pow2(k2),
                ;
            }
        }
    }
}

/// Among numbers that are not NaN, the order of ranks is the order of the
/// numbers themselves.
pub proof fn lemma_rank_is_order(a: Binary32, b: Binary32)
    requires
        !a.is_nan(),
        !b.is_nan(),
    ensures
        a.rank() < b.rank() <==> a.units() < b.units(),
        a.rank() == b.rank() <==> a.units() == b.units(),
{
    let ma = a.mag();
    let mb = b.mag();
    if ma < mb {
        lemma_mag_value_increases(ma, mb);
    }
    if mb < ma {
        lemma_mag_value_increases(mb, ma);
    }
    if 0 < ma {
        lemma_mag_value_increases(0, ma);
    }
    if 0 < mb {
        lemma_mag_value_increases(0, mb);
    }
}

} // verus!
