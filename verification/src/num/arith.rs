//! Multiplication, addition, subtraction and division, each the exact result
//! rounded once to the nearest binary32 number, ties to even.

use vstd::prelude::*;
use vstd::arithmetic::power2::{pow2, lemma_pow2_pos, lemma_pow2_adds, lemma2_to64, lemma2_to64_rest, lemma_pow2_strictly_increases};
use vstd::bits::lemma_u64_shl_is_mul;
use crate::num::rounding::{mag_value, round_mag, round_pack, bit_length, scaled_by, lemma_grid_round_fixed, lemma_rne_exact, INF_MAG};
use crate::num::binary32::{Binary32, make, negated, unpack, lemma_mag_value_increases, SIGN, NAN_BITS};

verus! {

/// The NaN that arithmetic produces.
pub open spec fn nan() -> Binary32 {
    Binary32 { bits: 0x7fc0_0000 }
}

/// The binary32 number nearest to `n / d` units, with the given sign.
pub open spec fn rounded(negative: bool, n: int, d: int) -> Binary32 {
    make(negative, round_mag(n, d))
}

/// `a * b`: NaN where either is NaN or a zero meets an infinity.
pub open spec fn product(a: Binary32, b: Binary32) -> Binary32 {
    let negative = a.negative() != b.negative();
    if a.is_nan() || b.is_nan() {
        nan()
    } else if a.is_infinite() || b.is_infinite() {
        if a.is_zero() || b.is_zero() {
            nan()
        } else {
            make(negative, 0x7f80_0000)
        }
    } else {
        rounded(negative, mag_value(a.mag()) * mag_value(b.mag()), pow2(149) as int)
    }
}

/// `a + b`: NaN where either is NaN or the two are opposite infinities. An
/// exact zero is negative only as the sum of two negative zeros.
pub open spec fn sum(a: Binary32, b: Binary32) -> Binary32 {
    if a.is_nan() || b.is_nan() {
        nan()
    } else if a.is_infinite() {
        if b.is_infinite() && a.negative() != b.negative() {
            nan()
        } else {
            a
        }
    } else if b.is_infinite() {
        b
    } else {
        let s = a.units() + b.units();
        if s == 0 {
            make(a.negative() && b.negative(), 0)
        } else if s < 0 {
            rounded(true, -s, 1)
        } else {
            rounded(false, s, 1)
        }
    }
}

/// `a - b`, which is `a + (-b)`.
pub open spec fn difference(a: Binary32, b: Binary32) -> Binary32 {
    sum(a, negated(b))
}

/// `a / b`: NaN where either is NaN, both are zero or both are infinite; a
/// number that is not zero, over zero, is an infinity.
pub open spec fn quotient(a: Binary32, b: Binary32) -> Binary32 {
    let negative = a.negative() != b.negative();
    if a.is_nan() || b.is_nan() {
        nan()
    } else if a.is_infinite() {
        if b.is_infinite() {
            nan()
        } else {
            make(negative, 0x7f80_0000)
        }
    } else if b.is_infinite() {
        make(negative, 0)
    } else if b.is_zero() {
        if a.is_zero() {
            nan()
        } else {
            make(negative, 0x7f80_0000)
        }
    } else {
        rounded(negative, mag_value(a.mag()) * pow2(149), mag_value(b.mag()))
    }
}

/// Puts a sign on magnitude bits.
fn with_sign(negative: bool, mag: u32) -> (r: Binary32)
    requires
        mag < 0x8000_0000,
    ensures
        r == make(negative, mag as int),
{
    if negative {
        Binary32 { bits: mag + SIGN }
    } else {
        Binary32 { bits: mag }
    }
}

/// The product of two unpacked magnitudes, as [`round_pack`] wants it.
proof fn lemma_product_scaled(m1: int, k1: int, m2: int, k2: int)
    requires
        0 <= k1 <= 253,
        0 <= k2 <= 253,
    ensures
        scaled_by(
            m1 * m2,
            k1 + k2 - 149,
            (m1 * pow2(k1 as nat)) * (m2 * pow2(k2 as nat)),
            pow2(149) as int,
            false,
        ),
{
    let pk1 = pow2(k1 as nat) as int;
    let pk2 = pow2(k2 as nat) as int;
    let po = pow2(1024) as int;
    let pd = pow2(149) as int;
    let pe = pow2((k1 + k2 - 149 + 1024) as nat) as int;
    lemma_pow2_adds((k1 + k2 - 149 + 1024) as nat, 149);
    lemma_pow2_adds(k1 as nat, k2 as nat);
    lemma_pow2_adds((k1 + k2) as nat, 1024);
    assert(pe * pd == (pk1 * pk2) * po);
    assert(((m1 * pk1) * (m2 * pk2)) * po == (m1 * m2) * (pe * pd)) by (nonlinear_arith)
        requires
            pe * pd == (pk1 * pk2) * po,
    ;
}

/// The sum or difference of two unpacked magnitudes whose exponents are
/// near enough for one word to hold it exactly.
proof fn lemma_sum_near(m1: int, k1: int, m2: int, k2: int, same: bool)
    requires
        0 <= k2 <= k1 <= 253,
        m1 >= 0,
        m2 >= 0,
    ensures
        pow2(k1 as nat) == pow2((k1 - k2) as nat) * pow2(k2 as nat),
        same ==> scaled_by(
            m1 * pow2((k1 - k2) as nat) + m2,
            k2,
            m1 * pow2(k1 as nat) + m2 * pow2(k2 as nat),
            1,
            false,
        ),
        !same ==> scaled_by(
            m1 * pow2((k1 - k2) as nat) - m2,
            k2,
            m1 * pow2(k1 as nat) - m2 * pow2(k2 as nat),
            1,
            false,
        ),
        m1 * pow2(k1 as nat) >= m2 * pow2(k2 as nat) ==> m1 * pow2((k1 - k2) as nat) >= m2,
{
    let pk1 = pow2(k1 as nat) as int;
    let pk2 = pow2(k2 as nat) as int;
    let pd = pow2((k1 - k2) as nat) as int;
    let po = pow2(1024) as int;
    let pe = pow2((k2 + 1024) as nat) as int;
    lemma_pow2_adds((k1 - k2) as nat, k2 as nat);
    lemma_pow2_adds(k2 as nat, 1024);
    lemma_pow2_pos(k2 as nat);
    assert((m1 * pk1 + m2 * pk2) * po == (m1 * pd + m2) * (pe * 1) && (m1 * pk1 - m2 * pk2) * po == (m1 * pd - m2) * (pe
        * 1)) by (nonlinear_arith)
        requires
            pk1 == pd * pk2,
            pe == pk2 * po,
    ;
    assert(m1 * pk1 >= m2 * pk2 ==> m1 * pd >= m2) by (nonlinear_arith)
        requires
            pk1 == pd * pk2,
            pk2 > 0,
    ;
}

/// The sum or difference of two unpacked magnitudes so far apart that the
/// smaller one only tips the rounding of the larger.
proof fn lemma_sum_far(m1: int, k1: int, m2: int, k2: int, same: bool)
    requires
        0 <= k2,
        k1 <= 253,
        k1 - k2 >= 39,
        m1 >= 0,
        0 < m2 < 0x100_0000,
    ensures
        same ==> scaled_by(8 * m1, k1 - 3, m1 * pow2(k1 as nat) + m2 * pow2(k2 as nat), 1, true),
        !same ==> scaled_by(8 * m1 - 1, k1 - 3, m1 * pow2(k1 as nat) - m2 * pow2(k2 as nat), 1, true),
{
    let pk1 = pow2(k1 as nat) as int;
    let pk2 = pow2(k2 as nat) as int;
    let u = pow2((k1 - 3) as nat) as int;
    let gap = pow2((k1 - 3 - k2) as nat) as int;
    let po = pow2(1024) as int;
    let pe = pow2((k1 - 3 + 1024) as nat) as int;
    let lo = m2 * pk2;
    lemma2_to64();
    lemma2_to64_rest();
    lemma_pow2_adds(3, (k1 - 3) as nat);
    lemma_pow2_adds((k1 - 3 - k2) as nat, k2 as nat);
    lemma_pow2_adds((k1 - 3) as nat, 1024);
    lemma_pow2_pos(k2 as nat);
    lemma_pow2_pos(1024);
    if k1 - 3 - k2 > 36 {
        lemma_pow2_strictly_increases(36, (k1 - 3 - k2) as nat);
    }
    assert(0 < lo < u) by (nonlinear_arith)
        requires
            lo == m2 * pk2,
            0 < m2 < 0x100_0000,
            pk2 > 0,
            u == gap * pk2,
            gap >= 0x10_0000_0000,
    ;
    assert((8 * m1) * (pe * 1) < (m1 * pk1 + lo) * po < (8 * m1 + 1) * (pe * 1) && (8 * m1 - 1) * (pe * 1) < (m1 * pk1
        - lo) * po < (8 * m1 - 1 + 1) * (pe * 1)) by (nonlinear_arith)
        requires
            pk1 == 8 * u,
            pe == u * po,
            0 < lo < u,
            po > 0,
    ;
}

/// The quotient of two unpacked magnitudes from a whole quotient and its
/// remainder.
proof fn lemma_quotient_scaled(m1: int, k1: int, m2: int, k2: int, z: int, q: int, rem: int)
    requires
        0 <= k1 <= 253,
        0 <= k2 <= 253,
        0 <= z <= 23,
        m1 * pow2((z + 39) as nat) == q * m2 + rem,
        0 <= rem < m2,
    ensures
        scaled_by(
            q,
            k1 - k2 - z + 110,
            (m1 * pow2(k1 as nat)) * pow2(149),
            m2 * pow2(k2 as nat),
            rem != 0,
        ),
{
    let pk1 = pow2(k1 as nat) as int;
    let pk2 = pow2(k2 as nat) as int;
    let pd = pow2(149) as int;
    let po = pow2(1024) as int;
    let pz = pow2((z + 39) as nat) as int;
    let t = pow2((k1 - k2 - z + 110 + 1024) as nat) as int;
    let c = pow2((k1 - z + 1134) as nat) as int;
    lemma_pow2_adds((k1 - k2 - z + 1134) as nat, k2 as nat);
    lemma_pow2_adds((k1 - z + 1134) as nat, (z + 39) as nat);
    lemma_pow2_adds(k1 as nat, 149);
    lemma_pow2_adds((k1 + 149) as nat, 1024);
    lemma_pow2_pos((k1 - z + 1134) as nat);
    assert(c == t * pk2);
    assert(c * pz == (pk1 * pd) * po);
    let wide = ((m1 * pk1) * pd) * po;
    let unit = t * (m2 * pk2);
    assert(wide == (q * m2 + rem) * c && unit == m2 * c) by (nonlinear_arith)
        requires
            wide == ((m1 * pk1) * pd) * po,
            unit == t * (m2 * pk2),
            c == t * pk2,
            c * pz == (pk1 * pd) * po,
            m1 * pz == q * m2 + rem,
    ;
    assert(q * unit <= wide < (q + 1) * unit && (rem != 0 ==> q * unit < wide) && (rem == 0 ==> wide == q * unit))
        by (nonlinear_arith)
        requires
            wide == (q * m2 + rem) * c,
            unit == m2 * c,
            0 <= rem < m2,
            c > 0,
    ;
}

impl Binary32 {
    /// `self / other`, rounded to nearest, ties to even.
    pub fn over(self, other: Self) -> (r: Self)
        ensures
            r == quotient(self, other),
    {
        let a: u32 = self.magnitude();
        let b: u32 = other.magnitude();
        let negative: bool = self.sign_bit() != other.sign_bit();
        if a > INF_MAG || b > INF_MAG {
            return Binary32 { bits: NAN_BITS };
        }
        if a == INF_MAG {
            if b == INF_MAG {
                return Binary32 { bits: NAN_BITS };
            }
            return with_sign(negative, INF_MAG);
        }
        if b == INF_MAG {
            return with_sign(negative, 0);
        }
        if b == 0 {
            if a == 0 {
                return Binary32 { bits: NAN_BITS };
            }
            return with_sign(negative, INF_MAG);
        }
        proof {
            lemma_mag_value_increases(0, b as int);
        }
        if a == 0 {
            proof {
                lemma_rne_exact(0, mag_value(b as int));
                assert(0 * mag_value(b as int) == 0 && 0 * pow2(149) == 0);
            }
            return with_sign(negative, 0);
        }
        let (m1, k1) = unpack(a);
        let (m2, k2) = unpack(b);
        let len: u64 = bit_length(m1);
        proof {
            lemma2_to64();
            lemma2_to64_rest();
            if len > 24 {
                if len - 1 > 24 {
                    lemma_pow2_strictly_increases(24, (len - 1) as nat);
                }
                assert(false);
            }
        }
        let z: u64 = 24 - len;
        proof {
            lemma_pow2_adds(len as nat, (z + 39) as nat);
            lemma_pow2_adds((len - 1) as nat, (z + 39) as nat);
            lemma_pow2_pos((z + 39) as nat);
            assert(0x4000_0000_0000_0000 <= m1 * pow2((z + 39) as nat) < 0x8000_0000_0000_0000) by (nonlinear_arith)
                requires
                    pow2((len - 1) as nat) <= m1 < pow2(len as nat),
                    pow2(len as nat) * pow2((z + 39) as nat) == 0x8000_0000_0000_0000,
                    pow2((len - 1) as nat) * pow2((z + 39) as nat) == 0x4000_0000_0000_0000,
                    pow2((z + 39) as nat) > 0,
            ;
            lemma_u64_shl_is_mul(m1, (z + 39) as u64);
        }
        let x: u64 = m1 << (z + 39);
        let q: u64 = x / m2;
        let rem: u64 = x % m2;
        proof {
            vstd::arithmetic::div_mod::lemma_fundamental_div_mod(x as int, m2 as int);
            assert(q >= 0x100_0000) by (nonlinear_arith)
                requires
                    x == m2 * q + rem,
                    x >= 0x4000_0000_0000_0000,
                    0 <= rem < m2,
                    0 < m2 < 0x100_0000,
            ;
            assert(q * m2 == m2 * q) by (nonlinear_arith);
            lemma_quotient_scaled(m1 as int, k1 as int, m2 as int, k2 as int, z as int, q as int, rem as int);
            lemma_pow2_pos(149);
            lemma_pow2_pos(k1 as nat);
            assert(mag_value(a as int) * pow2(149) >= 0) by (nonlinear_arith)
                requires
                    mag_value(a as int) >= 0,
                    pow2(149) > 0,
            ;
        }
        let bits: u32 = round_pack(
            q,
            k1 - k2 - (z as i64) + 110,
            rem != 0,
            Ghost(mag_value(a as int) * pow2(149)),
            Ghost(mag_value(b as int)),
        );
        with_sign(negative, bits)
    }

    /// `self + other`, rounded to nearest, ties to even.
    pub fn plus(self, other: Self) -> (r: Self)
        ensures
            r == sum(self, other),
    {
        let a: u32 = self.magnitude();
        let b: u32 = other.magnitude();
        if a > INF_MAG || b > INF_MAG {
            return Binary32 { bits: NAN_BITS };
        }
        let same: bool = self.sign_bit() == other.sign_bit();
        if a == INF_MAG {
            if b == INF_MAG && !same {
                return Binary32 { bits: NAN_BITS };
            }
            return self;
        }
        if b == INF_MAG {
            return other;
        }
        if !same && a == b {
            return Binary32 { bits: 0 };
        }
        let hi: u32 = if a >= b {
            a
        } else {
            b
        };
        let lo: u32 = if a >= b {
            b
        } else {
            a
        };
        let negative: bool = if a >= b {
            self.sign_bit()
        } else {
            other.sign_bit()
        };
        proof {
            if lo < hi {
                lemma_mag_value_increases(lo as int, hi as int);
            }
            if 0 < lo {
                lemma_mag_value_increases(0, lo as int);
            }
            lemma_grid_round_fixed(hi as int);
        }
        if lo == 0 {
            return with_sign(negative, hi);
        }
        let (m1, k1) = unpack(hi);
        let (m2, k2) = unpack(lo);
        let dd: i64 = k1 - k2;
        let ghost total: int = if same {
            mag_value(hi as int) + mag_value(lo as int)
        } else {
            mag_value(hi as int) - mag_value(lo as int)
        };
        let bits: u32;
        if dd <= 38 {
            proof {
                lemma_sum_near(m1 as int, k1 as int, m2 as int, k2 as int, same);
                lemma2_to64();
                lemma2_to64_rest();
                if dd < 38 {
                    lemma_pow2_strictly_increases(dd as nat, 38);
                }
                assert(m1 * pow2(dd as nat) < 0x4000_0000_0000_0000) by (nonlinear_arith)
                    requires
                        m1 < 0x100_0000,
                        pow2(dd as nat) <= 0x40_0000_0000,
                ;
                lemma_u64_shl_is_mul(m1, dd as u64);
            }
            let base: u64 = m1 << (dd as u64);
            let p: u64 = if same {
                base + m2
            } else {
                base - m2
            };
            bits = round_pack(p, k2, false, Ghost(total), Ghost(1));
        } else {
            proof {
                lemma_sum_far(m1 as int, k1 as int, m2 as int, k2 as int, same);
            }
            let p: u64 = if same {
                8 * m1
            } else {
                8 * m1 - 1
            };
            bits = round_pack(p, k1 - 3, true, Ghost(total), Ghost(1));
        }
        with_sign(negative, bits)
    }

    /// `self - other`, rounded to nearest, ties to even.
    pub fn minus(self, other: Self) -> (r: Self)
        ensures
            r == difference(self, other),
    {
        self.plus(other.neg())
    }

    /// `self * other`, rounded to nearest, ties to even.
    pub fn times(self, other: Self) -> (r: Self)
        ensures
            r == product(self, other),
    {
        let a: u32 = self.magnitude();
        let b: u32 = other.magnitude();
        let negative: bool = self.sign_bit() != other.sign_bit();
        if a > INF_MAG || b > INF_MAG {
            return Binary32 { bits: NAN_BITS };
        }
        if a == INF_MAG || b == INF_MAG {
            if a == 0 || b == 0 {
                return Binary32 { bits: NAN_BITS };
            }
            return with_sign(negative, INF_MAG);
        }
        let (m1, k1) = unpack(a);
        let (m2, k2) = unpack(b);
        proof {
            assert(m1 * m2 < 0x1_0000_0000_0000) by (nonlinear_arith)
                requires
                    m1 < 0x100_0000,
                    m2 < 0x100_0000,
            ;
            lemma_product_scaled(m1 as int, k1 as int, m2 as int, k2 as int);
            lemma_pow2_pos(149);
            lemma_pow2_pos(k1 as nat);
            lemma_pow2_pos(k2 as nat);
            assert((m1 * pow2(k1 as nat)) * (m2 * pow2(k2 as nat)) >= 0) by (nonlinear_arith)
                requires
                    m1 >= 0,
                    m2 >= 0,
                    pow2(k1 as nat) > 0,
                    pow2(k2 as nat) > 0,
            ;
        }
        let p: u64 = m1 * m2;
        let e: i64 = k1 + k2 - 149;
        let bits: u32 = round_pack(
            p,
            e,
            false,
            Ghost(mag_value(a as int) * mag_value(b as int)),
            Ghost(pow2(149) as int),
        );
        with_sign(negative, bits)
    }
}

} // verus!
