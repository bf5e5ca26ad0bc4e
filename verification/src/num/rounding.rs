//! Rounding of exact rationals to the binary32 grid.
//!
//! Magnitudes are measured in units of 2^-149, the smallest positive binary32
//! number, so that every finite binary32 magnitude is a whole number of units.
//! The magnitude bits of a binary32 number (its bit pattern without the sign)
//! grow with the magnitude they stand for, and the bits of infinity follow
//! those of the largest finite number; rounding is stated directly on bits.

use vstd::prelude::*;
use vstd::arithmetic::power2::{pow2, lemma_pow2_pos, lemma_pow2_adds, lemma_pow2_unfold, lemma2_to64, lemma2_to64_rest, lemma_pow2_strictly_increases};
use vstd::std_specs::bits::u64_leading_zeros;
use vstd::bits::{lemma_u64_shr_is_div, lemma_u64_shl_is_mul};
use vstd::arithmetic::div_mod::lemma_fundamental_div_mod_converse;

verus! {

/// Number of values a 23-bit fraction field can hold: the first normal magnitude.
pub const HIDDEN: u32 = 0x80_0000;

/// Magnitude bits of infinity.
pub const INF_MAG: u32 = 0x7f80_0000;

/// The integer nearest to `n / d`, the even one of two equally near.
pub open spec fn rne(n: int, d: int) -> int {
    let q = n / d;
    let r = n % d;
    if 2 * r < d {
        q
    } else if 2 * r > d {
        q + 1
    } else if q % 2 == 0 {
        q
    } else {
        q + 1
    }
}

/// Magnitude bits of the binary32 number nearest to `n / d` units, ties to
/// even, before the clamp at infinity: each doubling of the magnitude beyond
/// 2^24 units moves one step up in the exponent field.
pub open spec fn grid_round(n: int, d: int) -> int
    decreases n - d,
{
    if d <= 0 || n < 0x100_0000 * d {
        rne(n, d)
    } else {
        0x80_0000 + grid_round(n, 2 * d)
    }
}

/// Magnitude bits of `n / d` units rounded to binary32, overflowing to infinity.
pub open spec fn round_mag(n: int, d: int) -> int {
    let g = grid_round(n, d);
    if g >= 0x7f80_0000 {
        0x7f80_0000
    } else {
        g
    }
}

/// The number of units that magnitude bits `m` stand for. The bits of
/// infinity stand for 2^277, one step beyond the largest finite magnitude.
pub open spec fn mag_value(m: int) -> int {
    if m < 0x80_0000 {
        m
    } else {
        (0x80_0000 + m % 0x80_0000) * pow2((m / 0x80_0000 - 1) as nat)
    }
}

/// Rounding read off any quotient and remainder of the division.
pub proof fn lemma_rne_parts(n: int, d: int, q: int, r: int)
    requires
        d > 0,
        0 <= r < d,
        n == q * d + r,
    ensures
        rne(n, d) == (if 2 * r < d {
            q
        } else if 2 * r > d {
            q + 1
        } else if q % 2 == 0 {
            q
        } else {
            q + 1
        }),
{
    lemma_fundamental_div_mod_converse(n, d, q, r);
}

/// A whole multiple of the divisor rounds to the multiplier.
pub proof fn lemma_rne_exact(a: int, d: int)
    requires
        d > 0,
    ensures
        rne(a * d, d) == a,
{
    lemma_rne_parts(a * d, d, a, 0);
}

/// Rounding depends on the ratio alone.
pub proof fn lemma_rne_scale(n: int, d: int, c: int)
    requires
        d > 0,
        c > 0,
    ensures
        rne(n * c, d * c) == rne(n, d),
{
    let q = n / d;
    let r = n % d;
    vstd::arithmetic::div_mod::lemma_fundamental_div_mod(n, d);
    assert(0 <= r < d) by {
        vstd::arithmetic::div_mod::lemma_mod_bound(n, d);
    }
    assert(n * c == q * (d * c) + r * c && 0 <= r * c < d * c && d * c > 0 && ((2 * (r * c) < d * c) <==> (2 * r
        < d)) && ((2 * (r * c) > d * c) <==> (2 * r > d))) by (nonlinear_arith)
        requires
            n == d * q + r,
            0 <= r < d,
            c > 0,
    ;
    lemma_rne_parts(n * c, d * c, q, r * c);
}

/// A ratio between two whole numbers rounds to a whole number between them.
pub proof fn lemma_rne_between(n: int, d: int, lo: int, hi: int)
    requires
        d > 0,
        lo * d <= n <= hi * d,
    ensures
        lo <= rne(n, d) <= hi,
{
    let q = n / d;
    let r = n % d;
    vstd::arithmetic::div_mod::lemma_fundamental_div_mod(n, d);
    vstd::arithmetic::div_mod::lemma_mod_bound(n, d);
    assert(lo <= q && (r == 0 ==> q <= hi) && (r > 0 ==> q + 1 <= hi)) by (nonlinear_arith)
        requires
            n == d * q + r,
            0 <= r < d,
            lo * d <= n <= hi * d,
    ;
}

/// Rounding keeps the order of numerators over one divisor.
pub proof fn lemma_rne_monotone(n1: int, n2: int, d: int)
    requires
        d > 0,
        n1 <= n2,
    ensures
        rne(n1, d) <= rne(n2, d),
{
    let q1 = n1 / d;
    let r1 = n1 % d;
    let q2 = n2 / d;
    let r2 = n2 % d;
    vstd::arithmetic::div_mod::lemma_fundamental_div_mod(n1, d);
    vstd::arithmetic::div_mod::lemma_mod_bound(n1, d);
    vstd::arithmetic::div_mod::lemma_fundamental_div_mod(n2, d);
    vstd::arithmetic::div_mod::lemma_mod_bound(n2, d);
    assert(q1 <= q2 && (q1 == q2 ==> r1 <= r2)) by (nonlinear_arith)
        requires
            n1 == d * q1 + r1,
            n2 == d * q2 + r2,
            0 <= r1 < d,
            0 <= r2 < d,
            n1 <= n2,
    ;
}

/// A ratio that is not negative rounds to bits that are not negative.
pub proof fn lemma_grid_round_nonnegative(n: int, d: int)
    requires
        d > 0,
        n >= 0,
    ensures
        grid_round(n, d) >= 0,
    decreases n - d,
{
    if n < 0x100_0000 * d {
        assert(n <= n * d) by (nonlinear_arith)
            requires
                n >= 0,
                d > 0,
        ;
        lemma_rne_between(n, d, 0, n);
    } else {
        lemma_grid_round_nonnegative(n, 2 * d);
    }
}

/// Rounding to the grid depends on the ratio alone.
pub proof fn lemma_grid_round_scale(n: int, d: int, c: int)
    requires
        d > 0,
        c > 0,
        n >= 0,
    ensures
        grid_round(n * c, d * c) == grid_round(n, d),
    decreases n - d,
{
    assert(d * c > 0 && ((n * c < 0x100_0000 * (d * c)) <==> (n < 0x100_0000 * d)) && 2 * (d * c) == (2 * d)
        * c) by (nonlinear_arith)
        requires
            d > 0,
            c > 0,
    ;
    if n < 0x100_0000 * d {
        lemma_rne_scale(n, d, c);
    } else {
        lemma_grid_round_scale(n, 2 * d, c);
        assert(n * c - d * c >= 0) by (nonlinear_arith)
            requires
                n >= d,
                c > 0,
        ;
    }
}

/// A ratio that has reached the binade `k` steps above the first rounds to
/// at least that binade's first bits.
pub proof fn lemma_grid_round_lower(n: int, d: int, k: nat, big: int)
    requires
        d > 0,
        big == d * pow2(k),
        n >= 0x80_0000 * big,
    ensures
        grid_round(n, d) >= (k + 1) * 0x80_0000,
    decreases k,
{
    lemma_pow2_pos(k);
    assert(big >= d) by (nonlinear_arith)
        requires
            big == d * pow2(k),
            pow2(k) > 0,
            d > 0,
    ;
    if k == 0 {
        lemma2_to64();
        assert(big == d) by (nonlinear_arith)
            requires
                big == d * pow2(k),
                pow2(k) == 1,
        ;
        if n < 0x100_0000 * d {
            assert(n <= n * d) by (nonlinear_arith)
                requires
                    n >= 0,
                    d > 0,
            ;
            lemma_rne_between(n, d, 0x80_0000, n);
        } else {
            lemma_grid_round_nonnegative(n, 2 * d);
        }
    } else {
        lemma_pow2_unfold(k);
        lemma_pow2_pos((k - 1) as nat);
        assert(big == (2 * d) * pow2((k - 1) as nat) && big >= 2 * d) by (nonlinear_arith)
            requires
                big == d * pow2(k),
                pow2(k) == 2 * pow2((k - 1) as nat),
                pow2((k - 1) as nat) > 0,
                d > 0,
        ;
        lemma_grid_round_lower(n, 2 * d, (k - 1) as nat, big);
    }
}

/// Within one binade the grid is uniform: a ratio in binade `k` rounds to
/// that binade's exponent and the ratio over `2^k`, rounded to a whole number.
pub proof fn lemma_grid_round_binade(n: int, d: int, k: nat, big: int)
    requires
        d > 0,
        n >= 0,
        big == d * pow2(k),
        n < 0x100_0000 * big,
        k >= 1 ==> n >= 0x80_0000 * big,
    ensures
        grid_round(n, d) == k * 0x80_0000 + rne(n, big),
    decreases k,
{
    lemma_pow2_pos(k);
    if k == 0 {
        lemma2_to64();
        assert(big == d) by (nonlinear_arith)
            requires
                big == d * pow2(k),
                pow2(k) == 1,
        ;
    } else {
        lemma_pow2_unfold(k);
        lemma_pow2_pos((k - 1) as nat);
        assert(big == (2 * d) * pow2((k - 1) as nat) && big >= 2 * d) by (nonlinear_arith)
            requires
                big == d * pow2(k),
                pow2(k) == 2 * pow2((k - 1) as nat),
                pow2((k - 1) as nat) > 0,
                d > 0,
        ;
        lemma_grid_round_binade(n, 2 * d, (k - 1) as nat, big);
    }
}

/// Rounding to the grid keeps the order of numerators over one divisor.
pub proof fn lemma_grid_round_monotone(n1: int, n2: int, d: int)
    requires
        d > 0,
        0 <= n1 <= n2,
    ensures
        grid_round(n1, d) <= grid_round(n2, d),
    decreases n2 - d,
{
    if n2 < 0x100_0000 * d {
        lemma_rne_monotone(n1, n2, d);
    } else if n1 < 0x100_0000 * d {
        lemma_rne_between(n1, d, 0, 0x100_0000);
        lemma2_to64();
        assert(2 * d == (2 * d) * pow2(0)) by (nonlinear_arith)
            requires
                pow2(0) == 1,
        ;
        lemma_grid_round_lower(n2, 2 * d, 0, 2 * d);
    } else {
        lemma_grid_round_monotone(n1, n2, 2 * d);
    }
}

/// Every magnitude on the grid rounds to itself.
pub proof fn lemma_grid_round_fixed(m: int)
    requires
        0 <= m <= 0x7f80_0000,
    ensures
        grid_round(mag_value(m), 1) == m,
        round_mag(mag_value(m), 1) == m,
{
    if m < 0x80_0000 {
        lemma_rne_exact(m, 1);
    } else {
        let k = (m / 0x80_0000 - 1) as nat;
        let mant = 0x80_0000 + m % 0x80_0000;
        let big = pow2(k) as int;
        lemma_pow2_pos(k);
        assert(mant * big < 0x100_0000 * big && mant * big >= 0x80_0000 * big && big == 1 * big) by (nonlinear_arith)
            requires
                0x80_0000 <= mant < 0x100_0000,
                big > 0,
        ;
        lemma_grid_round_binade(mant * big, 1, k, big);
        lemma_rne_exact(mant, big);
    }
}

/// The rounding decision once a quotient `m0` has been cut off with `rem`
/// left over, out of `2 * half`; `sticky` says that the exact value lies
/// strictly above what `m0` and `rem` account for, by less than one part.
pub open spec fn round_step(m0: int, rem: int, half: int, sticky: bool) -> int {
    if rem < half {
        m0
    } else if rem > half || sticky || m0 % 2 != 0 {
        m0 + 1
    } else {
        m0
    }
}

/// Rounding a numerator known to within one `unit` by its quotient and
/// remainder on division by `2 * half` units.
pub proof fn lemma_rne_shifted(n: int, unit: int, p: int, m0: int, rem: int, half: int, sticky: bool)
    requires
        unit > 0,
        half > 0,
        0 <= rem < 2 * half,
        p == m0 * (2 * half) + rem,
        p * unit <= n < (p + 1) * unit,
        sticky <==> n != p * unit,
    ensures
        rne(n, unit * (2 * half)) == round_step(m0, rem, half, sticky),
{
    let big = unit * (2 * half);
    let r = n - m0 * big;
    assert(p * unit == m0 * big + rem * unit && (p + 1) * unit == m0 * big + (rem + 1) * unit) by (nonlinear_arith)
        requires
            p == m0 * (2 * half) + rem,
            big == unit * (2 * half),
    ;
    assert(rem * unit >= 0 && (rem + 1) * unit <= big && big > 0) by (nonlinear_arith)
        requires
            0 <= rem < 2 * half,
            unit > 0,
            big == unit * (2 * half),
    ;
    assert((rem < half ==> 2 * ((rem + 1) * unit) <= big) && (rem > half ==> 2 * (rem * unit) > big) && (rem == half
        ==> 2 * (rem * unit) == big)) by (nonlinear_arith)
        requires
            unit > 0,
            big == unit * (2 * half),
    ;
    lemma_rne_parts(n, big, m0, r);
}

/// The exact value that `p`, `e` and `sticky` describe is `n / d` units:
/// `p * 2^e` when not sticky, strictly between that and `(p + 1) * 2^e` when
/// sticky. Both sides are multiplied by `2^1024` to keep every power whole.
pub open spec fn scaled_by(p: int, e: int, n: int, d: int, sticky: bool) -> bool {
    let unit = pow2((e + 1024) as nat) * d;
    let wide = n * pow2(1024);
    if sticky {
        p * unit < wide < (p + 1) * unit
    } else {
        wide == p * unit
    }
}

/// The leading zeros of a number place it between two powers of two.
proof fn lemma_leading_zeros(i: u64)
    requires
        i > 0,
    ensures
        0 <= u64_leading_zeros(i) < 64,
        pow2((63 - u64_leading_zeros(i)) as nat) <= i < pow2((64 - u64_leading_zeros(i)) as nat),
    decreases i,
{
    reveal(u64_leading_zeros);
    lemma2_to64();
    if i == 1 {
        assert(u64_leading_zeros(0) == 64);
        assert(1u64 / 2 == 0);
    } else {
        let j: u64 = i / 2;
        lemma_leading_zeros(j);
        let z = u64_leading_zeros(j);
        lemma_pow2_unfold((64 - z) as nat);
        lemma_pow2_unfold((65 - z) as nat);
    }
}

/// Number of bits of `p` up to and including its highest set bit.
pub(crate) fn bit_length(p: u64) -> (len: u64)
    requires
        p > 0,
    ensures
        1 <= len <= 64,
        pow2((len - 1) as nat) <= p < pow2(len as nat),
{
    proof {
        lemma_leading_zeros(p);
    }
    let z: u32 = p.leading_zeros();
    64 - (z as u64)
}

/// The bit length of `p` and the exponent `e` fix the binade, and with it
/// the rounding that is left to do: of the ratio over the binade's step.
proof fn lemma_pack_frame(p: int, e: int, sticky: bool, n: int, d: int, len: int, k: int)
    requires
        d > 0,
        n >= 0,
        p > 0,
        -1000 <= e <= 1000,
        1 <= len <= 64,
        pow2((len - 1) as nat) <= p < pow2(len as nat),
        scaled_by(p, e, n, d, sticky),
        k == if len + e > 24 {
            len + e - 24
        } else {
            0
        },
    ensures
        d * pow2((k + 1024) as nat) > 0,
        n * pow2(1024) < 0x100_0000 * (d * pow2((k + 1024) as nat)),
        k >= 1 ==> n * pow2(1024) >= 0x80_0000 * (d * pow2((k + 1024) as nat)),
        grid_round(n, d) == k * 0x80_0000 + rne(n * pow2(1024), d * pow2((k + 1024) as nat)),
{
    let off = pow2(1024) as int;
    let w = n * off;
    let pe = pow2((e + 1024) as nat) as int;
    let u = pe * d;
    let pk = pow2((k + 1024) as nat) as int;
    let big = d * pk;
    let pl = pow2(len as nat) as int;
    let pl1 = pow2((len - 1) as nat) as int;
    let top = len + e;
    let pt = pow2((top + 1024) as nat) as int;
    lemma_pow2_pos(1024);
    lemma_pow2_pos((e + 1024) as nat);
    lemma_pow2_pos((k + 1024) as nat);
    lemma_pow2_pos(k as nat);
    lemma2_to64();
    lemma_pow2_adds(len as nat, (e + 1024) as nat);
    assert(pl * pe == pt);
    if top + 1024 < 24 + k + 1024 {
        lemma_pow2_strictly_increases((top + 1024) as nat, (24 + k + 1024) as nat);
    }
    lemma_pow2_adds(24, (k + 1024) as nat);
    assert(pt <= 0x100_0000 * pk);
    assert((p + 1) * u == p * u + u && u > 0) by (nonlinear_arith)
        requires
            u == pe * d,
            pe > 0,
            d > 0,
    ;
    assert(p * u <= w < (p + 1) * u);
    assert(w < 0x100_0000 * big) by (nonlinear_arith)
        requires
            w < (p + 1) * u,
            u == pe * d,
            0 < p + 1 <= pl,
            pl * pe == pt,
            pt <= 0x100_0000 * pk,
            big == d * pk,
            d > 0,
            pe > 0,
    {
        assert((p + 1) * u <= pl * u);
        assert(pl * u == pt * d);
        assert(pt * d <= (0x100_0000 * pk) * d);
    }
    if k >= 1 {
        lemma_pow2_pos((len - 1) as nat);
        lemma_pow2_adds((len - 1) as nat, (e + 1024) as nat);
        lemma_pow2_adds(23, (k + 1024) as nat);
        assert(pl1 * pe == 0x80_0000 * pk);
        assert(w >= 0x80_0000 * big) by (nonlinear_arith)
            requires
                w >= p * u,
                u == pe * d,
                p >= pl1,
                pl1 > 0,
                pl1 * pe == 0x80_0000 * pk,
                big == d * pk,
                d > 0,
                pe > 0,
        {
            assert(p * u >= pl1 * u);
            assert(pl1 * u == (0x80_0000 * pk) * d);
        }
    }
    assert(big > 0) by (nonlinear_arith)
        requires
            big == d * pk,
            d > 0,
            pk > 0,
    ;
    lemma_grid_round_scale(n, d, off);
    lemma_pow2_adds(1024, k as nat);
    assert(big == (d * off) * pow2(k as nat)) by (nonlinear_arith)
        requires
            big == d * pk,
            pk == off * pow2(k as nat),
    ;
    assert(d * off > 0) by (nonlinear_arith)
        requires
            d > 0,
            off > 0,
    ;
    assert(w >= 0) by (nonlinear_arith)
        requires
            w == n * off,
            n >= 0,
            off > 0,
    ;
    lemma_grid_round_binade(w, d * off, k as nat, big);
}

/// Where the binade's step is no coarser than `2^e`, nothing is lost: the
/// ratio over the step is `p` shifted left.
proof fn lemma_pack_exact(p: int, e: int, n: int, d: int, k: int, t: int)
    requires
        d > 0,
        p > 0,
        -1000 <= e <= 1000,
        0 <= k <= 1024,
        t == e - k,
        t >= 0,
        scaled_by(p, e, n, d, false),
        n * pow2(1024) < 0x100_0000 * (d * pow2((k + 1024) as nat)),
    ensures
        t < 24,
        p * pow2(t as nat) < 0x100_0000,
        rne(n * pow2(1024), d * pow2((k + 1024) as nat)) == p * pow2(t as nat),
{
    let w = n * pow2(1024);
    let pe = pow2((e + 1024) as nat) as int;
    let pk = pow2((k + 1024) as nat) as int;
    let pt = pow2(t as nat) as int;
    let big = d * pk;
    lemma_pow2_pos((k + 1024) as nat);
    lemma_pow2_pos(t as nat);
    lemma_pow2_adds((k + 1024) as nat, t as nat);
    assert(pe == pk * pt);
    assert(w == (p * pt) * big && big > 0) by (nonlinear_arith)
        requires
            w == p * (pe * d),
            pe == pk * pt,
            big == d * pk,
            d > 0,
            pk > 0,
    ;
    assert(p * pt < 0x100_0000 && pt <= p * pt) by (nonlinear_arith)
        requires
            w == (p * pt) * big,
            w < 0x100_0000 * big,
            big > 0,
            p > 0,
            pt > 0,
    ;
    lemma2_to64();
    if t >= 24 {
        if t > 24 {
            lemma_pow2_strictly_increases(24, t as nat);
        }
        assert(false);
    }
    lemma_rne_exact(p * pt, big);
}

/// Where the binade's step is coarser than `2^e`, the ratio over the step
/// rounds as `p` shifted right does, by what the shift drops.
proof fn lemma_pack_shifted(p: int, e: int, sticky: bool, n: int, d: int, k: int, s: int, m0: int, rem: int)
    requires
        d > 0,
        n >= 0,
        p > 0,
        -1000 <= e <= 1000,
        0 <= k <= 1024,
        s == k - e,
        s >= 1,
        scaled_by(p, e, n, d, sticky),
        p == m0 * pow2(s as nat) + rem,
        0 <= rem < pow2(s as nat),
    ensures
        rne(n * pow2(1024), d * pow2((k + 1024) as nat)) == round_step(m0, rem, pow2((s - 1) as nat) as int, sticky),
{
    let w = n * pow2(1024);
    let pe = pow2((e + 1024) as nat) as int;
    let pk = pow2((k + 1024) as nat) as int;
    let ps = pow2(s as nat) as int;
    let half = pow2((s - 1) as nat) as int;
    let unit = pe * d;
    lemma_pow2_pos((e + 1024) as nat);
    lemma_pow2_pos((s - 1) as nat);
    lemma_pow2_unfold(s as nat);
    lemma_pow2_adds((e + 1024) as nat, s as nat);
    assert(pk == pe * ps);
    assert(unit > 0 && d * pk == unit * (2 * half) && (p + 1) * unit == p * unit + unit) by (nonlinear_arith)
        requires
            unit == pe * d,
            pk == pe * ps,
            ps == 2 * half,
            pe > 0,
            d > 0,
    ;
    lemma_rne_shifted(w, unit, p, m0, rem, half, sticky);
}

/// Rounds to binary32 the magnitude that `p`, `e` and `sticky` describe
/// (see [`scaled_by`]); the ghost ratio `n / d` is that magnitude in units.
/// A sticky value must carry at least 25 bits in `p`, so that what is missing
/// lies below the rounding position.
pub(crate) fn round_pack(p: u64, e: i64, sticky: bool, Ghost(n): Ghost<int>, Ghost(d): Ghost<int>) -> (bits: u32)
    requires
        d > 0,
        n >= 0,
        -1000 <= e <= 1000,
        p < 0x8000_0000_0000_0000,
        sticky ==> p >= 0x100_0000,
        scaled_by(p as int, e as int, n, d, sticky),
    ensures
        bits as int == round_mag(n, d),
{
    if p == 0 {
        proof {
            lemma_pow2_pos(1024);
            lemma_pow2_pos((e + 1024) as nat);
            assert(n == 0) by (nonlinear_arith)
                requires
                    n * pow2(1024) == 0 * (pow2((e + 1024) as nat) * d),
                    pow2(1024) > 0,
                    n >= 0,
            ;
            lemma_rne_exact(0, d);
            assert(0 * d == 0);
        }
        return 0;
    }
    let len: u64 = bit_length(p);
    let top: i64 = (len as i64) + e;
    let k: i64 = if top > 24 {
        top - 24
    } else {
        0
    };
    let ghost w = n * pow2(1024);
    let ghost big = d * pow2((k + 1024) as nat);
    proof {
        lemma_pack_frame(p as int, e as int, sticky, n, d, len as int, k as int);
        lemma_rne_between(w, big, 0, 0x100_0000);
    }
    if k > 253 {
        proof {
            lemma_rne_between(w, big, 0x80_0000, 0x100_0000);
        }
        return INF_MAG;
    }
    let s: i64 = k - e;
    let m: u64;
    if s <= 0 {
        let t: u64 = (0 - s) as u64;
        proof {
            lemma2_to64();
            if sticky {
                if len < 24 {
                    lemma_pow2_strictly_increases(len as nat, 24);
                }
                assert(false);
            }
            lemma_pack_exact(p as int, e as int, n, d, k as int, t as int);
            lemma_u64_shl_is_mul(p, t);
        }
        m = p << t;
    } else if s >= 64 {
        proof {
            lemma2_to64();
            lemma2_to64_rest();
            if s - 1 > 63 {
                lemma_pow2_strictly_increases(63, (s - 1) as nat);
            }
            lemma_pow2_unfold(s as nat);
            assert(p as int == 0 * pow2(s as nat) + p) by (nonlinear_arith);
            lemma_pack_shifted(p as int, e as int, sticky, n, d, k as int, s as int, 0, p as int);
        }
        m = 0;
    } else {
        let sh: u64 = s as u64;
        let m0: u64 = p >> sh;
        proof {
            lemma_u64_shr_is_div(p, sh);
            lemma_pow2_pos(sh as nat);
            vstd::arithmetic::div_mod::lemma_fundamental_div_mod(p as int, pow2(sh as nat) as int);
            vstd::arithmetic::div_mod::lemma_mod_bound(p as int, pow2(sh as nat) as int);
            assert(m0 * pow2(sh as nat) == pow2(sh as nat) * m0) by (nonlinear_arith);
            lemma_u64_shl_is_mul(m0, sh);
            lemma2_to64();
            lemma2_to64_rest();
            if sh - 1 < 63 {
                lemma_pow2_strictly_increases((sh - 1) as nat, 63);
            }
            lemma_u64_shl_is_mul(1, (sh - 1) as u64);
        }
        let low: u64 = m0 << sh;
        let rem: u64 = p - low;
        let half: u64 = 1u64 << (sh - 1);
        proof {
            lemma_pack_shifted(p as int, e as int, sticky, n, d, k as int, s as int, m0 as int, rem as int);
        }
        if rem > half || (rem == half && (sticky || m0 % 2 == 1)) {
            m = m0 + 1;
        } else {
            m = m0;
        }
    }
    (k as u32) * HIDDEN + (m as u32)
}

} // verus!
