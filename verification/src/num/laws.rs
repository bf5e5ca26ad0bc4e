//! Facts about the arithmetic that hold of every input: what zero and one do,
//! and how rounding keeps order.

use vstd::prelude::*;
use vstd::arithmetic::power2::{pow2, lemma_pow2_pos, lemma_pow2_adds, lemma_pow2_unfold, lemma2_to64};
use crate::num::rounding::{mag_value, round_mag, grid_round, lemma_grid_round_fixed, lemma_grid_round_monotone, lemma_grid_round_nonnegative, lemma_grid_round_scale, lemma_grid_round_binade, lemma_grid_round_lower, lemma_rne_exact, lemma_rne_parts, lemma_rne_scale, lemma_rne_between, rne};
use crate::num::binary32::{Binary32, of_bits, make, negated, at_most, lemma_mag_value_increases, lemma_rank_is_order};
use crate::num::arith::{product, sum, difference, quotient};

verus! {

/// 1 is 2^149 units, and 2^64 is 2^213.
pub proof fn lemma_landmarks()
    ensures
        mag_value(0x3f80_0000) == pow2(149),
        mag_value(0x5f80_0000) == pow2(64) * pow2(149),
{
    lemma2_to64();
    lemma_pow2_adds(23, 126);
    lemma_pow2_adds(23, 190);
    lemma_pow2_adds(64, 149);
    assert(0x3f80_0000int / 0x80_0000 == 127 && 0x3f80_0000int % 0x80_0000 == 0);
    assert(0x5f80_0000int / 0x80_0000 == 191 && 0x5f80_0000int % 0x80_0000 == 0);
}

/// Nothing rounds to nothing.
pub proof fn lemma_round_of_zero(d: int)
    requires
        d > 0,
    ensures
        round_mag(0, d) == 0,
{
    lemma_rne_exact(0, d);
    assert(0 * d == 0);
}

/// Rounding keeps the order of numerators over one divisor, and gives
/// magnitude bits from zero to those of infinity.
pub proof fn lemma_round_monotone(n1: int, n2: int, d: int)
    requires
        d > 0,
        0 <= n1 <= n2,
    ensures
        0 <= round_mag(n1, d) <= round_mag(n2, d) <= 0x7f80_0000,
{
    lemma_grid_round_monotone(n1, n2, d);
    lemma_grid_round_nonnegative(n1, d);
}

/// A magnitude is never negative, and is zero only for zero bits.
pub proof fn lemma_mag_value_sign(m: int)
    requires
        0 <= m <= 0x7f80_0000,
    ensures
        mag_value(m) >= 0,
        mag_value(m) == 0 <==> m == 0,
{
    if m > 0 {
        lemma_mag_value_increases(0, m);
    }
}

/// Zero times a finite number is zero.
pub proof fn lemma_product_zero(a: Binary32, b: Binary32)
    requires
        a.is_zero(),
        b.is_finite(),
    ensures
        product(a, b).is_zero(),
        product(b, a).is_zero(),
{
    lemma_pow2_pos(149);
    lemma_round_of_zero(pow2(149) as int);
    assert(0 * mag_value(b.mag()) == 0 && mag_value(b.mag()) * 0 == 0);
}

/// Zero plus zero and zero minus zero are zero.
pub proof fn lemma_sum_zero(a: Binary32, b: Binary32)
    requires
        a.is_zero(),
        b.is_zero(),
    ensures
        sum(a, b).is_zero(),
        difference(a, b).is_zero(),
{
}

/// Zero over anything but zero and NaN is zero.
pub proof fn lemma_quotient_zero(a: Binary32, b: Binary32)
    requires
        a.is_zero(),
        !b.is_nan(),
        !b.is_zero(),
    ensures
        quotient(a, b).is_zero(),
{
    if b.is_finite() {
        lemma_mag_value_sign(b.mag());
        lemma_round_of_zero(mag_value(b.mag()));
        assert(0 * pow2(149) == 0);
    }
}

/// Adding or subtracting zero leaves a finite number that is not zero as it is.
pub proof fn lemma_sum_with_zero(a: Binary32, z: Binary32)
    requires
        a.is_finite(),
        !a.is_zero(),
        z.is_zero(),
    ensures
        sum(a, z) == a,
        sum(z, a) == a,
        difference(a, z) == a,
{
    lemma_mag_value_sign(a.mag());
    lemma_grid_round_fixed(a.mag());
}

/// Multiplying by 1 leaves every number but NaN as it is.
pub proof fn lemma_product_one(a: Binary32)
    requires
        !a.is_nan(),
    ensures
        product(a, of_bits(0x3f80_0000)) == a,
        product(of_bits(0x3f80_0000), a) == a,
{
    if a.is_finite() {
        let one = pow2(149) as int;
        let v = mag_value(a.mag());
        lemma_landmarks();
        lemma_pow2_pos(149);
        lemma_mag_value_sign(a.mag());
        lemma_grid_round_scale(v, 1, one);
        lemma_grid_round_fixed(a.mag());
        assert(one * v == v * one && 1 * one == one) by (nonlinear_arith);
    }
}

/// Multiplying by a number between -1 and 1 does not raise the magnitude.
pub proof fn lemma_product_shrinks(a: Binary32, b: Binary32)
    requires
        a.is_finite(),
        b.mag() <= 0x3f80_0000,
    ensures
        product(a, b).mag() <= a.mag(),
        product(b, a).mag() <= a.mag(),
        product(a, b).negative() == (a.negative() != b.negative()),
        product(b, a).negative() == (a.negative() != b.negative()),
{
    let one = pow2(149) as int;
    let va = mag_value(a.mag());
    let vb = mag_value(b.mag());
    lemma_landmarks();
    lemma_pow2_pos(149);
    lemma_mag_value_sign(a.mag());
    lemma_mag_value_sign(b.mag());
    if b.mag() < 0x3f80_0000 {
        lemma_mag_value_increases(b.mag(), 0x3f80_0000);
    }
    assert(0 <= va * vb <= va * one && vb * va == va * vb) by (nonlinear_arith)
        requires
            0 <= va,
            0 <= vb <= one,
    ;
    lemma_round_monotone(va * vb, va * one, one);
    lemma_grid_round_scale(va, 1, one);
    lemma_grid_round_fixed(a.mag());
    assert(1 * one == one);
}

/// How far apart two numbers are.
pub open spec fn gap(x: int, y: int) -> int {
    if x >= y {
        x - y
    } else {
        y - x
    }
}

/// Every ratio lies in a binade: below 2^24 steps of some power of two, and
/// from the second binade on at least 2^23 of them.
pub proof fn lemma_binade_exists(n: int, d: int) -> (k: nat)
    requires
        d > 0,
        n >= 0,
    ensures
        n < 0x100_0000 * (d * pow2(k)),
        k >= 1 ==> n >= 0x80_0000 * (d * pow2(k)),
    decreases n - d,
{
    lemma2_to64();
    if n < 0x100_0000 * d {
        assert(d * pow2(0) == d) by (nonlinear_arith)
            requires
                pow2(0) == 1,
        ;
        0
    } else {
        let k1 = lemma_binade_exists(n, 2 * d);
        lemma_pow2_unfold(k1 + 1);
        assert((2 * d) * pow2(k1) == d * pow2(k1 + 1) && (k1 == 0 ==> d * pow2(k1 + 1) == 2 * d)) by (nonlinear_arith)
            requires
                pow2(k1 + 1) == 2 * pow2(k1),
                k1 == 0 ==> pow2(k1) == 1,
        ;
        k1 + 1
    }
}

/// In binade `k` the bits `k * 2^23 + t` stand for `t * 2^k` units.
pub proof fn lemma_value_in_binade(k: nat, t: int)
    requires
        k <= 253,
        0 <= t <= 0x100_0000,
        k >= 1 ==> t >= 0x80_0000,
    ensures
        mag_value(k * 0x80_0000 + t) == t * pow2(k),
{
    let bits = k * 0x80_0000 + t;
    lemma2_to64();
    if t == 0x100_0000 {
        assert(bits / 0x80_0000 == k + 2 && bits % 0x80_0000 == 0);
        lemma_pow2_unfold(k + 1);
        assert(0x80_0000 * pow2(k + 1) == t * pow2(k)) by (nonlinear_arith)
            requires
                pow2(k + 1) == 2 * pow2(k),
                t == 0x100_0000,
        ;
    } else if t >= 0x80_0000 {
        assert(bits / 0x80_0000 == k + 1 && bits % 0x80_0000 == t - 0x80_0000);
    } else {
        assert(t * pow2(0) == t) by (nonlinear_arith)
            requires
                pow2(0) == 1,
        ;
    }
}

/// Rounding picks the nearest magnitude that binary32 has: no magnitude
/// bits `c`, those of infinity taken as 2^128, stand for a number nearer to
/// `n / d` than the rounded bits do, and where another is equally near the
/// rounded bits are even.
pub proof fn lemma_round_is_nearest(n: int, d: int, c: int)
    requires
        d > 0,
        n >= 0,
        0 <= c <= 0x7f80_0000,
    ensures
        gap(n, mag_value(round_mag(n, d)) * d) <= gap(n, mag_value(c) * d),
        gap(n, mag_value(round_mag(n, d)) * d) == gap(n, mag_value(c) * d) && c != round_mag(n, d) ==> round_mag(n, d)
            % 2 == 0,
{
    let k = lemma_binade_exists(n, d);
    let big = d * pow2(k);
    let b = round_mag(n, d);
    let vc = mag_value(c);
    lemma_pow2_pos(k);
    lemma_mag_value_sign(c);
    lemma2_to64();
    assert(big > 0) by (nonlinear_arith)
        requires
            big == d * pow2(k),
            d > 0,
            pow2(k) > 0,
    ;
    if k >= 254 {
        lemma_pow2_adds(23, 254);
        lemma_pow2_adds(254, (k - 254) as nat);
        lemma_pow2_pos((k - 254) as nat);
        let top = mag_value(0x7f80_0000);
        assert(0x7f80_0000int / 0x80_0000 == 255 && 0x7f80_0000int % 0x80_0000 == 0);
        lemma_pow2_pos(254);
        assert(top * d <= n) by (nonlinear_arith)
            requires
                n >= 0x80_0000 * big,
                big == d * pow2(k),
                pow2(k) == pow2(254) * pow2((k - 254) as nat),
                pow2((k - 254) as nat) >= 1,
                top == 0x80_0000 * pow2(254),
                d > 0,
                pow2(254) > 0,
        ;
        lemma_grid_round_lower(n, d, k, big);
        assert(b == 0x7f80_0000);
        if c < 0x7f80_0000 {
            lemma_mag_value_increases(c, 0x7f80_0000);
        }
        assert(vc * d <= top * d && (vc < top ==> vc * d < top * d)) by (nonlinear_arith)
            requires
                vc <= top,
                d > 0,
        ;
    } else {
        lemma_grid_round_binade(n, d, k, big);
        let q = n / big;
        let r = n % big;
        vstd::arithmetic::div_mod::lemma_fundamental_div_mod(n, big);
        vstd::arithmetic::div_mod::lemma_mod_bound(n, big);
        lemma_rne_parts(n, big, q, r);
        assert(0 <= q < 0x100_0000 && (k >= 1 ==> q >= 0x80_0000)) by (nonlinear_arith)
            requires
                n == big * q + r,
                0 <= r < big,
                0 <= n < 0x100_0000 * big,
                k >= 1 ==> n >= 0x80_0000 * big,
        ;
        let m = rne(n, big);
        let lo = k * 0x80_0000 + q;
        lemma_value_in_binade(k, q);
        lemma_value_in_binade(k, q + 1);
        let vlo = mag_value(lo);
        let vhi = mag_value(lo + 1);
        assert(vlo * d == q * big && vhi * d == q * big + big) by (nonlinear_arith)
            requires
                vlo == q * pow2(k),
                vhi == (q + 1) * pow2(k),
                big == d * pow2(k),
        ;
        assert(b == k * 0x80_0000 + m);
        assert(b == lo || b == lo + 1);
        assert(b % 2 == m % 2);
        if c < lo {
            lemma_mag_value_increases(c, lo);
            assert(vc * d < vlo * d) by (nonlinear_arith)
                requires
                    vc < vlo,
                    d > 0,
            ;
        } else if c > lo + 1 {
            lemma_mag_value_increases(lo + 1, c);
            assert(vc * d > vhi * d) by (nonlinear_arith)
                requires
                    vc > vhi,
                    d > 0,
            ;
        }
    }
}

/// Rounding moves a ratio by little: short of overflow, by at most one part
/// in 2^24 of the ratio, or by half a unit where that is more.
pub proof fn lemma_round_error(n: int, d: int)
    requires
        d > 0,
        n >= 0,
        round_mag(n, d) < 0x7f80_0000,
    ensures
        mag_value(round_mag(n, d)) * d * 0x100_0000 <= n * 0x100_0001 + d * 0x80_0000,
        mag_value(round_mag(n, d)) * d * 0x100_0000 >= n * 0xff_ffff - d * 0x80_0000,
        mag_value(round_mag(n, d)) >= 0,
{
    let k = lemma_binade_exists(n, d);
    let big = d * pow2(k);
    lemma_pow2_pos(k);
    lemma2_to64();
    assert(big > 0 && (k == 0 ==> big == d)) by (nonlinear_arith)
        requires
            big == d * pow2(k),
            d > 0,
            pow2(k) > 0,
            k == 0 ==> pow2(k) == 1,
    ;
    if k >= 254 {
        lemma_grid_round_lower(n, d, k, big);
    }
    lemma_grid_round_binade(n, d, k, big);
    let q = n / big;
    let r = n % big;
    vstd::arithmetic::div_mod::lemma_fundamental_div_mod(n, big);
    vstd::arithmetic::div_mod::lemma_mod_bound(n, big);
    lemma_rne_parts(n, big, q, r);
    let m = rne(n, big);
    lemma_rne_between(n, big, 0, 0x100_0000);
    if k >= 1 {
        lemma_rne_between(n, big, 0x80_0000, 0x100_0000);
    }
    lemma_value_in_binade(k, m);
    let v = mag_value(round_mag(n, d));
    assert(v == m * pow2(k));
    assert(v * d == m * big && 2 * (m * big) <= 2 * n + big && 2 * (m * big) >= 2 * n - big) by (nonlinear_arith)
        requires
            v == m * pow2(k),
            big == d * pow2(k),
            n == big * q + r,
            0 <= r < big,
            m == q || m == q + 1,
            m == q ==> 2 * r <= big,
            m == q + 1 ==> 2 * r >= big,
    ;
    assert(v * d * 0x100_0000 <= n * 0x100_0001 + d * 0x80_0000 && v * d * 0x100_0000 >= n * 0xff_ffff - d
        * 0x80_0000) by (nonlinear_arith)
        requires
            v * d == m * big,
            2 * (m * big) <= 2 * n + big,
            2 * (m * big) >= 2 * n - big,
            k == 0 ==> big == d,
            k >= 1 ==> n >= 0x80_0000 * big,
            big > 0,
            n >= 0,
            d > 0,
    ;
    lemma_mag_value_sign(round_mag(n, d));
    lemma_round_monotone(n, n, d);
}

/// A whole number `j` below 2^24 times a power of two is on the grid: it
/// rounds to bits that stand for exactly that magnitude.
pub proof fn lemma_round_multiple(j: int, k: nat)
    requires
        0 <= j < 0x100_0000,
        k <= 253,
    ensures
        0 <= round_mag(j * pow2(k), 1) < 0x7f80_0000,
        mag_value(round_mag(j * pow2(k), 1)) == j * pow2(k),
    decreases k,
{
    let big = pow2(k) as int;
    lemma_pow2_pos(k);
    lemma2_to64();
    if j == 0 {
        assert(0 * big == 0);
        lemma_round_of_zero(1);
    } else if k == 0 {
        assert(j * big == j) by (nonlinear_arith)
            requires
                big == 1,
        ;
        lemma_rne_exact(j, 1);
        assert(j * 1 == j);
    } else if j >= 0x80_0000 {
        assert(j * big < 0x100_0000 * big && j * big >= 0x80_0000 * big && big == 1 * big && j * big >= 0)
            by (nonlinear_arith)
            requires
                0x80_0000 <= j < 0x100_0000,
                big > 0,
        ;
        lemma_grid_round_binade(j * big, 1, k, big);
        lemma_rne_exact(j, big);
        let bits = k * 0x80_0000 + j;
        assert(bits / 0x80_0000 == k + 1 && bits % 0x80_0000 == j - 0x80_0000);
    } else {
        lemma_pow2_unfold(k);
        assert(j * big == (2 * j) * pow2((k - 1) as nat)) by (nonlinear_arith)
            requires
                big == 2 * pow2((k - 1) as nat),
        ;
        lemma_round_multiple(2 * j, (k - 1) as nat);
    }
}

/// `g + (1 - g) * 0.5`: the step by which a gain opens.
pub open spec fn halfway_to_one(g: Binary32) -> Binary32 {
    sum(g, product(difference(of_bits(0x3f80_0000), g), of_bits(0x3f00_0000)))
}

/// `n` opening steps in a row.
pub open spec fn halfway_to_one_times(g: Binary32, n: nat) -> Binary32
    decreases n,
{
    if n == 0 {
        g
    } else {
        halfway_to_one_times(halfway_to_one(g), (n - 1) as nat)
    }
}

/// From a gain between 0 and 1, adding half of what is missing to 1 gives
/// a gain that is no lower and still at most 1.
pub proof fn lemma_halfway_to_one(g: Binary32)
    requires
        at_most(of_bits(0), g),
        at_most(g, of_bits(0x3f80_0000)),
    ensures
        at_most(g, halfway_to_one(g)),
        at_most(halfway_to_one(g), of_bits(0x3f80_0000)),
        at_most(of_bits(0), halfway_to_one(g)),
{
    let one = of_bits(0x3f80_0000);
    let half = of_bits(0x3f00_0000);
    let t = difference(one, g);
    let h = product(t, half);
    let next = sum(g, h);
    let vg = mag_value(g.mag());
    let u = pow2(149) as int;
    lemma_landmarks();
    lemma2_to64();
    lemma_pow2_pos(149);
    lemma_pow2_adds(23, 125);
    lemma_pow2_adds(24, 125);
    lemma_pow2_adds(1, 148);
    lemma_pow2_adds(1, 124);
    lemma_pow2_adds(124, 149);
    assert(0x3f00_0000int / 0x80_0000 == 126 && 0x3f00_0000int % 0x80_0000 == 0);
    assert(mag_value(0x3f00_0000) == pow2(148));
    lemma_mag_value_sign(g.mag());
    if g.mag() < 0x3f80_0000 {
        lemma_mag_value_increases(g.mag(), 0x3f80_0000);
    }
    // t = 1 - g, between 0 and 1
    let s = u - vg;
    assert(one.units() + negated(g).units() == s);
    lemma_round_of_zero(1);
    lemma_round_monotone(s, u, 1);
    lemma_grid_round_fixed(0x3f80_0000);
    assert(t == make(false, round_mag(s, 1)));
    assert(t.mag() <= 0x3f80_0000 && !t.negative());
    let vt = mag_value(t.mag());
    lemma_mag_value_sign(t.mag());
    // h = t / 2, between 0 and 1/2
    lemma_product_shrinks(half, t);
    assert(!h.negative() && h.mag() <= 0x3f00_0000);
    let vh = mag_value(h.mag());
    lemma_mag_value_sign(h.mag());
    if h.mag() < 0x3f00_0000 {
        lemma_mag_value_increases(h.mag(), 0x3f00_0000);
    }
    assert(vh <= pow2(148));
    // the sum is at least g
    assert(g.units() + h.units() == vg + vh);
    lemma_grid_round_fixed(g.mag());
    lemma_round_monotone(vg, vg + vh, 1);
    assert(next == make(false, round_mag(vg + vh, 1)));
    // and at most 1
    if g.mag() <= 0x3f00_0000 {
        if g.mag() < 0x3f00_0000 {
            lemma_mag_value_increases(g.mag(), 0x3f00_0000);
        }
        assert(vg + vh <= u);
    } else if g.mag() == 0x3f80_0000 {
        assert(s == 0);
        lemma_product_zero(t, half);
        assert(vh == 0);
    } else {
        let f = g.mag() % 0x80_0000;
        assert(g.mag() / 0x80_0000 == 126);
        let j = 0x80_0000 - f;
        let p125 = pow2(125) as int;
        let p124 = pow2(124) as int;
        assert(vg == (0x80_0000 + f) * p125);
        assert(s == j * p125) by (nonlinear_arith)
            requires
                s == u - vg,
                vg == (0x80_0000 + f) * p125,
                u == 0x100_0000 * p125,
                j == 0x80_0000 - f,
        ;
        lemma_round_multiple(j, 125);
        assert(vt == j * p125);
        lemma_pow2_pos(124);
        assert(vt * pow2(148) == (j * p124) * u && 1 * u == u && j * p124 >= 0) by (nonlinear_arith)
            requires
                vt == j * p125,
                p125 == 2 * p124,
                u == 2 * pow2(148),
                j >= 0,
                p124 > 0,
        ;
        lemma_grid_round_scale(j * p124, 1, u);
        lemma_round_multiple(j, 124);
        assert(h.mag() == round_mag(j * p124, 1));
        assert(vh == j * p124);
        assert(vg + vh <= u) by (nonlinear_arith)
            requires
                vg == u - j * p125,
                vh == j * p124,
                p125 == 2 * p124,
                j >= 0,
                p124 > 0,
        ;
    }
    lemma_round_monotone(vg + vh, u, 1);
}

/// Bits of 2^p, for p from -126 to 127; of infinity for p = 128.
pub open spec fn two_to(p: int) -> int {
    (p + 127) * 0x80_0000
}

/// The magnitude of `a` is at most 2^p; `a` is then finite for p up to 127.
pub open spec fn under(a: Binary32, p: int) -> bool {
    a.mag() <= two_to(p)
}

/// 2^p is 2^(p + 149) units.
pub proof fn lemma_two_to_units(p: int)
    requires
        -126 <= p <= 128,
    ensures
        mag_value(two_to(p)) == pow2((p + 149) as nat),
{
    lemma2_to64();
    lemma_pow2_adds(23, (p + 126) as nat);
    assert(two_to(p) / 0x80_0000 == p + 127 && two_to(p) % 0x80_0000 == 0);
}

/// The product of magnitudes at most 2^p and 2^q is at most 2^(p + q).
pub proof fn lemma_product_under(a: Binary32, b: Binary32, p: int, q: int)
    requires
        under(a, p),
        under(b, q),
        -126 <= p <= 127,
        -126 <= q <= 127,
        -126 <= p + q <= 127,
    ensures
        under(product(a, b), p + q),
        product(a, b).negative() == (a.negative() != b.negative()),
{
    let va = mag_value(a.mag());
    let vb = mag_value(b.mag());
    let u = pow2(149) as int;
    let pa = pow2((p + 149) as nat) as int;
    let pb = pow2((q + 149) as nat) as int;
    let pc = pow2((p + q + 149) as nat) as int;
    lemma_two_to_units(p);
    lemma_two_to_units(q);
    lemma_two_to_units(p + q);
    lemma_mag_value_sign(a.mag());
    lemma_mag_value_sign(b.mag());
    if a.mag() < two_to(p) {
        lemma_mag_value_increases(a.mag(), two_to(p));
    }
    if b.mag() < two_to(q) {
        lemma_mag_value_increases(b.mag(), two_to(q));
    }
    lemma_pow2_adds((p + 149) as nat, (q + 149) as nat);
    lemma_pow2_adds((p + q + 149) as nat, 149);
    lemma_pow2_pos(149);
    lemma_pow2_pos((p + q + 149) as nat);
    assert(0 <= va * vb <= pc * u) by (nonlinear_arith)
        requires
            0 <= va <= pa,
            0 <= vb <= pb,
            pa * pb == pc * u,
    ;
    lemma_round_monotone(va * vb, pc * u, u);
    lemma_grid_round_scale(pc, 1, u);
    lemma_grid_round_fixed(two_to(p + q));
    assert(1 * u == u);
}

/// The sum of magnitudes at most 2^p is at most 2^(p + 1); so is the
/// difference.
pub proof fn lemma_sum_under(a: Binary32, b: Binary32, p: int)
    requires
        under(a, p),
        under(b, p),
        -126 <= p <= 126,
    ensures
        under(sum(a, b), p + 1),
        under(difference(a, b), p + 1),
{
    let va = mag_value(a.mag());
    let vb = mag_value(b.mag());
    lemma_two_to_units(p);
    lemma_two_to_units(p + 1);
    lemma_mag_value_sign(a.mag());
    lemma_mag_value_sign(b.mag());
    if a.mag() < two_to(p) {
        lemma_mag_value_increases(a.mag(), two_to(p));
    }
    if b.mag() < two_to(p) {
        lemma_mag_value_increases(b.mag(), two_to(p));
    }
    lemma_pow2_unfold((p + 150) as nat);
    let top = pow2((p + 150) as nat) as int;
    lemma_grid_round_fixed(two_to(p + 1));
    let s = a.units() + b.units();
    if s < 0 {
        lemma_round_monotone(-s, top, 1);
    } else {
        lemma_round_monotone(s, top, 1);
    }
    let s2 = a.units() + negated(b).units();
    if s2 < 0 {
        lemma_round_monotone(-s2, top, 1);
    } else {
        lemma_round_monotone(s2, top, 1);
    }
}

/// A positive number over one at least as large is at most 1.
pub proof fn lemma_quotient_under_one(c: Binary32, e: Binary32)
    requires
        c.is_finite(),
        e.is_finite(),
        c.mag() <= e.mag(),
        !e.is_zero(),
    ensures
        quotient(c, e).mag() <= 0x3f80_0000,
        quotient(c, e).negative() == (c.negative() != e.negative()),
{
    let vc = mag_value(c.mag());
    let ve = mag_value(e.mag());
    let u = pow2(149) as int;
    lemma_landmarks();
    lemma_pow2_pos(149);
    lemma_mag_value_sign(c.mag());
    lemma_mag_value_sign(e.mag());
    if c.mag() < e.mag() {
        lemma_mag_value_increases(c.mag(), e.mag());
    }
    assert(0 <= vc * u <= u * ve && 1 * ve == ve) by (nonlinear_arith)
        requires
            0 <= vc <= ve,
            u > 0,
    ;
    lemma_round_monotone(vc * u, u * ve, ve);
    lemma_grid_round_scale(u, 1, ve);
    lemma_grid_round_fixed(0x3f80_0000);
}

/// `0 <= x <= 1` as numbers.
pub open spec fn in_unit(x: Binary32) -> bool {
    at_most(of_bits(0), x) && at_most(x, of_bits(0x3f80_0000))
}

/// A finite number that is not negative, times a number between 0 and 1,
/// is not negative and no larger than it was.
pub proof fn lemma_product_in_unit(a: Binary32, b: Binary32)
    requires
        at_most(of_bits(0), a),
        a.is_finite(),
        in_unit(b),
    ensures
        at_most(of_bits(0), product(a, b)),
        at_most(product(a, b), a),
        product(a, b).is_finite(),
{
    lemma_product_shrinks(a, b);
    if a.is_zero() {
        lemma_product_zero(a, b);
    }
    if b.is_zero() {
        lemma_product_zero(b, a);
    }
}

/// From a gain of at least 0.5 one opening step at least halves the
/// distance to 1, counted in binary32 numbers and rounded up; from the last
/// number before 1 it reaches 1.
pub proof fn lemma_halfway_from_upper_half(g: Binary32)
    requires
        !g.negative(),
        0x3f00_0000 <= g.mag() <= 0x3f80_0000,
    ensures
        !halfway_to_one(g).negative(),
        0x3f00_0000 <= halfway_to_one(g).mag() <= 0x3f80_0000,
        2 * (0x3f80_0000 - halfway_to_one(g).mag()) <= (0x3f80_0000 - g.mag()) + 1,
        0x3f80_0000 - g.mag() <= 1 ==> halfway_to_one(g) == of_bits(0x3f80_0000),
{
    let one = of_bits(0x3f80_0000);
    let half = of_bits(0x3f00_0000);
    let t = difference(one, g);
    let h = product(t, half);
    let next = sum(g, h);
    let vg = mag_value(g.mag());
    let u = pow2(149) as int;
    let p125 = pow2(125) as int;
    let p124 = pow2(124) as int;
    lemma_landmarks();
    lemma2_to64();
    lemma_pow2_pos(149);
    lemma_pow2_pos(124);
    lemma_pow2_adds(23, 125);
    lemma_pow2_adds(24, 125);
    lemma_pow2_adds(1, 148);
    lemma_pow2_adds(1, 124);
    assert(0x3f00_0000int / 0x80_0000 == 126 && 0x3f00_0000int % 0x80_0000 == 0);
    lemma_halfway_to_one(g);
    if g.mag() == 0x3f80_0000 {
        lemma_round_of_zero(1);
        assert(one.units() + negated(g).units() == 0);
        lemma_product_zero(t, half);
        lemma_sum_with_zero(g, h);
    } else {
        let f = g.mag() % 0x80_0000;
        assert(g.mag() / 0x80_0000 == 126);
        let j = 0x80_0000 - f;
        assert(vg == (0x80_0000 + f) * p125);
        let s = u - vg;
        assert(one.units() + negated(g).units() == s);
        assert(s == j * p125 && s > 0) by (nonlinear_arith)
            requires
                s == u - vg,
                vg == (0x80_0000 + f) * p125,
                u == 0x100_0000 * p125,
                j == 0x80_0000 - f,
                j >= 1,
                p125 > 0,
        ;
        lemma_round_multiple(j, 125);
        assert(t == make(false, round_mag(s, 1)));
        let vt = mag_value(t.mag());
        assert(vt == j * p125);
        assert(vt * pow2(148) == (j * p124) * u && 1 * u == u && j * p124 >= 0) by (nonlinear_arith)
            requires
                vt == j * p125,
                p125 == 2 * p124,
                u == 2 * pow2(148),
                j >= 0,
                p124 > 0,
        ;
        assert(mag_value(0x3f00_0000) == pow2(148));
        lemma_grid_round_scale(j * p124, 1, u);
        lemma_round_multiple(j, 124);
        assert(h.mag() == round_mag(j * p124, 1));
        assert(!h.negative());
        let vh = mag_value(h.mag());
        assert(vh == j * p124);
        let n = vg + vh;
        assert(g.units() + h.units() == n);
        let top = 0x200_0000 - j;
        assert(n == top * p124 && n > 0 && n >= 0x80_0000 * p125 && n < 0x100_0000 * p125 && p125 == 1 * p125 && p125
            == 2 * p124) by (nonlinear_arith)
            requires
                n == vg + vh,
                vg == u - j * p125,
                vh == j * p124,
                p125 == 2 * p124,
                u == 0x100_0000 * p125,
                top == 0x200_0000 - j,
                1 <= j <= 0x80_0000,
                p124 > 0,
        ;
        lemma_grid_round_binade(n, 1, 125, p125);
        lemma_rne_scale(top, 2, p124);
        assert(2 * p124 == p125);
        assert(rne(n, p125) == rne(top, 2));
        let m = rne(top, 2);
        assert(grid_round(n, 1) == 125 * 0x80_0000 + m);
        assert(next == make(false, round_mag(n, 1)));
    }
}

/// From a gain below 0.5 one opening step reaches at least 0.5.
pub proof fn lemma_halfway_from_lower_half(g: Binary32)
    requires
        in_unit(g),
        g.mag() < 0x3f00_0000,
    ensures
        !halfway_to_one(g).negative(),
        0x3f00_0000 <= halfway_to_one(g).mag() <= 0x3f80_0000,
{
    let one = of_bits(0x3f80_0000);
    let half = of_bits(0x3f00_0000);
    let t = difference(one, g);
    let h = product(t, half);
    let next = sum(g, h);
    let vg = mag_value(g.mag());
    let u = pow2(149) as int;
    let p148 = pow2(148) as int;
    let p125 = pow2(125) as int;
    let p124 = pow2(124) as int;
    lemma_landmarks();
    lemma2_to64();
    lemma_pow2_pos(149);
    lemma_pow2_pos(124);
    lemma_pow2_adds(23, 125);
    lemma_pow2_adds(24, 125);
    lemma_pow2_adds(24, 124);
    lemma_pow2_adds(1, 148);
    lemma_pow2_adds(1, 124);
    assert(0x3f00_0000int / 0x80_0000 == 126 && 0x3f00_0000int % 0x80_0000 == 0);
    assert(mag_value(0x3f00_0000) == p148);
    lemma_halfway_to_one(g);
    lemma_mag_value_sign(g.mag());
    lemma_mag_value_increases(g.mag(), 0x3f00_0000);
    lemma_grid_round_fixed(0x3f00_0000);
    let d = u - vg;
    assert(one.units() + negated(g).units() == d);
    if g.mag() == 0 {
        lemma_grid_round_fixed(0x3f80_0000);
        assert(t == one);
        lemma_product_one(half);
        lemma_sum_with_zero(half, g);
    } else {
        // t is D rounded in the binade below 1
        assert(d >= 0x80_0000 * p125 && d < 0x100_0000 * p125 && p125 == 1 * p125) by (nonlinear_arith)
            requires
                d == u - vg,
                0 < vg < p148,
                u == 2 * p148,
                p148 == 0x80_0000 * p125,
        ;
        lemma_grid_round_binade(d, 1, 125, p125);
        let m = rne(d, p125);
        lemma_pow2_pos(125);
        lemma_rne_between(d, p125, 0x80_0000, 0x100_0000);
        assert(t == make(false, 125 * 0x80_0000 + m));
        let q = d / p125;
        let r = d % p125;
        vstd::arithmetic::div_mod::lemma_fundamental_div_mod(d, p125);
        vstd::arithmetic::div_mod::lemma_mod_bound(d, p125);
        // h is t halved, exactly
        let vh = mag_value(h.mag());
        if m == 0x100_0000 {
            assert(t == one);
            lemma_product_one(half);
            assert(vh == p148);
        } else {
            let bits = 125 * 0x80_0000 + m;
            assert(bits / 0x80_0000 == 126 && bits % 0x80_0000 == m - 0x80_0000);
            let vt = mag_value(t.mag());
            assert(vt == m * p125);
            assert(vt * p148 == (m * p124) * u && 1 * u == u && m * p124 >= 0) by (nonlinear_arith)
                requires
                    vt == m * p125,
                    p125 == 2 * p124,
                    u == 2 * p148,
                    m >= 0,
                    p124 > 0,
            ;
            lemma_grid_round_scale(m * p124, 1, u);
            lemma_round_multiple(m, 124);
            assert(h.mag() == round_mag(m * p124, 1));
            assert(vh == m * p124);
        }
        assert(!h.negative());
        assert(vh == m * p124) by (nonlinear_arith)
            requires
                m == 0x100_0000 ==> vh == p148,
                m != 0x100_0000 ==> vh == m * p124,
                p148 == 0x100_0000 * p124,
        ;
        // g + h is at least 1/2
        lemma_rne_parts(d, p125, q, r);
        if vg < p124 {
            assert(q == 0xff_ffff && r == p125 - vg) by (nonlinear_arith)
                requires
                    d == p125 * q + r,
                    0 <= r < p125,
                    d == 0x100_0000 * p125 - vg,
                    0 < vg < p125,
                    p125 > 0,
            ;
            assert(m == 0x100_0000);
        }
        assert(vg + vh >= p148) by (nonlinear_arith)
            requires
                vh == m * p124,
                d == u - vg,
                d == p125 * q + r,
                0 <= r < p125,
                m == q || m == q + 1,
                m == q ==> 2 * r <= p125,
                vg < p124 ==> m == 0x100_0000,
                p125 == 2 * p124,
                u == 2 * p148,
                p148 == 0x100_0000 * p124,
                vg > 0,
                p124 > 0,
        ;
        assert(g.units() + h.units() == vg + vh);
        lemma_round_monotone(p148, vg + vh, 1);
        assert(next == make(false, round_mag(vg + vh, 1)));
    }
}

/// Once a gain is at least 0.5 and within 2^k numbers of 1, it is exactly 1
/// after k + 1 opening steps.
pub proof fn lemma_upper_half_reaches_one(g: Binary32, k: nat)
    requires
        !g.negative(),
        0x3f00_0000 <= g.mag() <= 0x3f80_0000,
        0x3f80_0000 - g.mag() <= pow2(k),
    ensures
        halfway_to_one_times(g, k + 1) == of_bits(0x3f80_0000),
    decreases k,
{
    lemma_halfway_from_upper_half(g);
    lemma2_to64();
    if k == 0 {
        assert(halfway_to_one_times(halfway_to_one(g), 0) == halfway_to_one(g));
    } else {
        lemma_pow2_unfold(k);
        lemma_upper_half_reaches_one(halfway_to_one(g), (k - 1) as nat);
    }
}

/// An opening gain converges: from any gain between 0 and 1, 25 opening
/// steps in a row end at exactly 1.
pub proof fn lemma_opening_reaches_one(g: Binary32)
    requires
        in_unit(g),
    ensures
        halfway_to_one_times(g, 25) == of_bits(0x3f80_0000),
{
    lemma2_to64();
    if g.mag() < 0x3f00_0000 {
        lemma_halfway_from_lower_half(g);
    } else {
        lemma_halfway_from_upper_half(g);
    }
    lemma_upper_half_reaches_one(halfway_to_one(g), 23);
}

/// An opening gain stays at 1 once it is there: 25 steps or more from any
/// gain between 0 and 1 end at exactly 1.
pub proof fn lemma_opening_stays_at_one(g: Binary32, n: nat)
    requires
        in_unit(g),
        n >= 25,
    ensures
        halfway_to_one_times(g, n) == of_bits(0x3f80_0000),
    decreases n,
{
    if n == 25 {
        lemma_opening_reaches_one(g);
    } else {
        lemma_halfway_to_one(g);
        lemma_opening_stays_at_one(halfway_to_one(g), (n - 1) as nat);
    }
}

/// Addition keeps order: a sum of finite numbers does not fall when either
/// term rises.
pub proof fn lemma_sum_monotone(a: Binary32, b: Binary32, c: Binary32, d: Binary32)
    requires
        a.is_finite(),
        b.is_finite(),
        c.is_finite(),
        d.is_finite(),
        at_most(a, c),
        at_most(b, d),
    ensures
        at_most(sum(a, b), sum(c, d)),
{
    lemma_rank_is_order(a, c);
    lemma_rank_is_order(b, d);
    let s1 = a.units() + b.units();
    let s2 = c.units() + d.units();
    lemma_round_of_zero(1);
    if s1 < 0 {
        if s2 < 0 {
            lemma_round_monotone(-s2, -s1, 1);
        } else {
            lemma_round_monotone(0, -s1, 1);
            lemma_round_monotone(0, s2, 1);
        }
    } else {
        lemma_round_monotone(s1, s2, 1);
    }
}

/// Subtraction turns the order of what is taken away around.
pub proof fn lemma_difference_antitone(a: Binary32, b: Binary32, d: Binary32)
    requires
        a.is_finite(),
        b.is_finite(),
        d.is_finite(),
        at_most(b, d),
    ensures
        at_most(difference(a, d), difference(a, b)),
{
    lemma_sum_monotone(a, negated(d), a, negated(b));
}

/// Multiplication by a finite factor keeps order where the factor's sign
/// bit is clear, and turns it around where it is set.
pub proof fn lemma_product_monotone(a: Binary32, b: Binary32, c: Binary32)
    requires
        a.is_finite(),
        b.is_finite(),
        c.is_finite(),
        at_most(a, b),
    ensures
        !c.negative() ==> at_most(product(c, a), product(c, b)),
        c.negative() ==> at_most(product(c, b), product(c, a)),
{
    let u = pow2(149) as int;
    let va = mag_value(a.mag());
    let vb = mag_value(b.mag());
    let vc = mag_value(c.mag());
    lemma_pow2_pos(149);
    lemma_mag_value_sign(a.mag());
    lemma_mag_value_sign(b.mag());
    lemma_mag_value_sign(c.mag());
    lemma_rank_is_order(a, b);
    lemma_round_of_zero(u);
    assert(vc * va >= 0 && vc * vb >= 0 && (va <= vb ==> vc * va <= vc * vb) && (vb <= va ==> vc * vb <= vc * va) && (
    va == 0 ==> vc * va == 0) && (vb == 0 ==> vc * vb == 0)) by (nonlinear_arith)
        requires
            va >= 0,
            vb >= 0,
            vc >= 0,
    ;
    if va <= vb {
        lemma_round_monotone(vc * va, vc * vb, u);
    }
    if vb <= va {
        lemma_round_monotone(vc * vb, vc * va, u);
    }
}

/// Division by a finite divisor that is not zero keeps order where the
/// divisor's sign bit is clear.
pub proof fn lemma_quotient_monotone(a: Binary32, b: Binary32, e: Binary32)
    requires
        a.is_finite(),
        b.is_finite(),
        e.is_finite(),
        !e.is_zero(),
        !e.negative(),
        at_most(a, b),
    ensures
        at_most(quotient(a, e), quotient(b, e)),
{
    let u = pow2(149) as int;
    let va = mag_value(a.mag());
    let vb = mag_value(b.mag());
    let ve = mag_value(e.mag());
    lemma_pow2_pos(149);
    lemma_mag_value_sign(a.mag());
    lemma_mag_value_sign(b.mag());
    lemma_mag_value_sign(e.mag());
    lemma_rank_is_order(a, b);
    lemma_round_of_zero(ve);
    assert(va * u >= 0 && vb * u >= 0 && (va <= vb ==> va * u <= vb * u) && (vb <= va ==> vb * u <= va * u) && (va == 0
        ==> va * u == 0) && (vb == 0 ==> vb * u == 0)) by (nonlinear_arith)
        requires
            va >= 0,
            vb >= 0,
            u > 0,
    ;
    if va <= vb {
        lemma_round_monotone(va * u, vb * u, ve);
    }
    if vb <= va {
        lemma_round_monotone(vb * u, va * u, ve);
    }
}

/// Multiplication and addition do not mind the order of their operands.
pub proof fn lemma_commutes(a: Binary32, b: Binary32)
    ensures
        product(a, b) == product(b, a),
        sum(a, b) == sum(b, a),
{
    assert(mag_value(a.mag()) * mag_value(b.mag()) == mag_value(b.mag()) * mag_value(a.mag())) by (nonlinear_arith);
}

/// Where the exact sum of two finite numbers is a binary32 number other
/// than zero, addition gives that number.
pub proof fn lemma_sum_exact(a: Binary32, b: Binary32, c: Binary32)
    requires
        a.is_finite(),
        b.is_finite(),
        c.is_finite(),
        !c.is_zero(),
        a.units() + b.units() == c.units(),
    ensures
        sum(a, b) == c,
{
    lemma_mag_value_sign(c.mag());
    lemma_grid_round_fixed(c.mag());
}

/// Where the exact product of two finite numbers is a binary32 number
/// other than zero, multiplication gives that number.
pub proof fn lemma_product_exact(a: Binary32, b: Binary32, c: Binary32)
    requires
        a.is_finite(),
        b.is_finite(),
        c.is_finite(),
        !c.is_zero(),
        a.units() * b.units() == c.units() * pow2(149),
    ensures
        product(a, b) == c,
{
    let u = pow2(149) as int;
    let va = mag_value(a.mag());
    let vb = mag_value(b.mag());
    let vc = mag_value(c.mag());
    lemma_pow2_pos(149);
    lemma_mag_value_sign(a.mag());
    lemma_mag_value_sign(b.mag());
    lemma_mag_value_sign(c.mag());
    assert(va * vb == vc * u && (c.negative() <==> (a.negative() != b.negative())) && 1 * u == u) by (nonlinear_arith)
        requires
            a.units() * b.units() == c.units() * u,
            a.units() == (if a.negative() {
                -va
            } else {
                va
            }),
            b.units() == (if b.negative() {
                -vb
            } else {
                vb
            }),
            c.units() == (if c.negative() {
                -vc
            } else {
                vc
            }),
            va >= 0,
            vb >= 0,
            vc > 0,
            u > 0,
    ;
    lemma_grid_round_scale(vc, 1, u);
    lemma_grid_round_fixed(c.mag());
}

/// Where the exact quotient of two finite numbers is a binary32 number
/// other than zero, division gives that number.
pub proof fn lemma_quotient_exact(a: Binary32, b: Binary32, c: Binary32)
    requires
        a.is_finite(),
        b.is_finite(),
        c.is_finite(),
        !b.is_zero(),
        !c.is_zero(),
        a.units() * pow2(149) == c.units() * b.units(),
    ensures
        quotient(a, b) == c,
{
    let u = pow2(149) as int;
    let va = mag_value(a.mag());
    let vb = mag_value(b.mag());
    let vc = mag_value(c.mag());
    lemma_pow2_pos(149);
    lemma_mag_value_sign(a.mag());
    lemma_mag_value_sign(b.mag());
    lemma_mag_value_sign(c.mag());
    assert(va * u == vc * vb && (c.negative() <==> (a.negative() != b.negative())) && 1 * vb == vb) by (nonlinear_arith)
        requires
            a.units() * u == c.units() * b.units(),
            a.units() == (if a.negative() {
                -va
            } else {
                va
            }),
            b.units() == (if b.negative() {
                -vb
            } else {
                vb
            }),
            c.units() == (if c.negative() {
                -vc
            } else {
                vc
            }),
            va >= 0,
            vb > 0,
            vc > 0,
            u > 0,
    ;
    lemma_grid_round_scale(vc, 1, vb);
    lemma_grid_round_fixed(c.mag());
}

} // verus!
