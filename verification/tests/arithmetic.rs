use edm_gtr::num::binary32::Binary32;

fn b(x: f32) -> Binary32 {
    Binary32::from_bits(x.to_bits())
}

fn f(x: Binary32) -> f32 {
    f32::from_bits(x.to_bits())
}

fn same(got: Binary32, want: f32) -> bool {
    if want.is_nan() {
        f(got).is_nan()
    } else {
        got.to_bits() == want.to_bits()
    }
}

struct Lcg(u64);

impl Lcg {
    fn next(&mut self) -> u32 {
        self.0 = self.0.wrapping_mul(6364136223846793005).wrapping_add(1442695040888963407);
        (self.0 >> 32) as u32
    }

    fn sample(&mut self) -> f32 {
        let r = self.next();
        let kind = self.next() % 8;
        let bits = match kind {
            0 => r,
            1 => r & 0x80ff_ffff,
            2 => (r & 0x807f_ffff) | (((self.next() % 40) + 107) << 23),
            3 => (r & 0x807f_ffff) | (((self.next() % 8) + 123) << 23),
            4 => (r & 0x8000_0000) | (((self.next() % 254) + 1) << 23) | (r & 3),
            5 => (r & 0x8000_0000) | (((self.next() % 254) + 1) << 23) | 0x7f_fffc | (r & 3),
            6 => (r & 0x807f_ffff) | (((self.next() % 30) + 225) << 23),
            _ => (r & 0x807f_ffff) | ((self.next() % 30) << 23),
        };
        f32::from_bits(bits)
    }
}

#[test]
fn times_matches_the_hardware() {
    let mut g = Lcg(1);
    for _ in 0..200000 {
        let x = g.sample();
        let y = g.sample();
        assert!(same(b(x).times(b(y)), x * y), "{:?} * {:?}", x, y);
    }
}

#[test]
fn plus_matches_the_hardware() {
    let mut g = Lcg(2);
    for _ in 0..200000 {
        let x = g.sample();
        let y = g.sample();
        assert!(same(b(x).plus(b(y)), x + y), "{:?} + {:?}", x, y);
    }
}

#[test]
fn minus_matches_the_hardware() {
    let mut g = Lcg(3);
    for _ in 0..200000 {
        let x = g.sample();
        let y = g.sample();
        assert!(same(b(x).minus(b(y)), x - y), "{:?} - {:?}", x, y);
    }
}

#[test]
fn over_matches_the_hardware() {
    let mut g = Lcg(4);
    for _ in 0..200000 {
        let x = g.sample();
        let y = g.sample();
        assert!(same(b(x).over(b(y)), x / y), "{:?} / {:?}", x, y);
    }
}

#[test]
fn near_neighbours_add_and_subtract_exactly() {
    let mut g = Lcg(5);
    for _ in 0..100000 {
        let x = g.sample();
        let step = (g.next() % 7) as i64 - 3;
        let y = f32::from_bits((x.to_bits() as i64 + step) as u32);
        assert!(same(b(x).minus(b(y)), x - y), "{:?} - {:?}", x, y);
        assert!(same(b(x).plus(b(-y)), x + (-y)), "{:?} + {:?}", x, -y);
        assert!(same(b(x).over(b(y)), x / y), "{:?} / {:?}", x, y);
    }
}

#[test]
fn special_values() {
    let inf = f32::INFINITY;
    let vals = [0.0f32, -0.0, 1.0, -1.0, inf, -inf, f32::NAN, f32::MAX, f32::MIN_POSITIVE, 1e-45, -1e-45, 0.5, 3.0];
    for &x in vals.iter() {
        for &y in vals.iter() {
            assert!(same(b(x).times(b(y)), x * y), "{:?} * {:?}", x, y);
            assert!(same(b(x).plus(b(y)), x + y), "{:?} + {:?}", x, y);
            assert!(same(b(x).minus(b(y)), x - y), "{:?} - {:?}", x, y);
            assert!(same(b(x).over(b(y)), x / y), "{:?} / {:?}", x, y);
            assert_eq!(b(x).lt(b(y)), x < y, "{:?} < {:?}", x, y);
            assert_eq!(b(x).gt(b(y)), x > y, "{:?} > {:?}", x, y);
            assert_eq!(b(x).le(b(y)), x <= y, "{:?} <= {:?}", x, y);
        }
        assert!(same(b(x).abs(), x.abs()));
        assert!(same(b(x).neg(), -x));
    }
}

#[test]
fn order_matches_the_hardware() {
    let mut g = Lcg(6);
    for _ in 0..200000 {
        let x = g.sample();
        let y = g.sample();
        assert_eq!(b(x).lt(b(y)), x < y, "{:?} < {:?}", x, y);
        assert_eq!(b(x).gt(b(y)), x > y, "{:?} > {:?}", x, y);
        assert_eq!(b(x).le(b(y)), x <= y, "{:?} <= {:?}", x, y);
        assert_eq!(b(x).is_nan(), x.is_nan());
        if !(x == 0.0 && y == 0.0) {
            assert!(same(b(x).max(b(y)), x.max(y)), "max {:?} {:?}", x, y);
            assert!(same(b(x).min(b(y)), x.min(y)), "min {:?} {:?}", x, y);
        }
        let z = g.sample();
        if x <= y {
            assert!(same(b(z).clamp(b(x), b(y)), z.clamp(x, y)), "clamp {:?} {:?} {:?}", z, x, y);
        }
    }
}

#[test]
fn exact_results_come_out_exact() {
    assert_eq!(f(b(1.0).plus(b(1.0))), 2.0);
    assert_eq!(f(b(1.0).plus(b(1.5))), 2.5);
    assert_eq!(f(b(0.75).minus(b(1.0))), -0.25);
    assert_eq!(f(b(3.0).times(b(-0.5))), -1.5);
    assert_eq!(f(b(1.0).over(b(4.0))), 0.25);
    assert_eq!(f(b(16777216.0).plus(b(1.0))), 16777216.0);
    assert_eq!(f(b(16777216.0).plus(b(3.0))), 16777220.0);
    assert_eq!(f(b(1.0).over(b(3.0))), 0.33333334);
    assert_eq!(b(1.0).minus(b(1.0)).to_bits(), 0);
    assert_eq!(b(-0.0).plus(b(-0.0)).to_bits(), 0x8000_0000);
    assert_eq!(b(-0.0).plus(b(0.0)).to_bits(), 0);
    assert_eq!(f(b(f32::MAX).plus(b(f32::MAX))), f32::INFINITY);
    assert_eq!(f(b(f32::MAX).times(b(2.0))), f32::INFINITY);
    assert_eq!(f(b(1e-45).times(b(0.5))), 0.0);
    assert_eq!(f(b(1e-45).times(b(0.75))), 1e-45);
    assert_eq!(f(b(1.0).over(b(0.0))), f32::INFINITY);
    assert_eq!(f(b(-1.0).over(b(0.0))), f32::NEG_INFINITY);
}
