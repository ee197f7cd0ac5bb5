//! The arithmetic on bit patterns against that of the machine.
use fishsense_laz::double::{Double, Single, HALF, HALF_OF_LARGEST, ONE, TWO};

struct Bits(u64);

impl Bits {
    fn next(&mut self) -> u64 {
        self.0 ^= self.0 << 13;
        self.0 ^= self.0 >> 7;
        self.0 ^= self.0 << 17;
        self.0
    }

    /// Patterns of every kind: any bits at all, numbers near one, short numbers,
    /// subnormal numbers, and the edges.
    fn pattern(&mut self) -> u64 {
        let edges = [
            0.0,
            -0.0,
            1.0,
            -1.0,
            f64::MAX,
            f64::MIN,
            f64::MIN_POSITIVE,
            f64::INFINITY,
            f64::NEG_INFINITY,
            f64::NAN,
            f64::EPSILON,
            f64::MAX / 2.0,
        ];
        let x = self.next();
        match self.next() % 6 {
            0 => x,
            1 => (x & 0x800f_ffff_ffff_ffff) | ((1000 + x % 47) << 52),
            2 => ((x % 4096) as f64 - 2048.0).to_bits(),
            3 => x & 0x800f_ffff_ffff_ffff,
            4 => (x & 0x8000_0000_0000_0007) | (0x3ff0_0000_0000_0000 + (x & 0x0030_0000_0000_0000)),
            _ => edges[(x % 12) as usize].to_bits(),
        }
    }
}

fn number(x: Double) -> f64 {
    f64::from_bits(x.bits)
}

fn same(got: Double, want: f64) -> bool {
    if want.is_nan() {
        got.is_nan()
    } else {
        got.bits == want.to_bits()
    }
}

#[test]
fn sums_and_differences_agree_with_the_machine() {
    let mut bits = Bits(1);
    for _ in 0..300_000 {
        let (a, b) = (Double { bits: bits.pattern() }, Double { bits: bits.pattern() });
        let (x, y) = (number(a), number(b));
        assert!(same(a.add(b), x + y), "{x:e} + {y:e}");
        assert!(same(a.sub(b), x - y), "{x:e} - {y:e}");
        assert!(same(a.neg(), -x), "-{x:e}");
    }
}

#[test]
fn products_agree_with_the_machine() {
    let mut bits = Bits(2);
    for _ in 0..300_000 {
        let (a, b) = (Double { bits: bits.pattern() }, Double { bits: bits.pattern() });
        let (x, y) = (number(a), number(b));
        assert!(same(a.mul(b), x * y), "{x:e} * {y:e}");
    }
}

#[test]
fn quotients_agree_with_the_machine() {
    let mut bits = Bits(3);
    for _ in 0..300_000 {
        let (a, b) = (Double { bits: bits.pattern() }, Double { bits: bits.pattern() });
        let (x, y) = (number(a), number(b));
        assert!(same(a.div(b), x / y), "{x:e} / {y:e}");
    }
}

#[test]
fn comparisons_agree_with_the_machine() {
    let mut bits = Bits(4);
    for _ in 0..300_000 {
        let (a, b) = (Double { bits: bits.pattern() }, Double { bits: bits.pattern() });
        let (x, y) = (number(a), number(b));
        assert_eq!(a.less(b), x < y, "{x:e} < {y:e}");
        assert_eq!(a.is_finite(), x.is_finite());
        assert_eq!(a.is_nan(), x.is_nan());
        if x != 0.0 || y != 0.0 {
            assert!(same(a.min(b), x.min(y)), "min {x:e} {y:e}");
            assert!(same(a.max(b), x.max(y)), "max {x:e} {y:e}");
        }
    }
}

#[test]
fn midpoints_agree_with_the_machine() {
    let mut bits = Bits(5);
    for _ in 0..300_000 {
        let (a, b) = (Double { bits: bits.pattern() }, Double { bits: bits.pattern() });
        let (x, y) = (number(a), number(b));
        assert!(same(a.midpoint(b), f64::midpoint(x, y)), "midpoint {x:e} {y:e}");
    }
    let (large, other) = (Double { bits: f64::MAX.to_bits() }, Double { bits: 1e308f64.to_bits() });
    assert_eq!(number(large.midpoint(other)), f64::midpoint(f64::MAX, 1e308));
}

#[test]
fn conversions_agree_with_the_machine() {
    let mut bits = Bits(6);
    for _ in 0..300_000 {
        let a = Double { bits: bits.pattern() };
        let x = number(a);
        let narrow = Single::narrow(a);
        let want = x as f32;
        if want.is_nan() {
            assert!(f32::from_bits(narrow.bits).is_nan());
        } else {
            assert_eq!(narrow.bits, want.to_bits(), "{x:e} as f32");
        }
        let s = Single { bits: (bits.next() >> 32) as u32 };
        let y = f32::from_bits(s.bits);
        assert!(same(s.widen(), f64::from(y)), "{y:e} as f64");
        assert_eq!(s.is_finite(), y.is_finite());
        assert_eq!(s.is_positive(), y.is_finite() && y > 0.0);
        if !y.is_nan() {
            assert_eq!(Single::narrow(s.widen()), s);
        }
        let small = Double { bits: (x % 1000.0).to_bits() };
        for limit in [0u32, 7, 250, u32::MAX] {
            let want = (number(small) as usize).min(limit as usize);
            assert_eq!(small.clamped_index(limit) as usize, want);
            assert_eq!(a.clamped_index(limit) as usize, (x as usize).min(limit as usize));
        }
    }
}

#[test]
fn rounding_to_single_precision_at_halfway_points() {
    // Halfway between two neighbours, and a little to either side of it.
    for base in [1.0f32, 3.5, 1.0e-40, f32::MIN_POSITIVE, 16_777_215.0, f32::MAX] {
        let next = f32::from_bits(base.to_bits() + 1);
        let half = if next.is_finite() {
            (f64::from(base) + f64::from(next)) / 2.0
        } else {
            f64::from(base) + f64::from(base - f32::from_bits(base.to_bits() - 1)) / 2.0
        };
        for x in [half, f64::from_bits(half.to_bits() - 1), f64::from_bits(half.to_bits() + 1)] {
            let got = Single::narrow(Double { bits: x.to_bits() });
            assert_eq!(got.bits, (x as f32).to_bits(), "{x:e}");
        }
    }
}

#[test]
fn counts_are_exact() {
    for n in [0u32, 1, 2, 3, 255, 256, 1920, 0x7fff_ffff, 0x8000_0000, u32::MAX] {
        assert_eq!(number(Double::from_count(n)), f64::from(n));
    }
}

#[test]
fn constants_are_what_they_are_called() {
    assert_eq!(f64::from_bits(ONE), 1.0);
    assert_eq!(f64::from_bits(HALF), 0.5);
    assert_eq!(f64::from_bits(TWO), 2.0);
    assert_eq!(f64::from_bits(HALF_OF_LARGEST), f64::MAX / 2.0);
}

#[test]
fn a_midpoint_lies_between() {
    let mut bits = Bits(7);
    for _ in 0..200_000 {
        let (a, b) = (Double { bits: bits.pattern() }, Double { bits: bits.pattern() });
        let (x, y) = (number(a), number(b));
        if x.is_finite() && y.is_finite() && x <= y {
            let m = number(a.midpoint(b));
            assert!(x <= m && m <= y, "{x:e} {y:e}");
        }
    }
}

#[test]
fn narrowing_keeps_order() {
    let mut bits = Bits(8);
    for _ in 0..200_000 {
        let (a, b) = (Double { bits: bits.pattern() }, Double { bits: bits.pattern() });
        if number(a) <= number(b) {
            let (x, y) = (Single::narrow(a), Single::narrow(b));
            assert!(f32::from_bits(x.bits) <= f32::from_bits(y.bits));
        }
    }
}

#[test]
fn one_is_neutral() {
    let mut bits = Bits(9);
    let one = Double { bits: ONE };
    for _ in 0..50_000 {
        let a = Double { bits: bits.pattern() };
        if !a.is_nan() {
            assert_eq!(a.mul(one), a);
            if a.is_finite() && number(a) != 0.0 {
                assert_eq!(a.div(a), one);
            }
        }
    }
}
