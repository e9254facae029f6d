use mandelbrot_renderer::double::Double;
use mandelbrot_renderer::scaled::{frexp, ldexp, Mcx};

fn d(v: f64) -> Double {
    Double::new(v.to_bits())
}

fn f(v: Double) -> f64 {
    f64::from_bits(v.bits)
}

fn same(a: Double, b: f64) -> bool {
    if b.is_nan() {
        f(a).is_nan()
    } else {
        a.bits == b.to_bits()
    }
}

struct Random(u64);

impl Random {
    fn next(&mut self) -> u64 {
        self.0 ^= self.0 << 13;
        self.0 ^= self.0 >> 7;
        self.0 ^= self.0 << 17;
        self.0
    }

    /// A number of any kind, with many near the edges of the range and near each other.
    fn number(&mut self) -> f64 {
        let r = self.next();
        let fraction = match r % 5 {
            0 => 0,
            1 => (1u64 << 52) - 1,
            2 => self.next() & 0xf,
            _ => self.next() >> 12,
        };
        let field = match (r >> 8) % 8 {
            0 => 0,
            1 => self.next() % 4,
            2 => 2044 + self.next() % 4,
            3 | 4 => 1013 + self.next() % 64,
            5 => 960 + self.next() % 128,
            _ => self.next() % 2048,
        };
        f64::from_bits((r & (1 << 63)) | field << 52 | fraction)
    }
}

fn specials() -> Vec<f64> {
    vec![
        0.0,
        -0.0,
        1.0,
        -1.0,
        0.5,
        2.0,
        3.0,
        0.1,
        -0.3,
        1e-3,
        16.0,
        f64::MIN_POSITIVE,
        -f64::MIN_POSITIVE,
        5e-324,
        -5e-324,
        f64::MIN_POSITIVE - 5e-324,
        f64::MAX,
        f64::MIN,
        f64::INFINITY,
        f64::NEG_INFINITY,
        f64::NAN,
        9007199254740992.0,
        9007199254740993.0,
        4503599627370497.5,
        1e308,
        1e-308,
        1.0 + f64::EPSILON,
        1.0 - f64::EPSILON / 2.0,
    ]
}

fn pairs() -> Vec<(f64, f64)> {
    let s = specials();
    let mut out = Vec::new();
    for &a in &s {
        for &b in &s {
            out.push((a, b));
        }
    }
    let mut rng = Random(0x9e37_79b9_7f4a_7c15);
    for _ in 0..200_000 {
        let a = rng.number();
        let b = rng.number();
        out.push((a, b));
        out.push((a, f64::from_bits(a.to_bits() ^ (1 << 63) ^ (rng.next() & 7))));
    }
    out
}

#[test]
fn addition_is_that_of_the_machine() {
    for (a, b) in pairs() {
        assert!(same(d(a).add(d(b)), a + b), "{:e} + {:e}", a, b);
    }
}

#[test]
fn subtraction_is_that_of_the_machine() {
    for (a, b) in pairs() {
        assert!(same(d(a).sub(d(b)), a - b), "{:e} - {:e}", a, b);
    }
}

#[test]
fn multiplication_is_that_of_the_machine() {
    for (a, b) in pairs() {
        assert!(same(d(a).mul(d(b)), a * b), "{:e} * {:e}", a, b);
    }
}

#[test]
fn division_is_that_of_the_machine() {
    for (a, b) in pairs() {
        assert!(same(d(a).div(d(b)), a / b), "{:e} / {:e}", a, b);
    }
}

#[test]
fn remainder_is_that_of_the_machine() {
    for (a, b) in pairs().into_iter().step_by(7) {
        assert!(same(d(a).rem(d(b)), a % b), "{:e} % {:e}", a, b);
    }
    assert!(same(d(5.5).rem(d(2.0)), 1.5));
    assert!(same(d(-5.5).rem(d(2.0)), -1.5));
    assert!(same(d(1e300).rem(d(2048.0)), 1e300 % 2048.0));
}

#[test]
fn comparisons_are_those_of_the_machine() {
    for (a, b) in pairs() {
        assert_eq!(d(a).lt(d(b)), a < b);
        assert_eq!(d(a).le(d(b)), a <= b);
        assert_eq!(d(a).equals(d(b)), a == b);
    }
    assert!(d(0.0).equals(d(-0.0)));
    assert!(!d(f64::NAN).equals(d(f64::NAN)));
    assert!(d(f64::NAN).not_a_number());
    assert!(d(-0.0).zero());
}

#[test]
fn square_root_is_that_of_the_machine() {
    for (a, _) in pairs() {
        assert!(same(d(a).sqrt(), a.sqrt()), "sqrt {:e}", a);
    }
    assert!(same(d(2.0).sqrt(), 1.4142135623730951));
}

#[test]
fn roundings_are_those_of_the_machine() {
    for (a, _) in pairs() {
        assert!(same(d(a).floor(), a.floor()), "floor {:e}", a);
        assert!(same(d(a).ceil(), a.ceil()), "ceil {:e}", a);
        assert_eq!(d(a).to_int(255), a as u8 as u64, "{:e} as u8", a);
        assert_eq!(d(a).to_int(u64::MAX), a as u64, "{:e} as u64", a);
        assert!(same(d(a).neg(), -a));
        assert!(same(d(a).abs(), a.abs()));
    }
    assert!(same(d(-0.5).floor(), -1.0));
    assert!(same(d(-0.5).ceil(), -0.0));
}

#[test]
fn integers_become_the_nearest_numbers() {
    let mut rng = Random(12345);
    for _ in 0..20_000 {
        let n = rng.next() >> (rng.next() % 64);
        assert!(same(Double::from_u64(n), n as f64), "{}", n);
    }
    assert!(same(Double::from_u64(0), 0.0));
    assert!(same(Double::from_u64(u64::MAX), u64::MAX as f64));
    assert!(same(Double::from_u64(9007199254740993), 9007199254740992.0));
}

#[test]
fn powers_of_two_are_exact() {
    assert!(same(Double::pow2(0), 1.0));
    assert!(same(Double::pow2(10), 1024.0));
    assert!(same(Double::pow2(-1074), 5e-324));
    assert!(same(Double::pow2(-1075), 0.0));
    assert!(same(Double::pow2(1023), 8.98846567431158e307));
    assert!(same(Double::pow2(1024), f64::INFINITY));
    assert!(same(Double::pow2(i32::MAX), f64::INFINITY));
    assert!(same(Double::pow2(i32::MIN), 0.0));
}

#[test]
fn mantissa_and_exponent_put_a_number_together() {
    for v in [1.0, -1.0, 0.75, 1e100, -1e-100, 3e-320, 5e-324, f64::MAX, f64::MIN_POSITIVE] {
        let (m, e) = frexp(d(v));
        let x = f(m).abs();
        assert!((0.5..1.0).contains(&x), "{:e}: mantissa {}", v, x);
        assert!(same(ldexp(m, e), v), "{:e}", v);
    }
    assert_eq!(frexp(d(1.0)), (d(0.5), 1));
    assert_eq!(frexp(d(-3.0)), (d(-0.75), 2));
    assert_eq!(frexp(d(0.0)), (d(0.0), 0));
    assert!(same(frexp(d(f64::INFINITY)).0, f64::INFINITY));
    assert!(same(ldexp(d(-0.0), 5), 0.0));
    assert!(same(ldexp(d(0.75), -1), 0.375));
}

fn mcx(re: f64, im: f64) -> Mcx {
    Mcx::from_complex(d(re), d(im))
}

fn value(m: Mcx) -> (f64, f64) {
    let c = m.to_complex();
    (f(c.re), f(c.im))
}

#[test]
fn scaled_numbers_compute_as_complex_numbers() {
    assert_eq!(value(mcx(3.0, -0.5)), (3.0, -0.5));
    assert_eq!(mcx(3.0, -0.5).exp, 2);
    assert_eq!(value(mcx(3.0, -0.5).add_mcx(&mcx(0.25, 8.0))), (3.25, 7.5));
    assert_eq!(value(mcx(0.25, 8.0).add_mcx(&mcx(3.0, -0.5))), (3.25, 7.5));
    assert_eq!(value(mcx(1.0, 2.0).mul_mcx(&mcx(3.0, -1.0))), (5.0, 5.0));
    assert_eq!(value(mcx(1.0, 2.0).mul_z(d(3.0), d(-1.0))), (5.0, 5.0));
    assert_eq!(value(mcx(1.0, 2.0).mul_real(d(2.0))), (2.0, 4.0));
    assert_eq!(value(mcx(1.0, 2.0).square()), (-3.0, 4.0));
    assert_eq!(value(mcx(1.0, 2.0).add_real(d(1.0))), (2.0, 2.0));
    assert!(mcx(0.0, -0.0).vanishes());
    assert_eq!(mcx(0.0, 0.0), Mcx::zero());
    let (m, e) = mcx(3.0, 4.0).norm();
    assert_eq!(f(ldexp(m, e)), 25.0);
}

#[test]
fn scaled_numbers_leave_the_range_of_plain_ones() {
    let big = mcx(1e300, 0.0);
    let square = big.square();
    assert_eq!(value(square).0, f64::INFINITY);
    let back = square.mul_mcx(&mcx(1e-300, 0.0)).mul_mcx(&mcx(1e-300, 0.0));
    assert!((value(back).0 - 1.0).abs() < 1e-12);
    let r = square.re;
    assert!(f(r) >= 0.25 && f(r) < 2.0);
}

#[test]
fn scaled_sums_do_not_overflow() {
    let big = mcx(1e300, -1e300).square();
    for small in [mcx(1.0, 0.0), mcx(1e-300, 1e300)] {
        let sum = big.add_mcx(&small);
        assert_eq!(sum, small.add_mcx(&big));
        assert_eq!(f(sum.im) * 2f64.powi(sum.exp - big.exp), f(big.im));
        assert!(f(sum.re).is_finite());
    }
    assert_eq!(value(mcx(1024.0, 0.5).add_mcx(&mcx(0.25, -3.0))), (1024.25, -2.5));
}

#[test]
fn scaled_sums_keep_the_smaller_exponent() {
    let sum = mcx(1.0, 0.0).add_mcx(&mcx(0.5, 0.0));
    assert_eq!((f(sum.re), f(sum.im), sum.exp), (1.5, 0.0, 0));
    let sum = mcx(0.5, 0.0).add_mcx(&mcx(4.0, -0.5));
    assert_eq!((f(sum.re), f(sum.im), sum.exp), (0.5625, -0.0625, 3));
}

#[test]
fn balancing_keeps_the_number() {
    let m = Mcx { re: d(12.0), im: d(0.03125), exp: 7 }.reduce();
    assert_eq!((f(m.re), f(m.im), m.exp), (0.75, 0.001953125, 11));
    let m = Mcx { re: d(0.0), im: d(-0.125), exp: 2_000_000_000 }.reduce();
    assert_eq!((f(m.re), f(m.im), m.exp), (0.0, -0.5, 1_999_999_998));
    let m = Mcx { re: d(1.5), im: d(-0.25), exp: -9 }.reduce();
    assert_eq!((f(m.re), f(m.im), m.exp), (1.5, -0.25, -9));
}

#[test]
fn scaled_operations_stand_for_their_results() {
    let mut rng = Random(78);
    for _ in 0..2000 {
        let mut part = || (rng.next() % 2001) as f64 - 1000.0;
        let (a, b, c, e, g) = (part(), part(), part(), part(), part());
        let (x, y) = (mcx(a, b), mcx(c, e));
        assert_eq!(value(x), (a, b));
        assert_eq!(value(x.mul_mcx(&y)), (a * c - b * e, a * e + b * c));
        assert_eq!(value(x.square()), (a * a - b * b, 2.0 * a * b));
        assert_eq!(value(x.mul_real(d(g))), (a * g, b * g));
        assert_eq!(value(x.add_mcx(&y)), (a + c, b + e));
    }
}

#[test]
fn scaled_sum_does_not_depend_on_the_order() {
    let mut rng = Random(77);
    for _ in 0..2000 {
        let mut part = || (rng.next() as i64 as f64) * 2f64.powi((rng.next() % 40) as i32 - 80);
        let a = mcx(part(), part());
        let b = mcx(part(), part());
        assert_eq!(a.add_mcx(&b), b.add_mcx(&a));
    }
}
