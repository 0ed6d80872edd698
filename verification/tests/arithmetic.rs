//! The rounded operations against those of the machine.

use sfp::decimals;
use sfp::double::Double;
use sfp::time::TimeSpan;
use std::time::Duration;

fn d(x: f64) -> Double {
    Double::from_bits(x.to_bits())
}

fn same(got: Double, want: f64) {
    if want.is_nan() {
        assert!(got.is_nan(), "{:x} is a number", got.to_bits());
    } else {
        assert_eq!(got.to_bits(), want.to_bits(), "{:x} is not {}", got.to_bits(), want);
    }
}

struct Patterns {
    state: u64,
}

impl Patterns {
    fn next(&mut self) -> u64 {
        self.state = self.state.wrapping_mul(6364136223846793005).wrapping_add(1442695040888963407);
        let x = self.state ^ (self.state >> 33);
        x.wrapping_mul(0xff51afd7ed558ccd)
    }

    fn number(&mut self) -> f64 {
        let kind = self.next() % 8;
        let bits = self.next();
        match kind {
            0 => f64::from_bits(bits & 0x800f_ffff_ffff_ffff),
            1 => f64::from_bits((bits & 0x800f_ffff_ffff_ffff) | 0x7fe0_0000_0000_0000),
            2 => (bits % 1000) as f64 / 1000.0,
            3 => (bits % 5_000_000_000) as f64,
            4 => f64::from_bits((bits & 0x803f_ffff_ffff_ffff) | 0x3fc0_0000_0000_0000),
            _ => f64::from_bits(bits),
        }
    }
}

const SPECIAL: [f64; 20] = [
    0.0,
    -0.0,
    1.0,
    -1.0,
    0.5,
    1.5,
    2.0,
    f64::INFINITY,
    f64::NEG_INFINITY,
    f64::NAN,
    f64::MAX,
    f64::MIN,
    f64::MIN_POSITIVE,
    5e-324,
    -5e-324,
    2.2250738585072009e-308,
    9007199254740991.0,
    9007199254740993.0,
    18446744073709551616.0,
    18446744073709549568.0,
];

fn compare(a: f64, b: f64) {
    let (x, y) = (d(a), d(b));
    same(x.times(y), a * b);
    same(x.plus(y), a + b);
    same(x.minus(y), a - b);
    same(x.over(y), a / b);
    assert_eq!(x.lt(y), a < b);
    assert_eq!(x.le(y), a <= b);
    assert_eq!(x.to_u64(), a as u64);
    assert_eq!(x.to_usize(), a as usize);
    if !(a == 0.0 && b == 0.0) {
        same(x.larger(y), a.max(b));
    }
}

#[test]
fn special_numbers_as_the_machine() {
    for a in SPECIAL {
        for b in SPECIAL {
            compare(a, b);
        }
    }
}

#[test]
fn random_numbers_as_the_machine() {
    let mut p = Patterns { state: 1 };
    for _ in 0..60_000 {
        let (a, b) = (p.number(), p.number());
        compare(a, b);
    }
}

#[test]
fn near_numbers_as_the_machine() {
    let mut p = Patterns { state: 2 };
    for _ in 0..30_000 {
        let a = p.number();
        let b = f64::from_bits(a.to_bits() ^ (p.next() % 16) ^ ((p.next() % 2) << 63));
        compare(a, b);
    }
}

#[test]
fn whole_numbers_as_the_machine() {
    let mut p = Patterns { state: 3 };
    for n in [0, 1, 2, 3, 9007199254740991, 9007199254740992, 9007199254740993, u64::MAX] {
        same(Double::of_integer(n), n as f64);
    }
    for _ in 0..20_000 {
        let n = p.next() >> (p.next() % 64);
        same(Double::of_integer(n), n as f64);
    }
}

#[test]
fn clamping_as_the_machine() {
    same(d(0.5).clamp(d(1.0), d(2.0)), 1.0);
    same(d(1.5).clamp(d(1.0), d(2.0)), 1.5);
    same(d(2.5).clamp(d(1.0), d(2.0)), 2.0);
    same(d(f64::NAN).clamp(d(1.0), d(2.0)), f64::NAN);
    same(d(f64::NEG_INFINITY).clamp(d(1.0), d(2.0)), 1.0);
}

#[test]
fn seconds_as_the_machine() {
    let mut p = Patterns { state: 4 };
    for _ in 0..20_000 {
        let secs = p.next() >> (p.next() % 64);
        let nanos = (p.next() % 1_000_000_000) as u32;
        let span = TimeSpan { secs, nanos };
        same(span.as_secs(), Duration::new(secs, nanos).as_secs_f64());
    }
}

#[test]
fn spans_as_the_machine() {
    let mut p = Patterns { state: 5 };
    for _ in 0..20_000 {
        let x = p.number().abs();
        if x < 18446744073709551616.0 {
            let span = TimeSpan::from_secs(d(x));
            let want = Duration::from_secs_f64(x);
            assert_eq!((span.secs, span.nanos), (want.as_secs(), want.subsec_nanos()), "{}", x);
        }
    }
    for n in 0..2_000u64 {
        // Halves of a nanosecond among others.
        let x = n as f64 / 1024.0 / 1_000_000.0;
        let span = TimeSpan::from_secs(d(x));
        let want = Duration::from_secs_f64(x);
        assert_eq!((span.secs, span.nanos), (want.as_secs(), want.subsec_nanos()), "{}", x);
    }
}

#[test]
fn spans_between_times() {
    let a = TimeSpan { secs: 5, nanos: 200 };
    let b = TimeSpan { secs: 3, nanos: 500 };
    assert_eq!(a.since(b), TimeSpan { secs: 1, nanos: 999_999_700 });
    assert_eq!(b.since(a), TimeSpan { secs: 0, nanos: 0 });
    assert_eq!(a.since(a), TimeSpan { secs: 0, nanos: 0 });
}

#[test]
fn patterns_of_the_decimals() {
    let all = [
        (decimals::ZERO, 0.0),
        (decimals::TEN_THOUSANDTH, 0.0001),
        (decimals::THOUSANDTH, 0.001),
        (decimals::HUNDREDTH, 0.01),
        (decimals::FIVE_HUNDREDTHS, 0.05),
        (decimals::TENTH, 0.1),
        (decimals::FIFTEEN_HUNDREDTHS, 0.15),
        (decimals::HALF, 0.5),
        (decimals::SEVEN_TENTHS, 0.7),
        (decimals::EIGHT_TENTHS, 0.8),
        (decimals::EIGHTY_FIVE_HUNDREDTHS, 0.85),
        (decimals::NINETY_FIVE_HUNDREDTHS, 0.95),
        (decimals::ONE, 1.0),
        (decimals::ELEVEN_TENTHS, 1.1),
        (decimals::SIX_FIFTHS, 1.2),
        (decimals::FIVE_QUARTERS, 1.25),
        (decimals::THREE_HALVES, 1.5),
        (decimals::TWO, 2.0),
        (decimals::THREE, 3.0),
        (decimals::TEN, 10.0),
        (decimals::MILLION, 1e6),
        (decimals::BILLION, 1e9),
        (decimals::FIVE_BILLION, 5e9),
    ];
    for (bits, value) in all {
        assert_eq!(bits, f64::to_bits(value));
    }
}
