use rotatevideo::binary32::Single;
use rotatevideo::binary64::Float;
use rotatevideo::decimals::{parse_real, Real};
use rotatevideo::fixed::{fixed_string, put_fixed_signed};
use rotatevideo::shortest::put_shortest;

fn float(x: f64) -> Float {
    Float::from_bits(x.to_bits()).unwrap()
}

fn double(x: Float) -> f64 {
    f64::from_bits(x.to_bits())
}

/// Pseudo-random bits.
struct Bits(u64);

impl Bits {
    fn next(&mut self) -> u64 {
        self.0 ^= self.0 << 13;
        self.0 ^= self.0 >> 7;
        self.0 ^= self.0 << 17;
        self.0
    }

    /// A finite double; in every other one the exponent is near zero.
    fn double(&mut self) -> f64 {
        loop {
            let b = self.next();
            let b = if b & 1 == 0 { (b & !(0x7ff << 52)) | ((1023 - 30 + (b >> 20) % 60) << 52) } else { b };
            let x = f64::from_bits(b);
            if x.is_finite() {
                return x;
            }
        }
    }
}

fn odd_doubles() -> Vec<f64> {
    vec![
        0.0, 1.0, -1.0, 0.5, 2.0, 3.0, 0.1, 1e-300, 1e300, 5e-324, 1.5e-323, 2.2250738585072014e-308,
        2.225073858507201e-308, 1.7976931348623157e308, 9007199254740993.0, 1e15, 1e16, 1e23, 4503599627370496.5,
    ]
}

#[test]
fn doubles_compute_as_the_hardware_does() {
    let mut bits = Bits(0x9e37_79b9_7f4a_7c15);
    let mut pairs = Vec::new();
    for a in odd_doubles() {
        for b in odd_doubles() {
            pairs.push((a, b));
        }
    }
    for _ in 0..3000 {
        pairs.push((bits.double(), bits.double()));
    }
    for (a, b) in pairs {
        let (x, y) = (float(a), float(b));
        assert_eq!(double(x.plus(y)), a + b, "{a} + {b}");
        assert_eq!(double(x.minus(y)), a - b, "{a} - {b}");
        assert_eq!(double(x.times(y)), a * b, "{a} * {b}");
        if b != 0.0 {
            assert_eq!(double(x.over(y)), a / b, "{a} / {b}");
        }
        assert_eq!(x.less(y), a < b, "{a} < {b}");
        assert_eq!(x.equals(y), a == b, "{a} == {b}");
        assert_eq!(double(x.min(y)), a.min(b));
        assert_eq!(double(x.max(y)), a.max(b));
        assert_eq!(double(x.abs()), a.abs());
        assert_eq!(double(x.negated()), -a);
        assert_eq!(double(x.floor()), a.floor(), "{a}");
        assert_eq!(double(x.ceil()), a.ceil(), "{a}");
        assert_eq!(x.floor_i64(), a.floor() as i64, "{a}");
        assert_eq!(x.floor_u64(), a.floor() as u64, "{a}");
        assert_eq!(x.ceil_usize(), a.ceil() as usize, "{a}");
        assert_eq!(x.round_u64(), a.round() as u64, "{a}");
        assert_eq!(x.is_positive(), a > 0.0);
    }
}

#[test]
fn integers_become_the_nearest_doubles() {
    let mut bits = Bits(77);
    for _ in 0..2000 {
        let n = bits.next() >> (bits.next() % 64);
        assert_eq!(double(Float::from_u64(n)), n as f64, "{n}");
        let d = (bits.next() >> 40) + 1;
        let m = bits.next() >> 20;
        assert_eq!(double(Float::ratio(m, d)), m as f64 / d as f64, "{m} / {d}");
    }
}

#[test]
fn singles_compute_as_the_hardware_does() {
    let mut bits = Bits(12345);
    for _ in 0..3000 {
        let (a, b) = ((bits.next() >> 48) as u32, (bits.next() >> 48) as u32);
        let (t, u) = ((bits.next() >> 11) as f64 / (1u64 << 53) as f64, (bits.next() >> 11) as f64 / (1u64 << 53) as f64);
        let (x, y) = (Single::narrow(float(t)), Single::narrow(float(u)));
        let (f, g) = (t as f32, u as f32);
        let v = x.times(Single::from_int(a)).plus(y.times(Single::from_int(b)));
        let w = f * a as f32 + g * b as f32;
        assert_eq!(v.floor_upto(0xff_ffff), (w.floor() as u32).min(0xff_ffff), "{t} {a} {u} {b}");
        let half = x.complement().times(Single::from_int(a));
        assert_eq!(half.floor_upto(0xff_ffff), (((1.0 - f) * a as f32).floor() as u32).min(0xff_ffff));
        assert_eq!(x.is_zero(), f == 0.0);
    }
}

#[test]
fn decimals_print_as_the_standard_library_does() {
    let mut bits = Bits(4242);
    let mut all = odd_doubles();
    for _ in 0..400 {
        let x = bits.double();
        if x.abs() < 1e25 {
            all.push(x);
        }
    }
    all.push(0.125);
    all.push(2.5);
    all.push(-0.0005);
    for x in all {
        if x.abs() > 1e25 {
            continue;
        }
        assert_eq!(fixed_string(float(x), 1), format!("{x:.1}"), "{x}");
        assert_eq!(fixed_string(float(x), 6), format!("{x:.6}"), "{x}");
        assert_eq!(fixed_string(float(x), 9), format!("{x:.9}"), "{x}");
        let mut s = String::new();
        put_fixed_signed(&mut s, float(x), 4);
        assert_eq!(s, format!("{x:+.4}"), "{x}");
    }
}

fn shortest(x: f64) -> String {
    let mut s = String::new();
    put_shortest(&mut s, float(x));
    s
}

#[test]
fn shortest_notation_is_that_of_the_standard_library() {
    let mut bits = Bits(31415);
    let mut all = odd_doubles();
    for k in 0..16 {
        all.push((2.0f64).powi(k * 60 - 500));
    }
    for _ in 0..12 {
        all.push(bits.double());
    }
    for x in all {
        assert_eq!(shortest(x), format!("{x}"), "{x:e}");
    }
}

fn parsed(s: &str) -> Option<f64> {
    let c: Vec<char> = s.chars().collect();
    match parse_real(&c) {
        Some(Real::Finite(x)) => Some(double(x)),
        Some(Real::Infinite(neg)) => Some(if neg { f64::NEG_INFINITY } else { f64::INFINITY }),
        Some(Real::Undefined) => Some(f64::NAN),
        None => None,
    }
}

#[test]
fn numbers_are_read_as_the_standard_library_does() {
    let mut all: Vec<String> = [
        "0", "-0", "+1", "1.", ".5", ".", "", "+", "-", "e5", "1e", "1e+", "1e5", "1E-5", "1.5e3", "1.e2", ".1e1", "inf",
        "-INF", "Infinity", "infinit", "nan", "-NaN", "1e400", "-1e400", "1e-400", "0e999999999999999999999999",
        "1e99999999999999999999999999999999999999999", "1e-99999999999999999999999999999999999999999", "00012.500",
        "179769313486231570000e289", "1.7976931348623157e308", "1.7976931348623159e308", "4.9e-324", "2.4e-324",
        "2.5e-324", "9007199254740993", "9007199254740992.9999999999999999999", "0x10", "1_000", " 1", "1 ", "1e5.5",
        "123456789012345678901234567890", "0.000000000000000000000000000000000000000001",
    ]
    .iter()
    .map(|s| s.to_string())
    .collect();
    let mut bits = Bits(271828);
    for _ in 0..200 {
        all.push(format!("{:e}", bits.double()));
    }
    for s in all {
        let want = s.parse::<f64>().ok();
        let got = parsed(&s);
        assert_eq!(got.map(f64::to_bits), want.map(|x| if x.is_nan() { f64::NAN.to_bits() } else { x.to_bits() }), "{s:?}");
    }
}

#[test]
fn bits_round_trip() {
    let mut bits = Bits(99);
    for _ in 0..2000 {
        let x = bits.double();
        assert_eq!(double(float(x)).to_bits(), x.to_bits());
    }
    assert!(Float::from_bits(f64::NAN.to_bits()).is_none());
    assert!(Float::from_bits(f64::INFINITY.to_bits()).is_none());
}
