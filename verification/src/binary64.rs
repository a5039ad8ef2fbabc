//! Arithmetic on binary64 (IEEE 754 double precision) numbers, in integers.
//!
//! A number is a multiple of 2^-1074, the smallest positive binary64 number, and the specifications
//! count in that unit. Every operation gives the exact result rounded to 53 significant bits, ties to
//! even. Infinities and not-a-number are not among these numbers: a result that the format would
//! round to infinity keeps its value, and an exponent past 971 tells so.

use vstd::prelude::*;
use vstd::arithmetic::div_mod::{lemma_fundamental_div_mod, lemma_fundamental_div_mod_converse};
use vstd::arithmetic::mul::lemma_mul_is_associative;
use vstd::arithmetic::power2::{
    lemma2_to64, lemma2_to64_rest, lemma_pow2_adds, lemma_pow2_pos, lemma_pow2_strictly_increases,
    lemma_pow2_unfold, pow2,
};
use crate::rounding::{
    bit_length, lemma_dyadic_at, lemma_dyadic_shift, lemma_exact, lemma_halved, lemma_rounded_at,
    lemma_rounded_positive, lemma_rounded_scale, lemma_rounded_zero, lemma_signs, nearest, power,
    round_bits, rounded_dyadic, rounded_to, rounding_is_antitonic, rounding_is_monotonic,
};

verus! {

/// The number one, counted in units.
pub open spec fn one() -> nat {
    pow2(1074)
}

/// The number nearest to `n / d` units that has at most 53 significant bits.
pub open spec fn rounded(n: nat, d: nat) -> nat {
    rounded_to(n, d, 53)
}

/// A signed quotient of units, rounded: the magnitude is rounded and keeps its sign.
pub open spec fn round_signed(n: int, d: nat) -> int {
    if n < 0 {
        -(rounded((-n) as nat, d) as int)
    } else {
        rounded(n as nat, d) as int
    }
}

/// The sum of two numbers.
pub open spec fn sum(a: int, b: int) -> int {
    round_signed(a + b, 1)
}

/// The difference of two numbers.
pub open spec fn difference(a: int, b: int) -> int {
    sum(a, -b)
}

/// The product of two numbers.
pub open spec fn product(a: int, b: int) -> int {
    round_signed(a * b, one())
}

/// The quotient of two numbers, the second not zero.
pub open spec fn quotient(a: int, b: int) -> int {
    if b < 0 {
        round_signed((-a) * one(), (-b) as nat)
    } else {
        round_signed(a * one(), b as nat)
    }
}

/// The number nearest to the fraction `n / d`.
pub open spec fn fraction(n: nat, d: nat) -> nat {
    rounded(n * one(), d)
}

/// A binary64 number: an integer of at most 53 bits times a power of two. Of the ways to write a
/// number so, it is the one with the smallest power of two that is at least -1074.
#[derive(Clone, Copy, Debug, PartialEq, Eq, Structural)]
pub struct Float {
    pub neg: bool,
    pub m: u64,
    pub e: i128,
}

impl Float {
    /// The format holds the number.
    pub open spec fn wf(self) -> bool {
        &&& self.m < 0x20_0000_0000_0000
        &&& -1074 <= self.e
        &&& self.m >= 0x10_0000_0000_0000 || self.e == -1074
    }

    /// The magnitude, counted in units.
    pub open spec fn magnitude(self) -> nat {
        self.m as nat * pow2((self.e + 1074) as nat)
    }

    /// The number, counted in units.
    pub open spec fn value(self) -> int {
        if self.neg {
            -(self.magnitude() as int)
        } else {
            self.magnitude() as int
        }
    }
}

/// The number with that sign nearest to `m * 2^e`.
fn round(neg: bool, m: u128, e: i128) -> (r: Float)
    requires
        m < 0x4000_0000_0000_0000_0000_0000_0000_0000,
        -0x100_0000_0000_0000_0000_0000_0000 <= e <= 0x100_0000_0000_0000_0000_0000_0000,
    ensures
        r.wf(),
        r.neg == neg,
        r.magnitude() == rounded_dyadic(m as nat, 1, e + 1074, 53),
        r.e <= e + 76 || r.e <= -1073,
{
    proof {
        lemma2_to64();
        lemma2_to64_rest();
    }
    let (q, y) = round_bits(m, e + 1074, 53);
    Float { neg, m: q, e: y - 1074 }
}

/// A number much smaller than the last bit of another one is lost when the two are added.
pub proof fn lemma_absorbed(m: nat, k: nat, b: int)
    requires
        0x10_0000_0000_0000 <= m < 0x20_0000_0000_0000,
        k >= 12,
        -(pow2((k - 12) as nat) as int) <= b <= pow2((k - 12) as nat),
    ensures
        m * pow2(k) + b >= 0,
        rounded((m * pow2(k) + b) as nat, 1) == m * pow2(k),
{
    lemma2_to64();
    lemma2_to64_rest();
    let p = pow2(k);
    let t = pow2((k - 12) as nat);
    lemma_pow2_pos((k - 12) as nat);
    lemma_pow2_adds(12, (k - 12) as nat);
    assert(p == 0x1000 * t);
    let n = (m * p + b) as nat;
    assert(m * p >= 0x10_0000_0000_0000 * p) by (nonlinear_arith)
        requires
            m >= 0x10_0000_0000_0000,
    ;
    assert(m * p <= 0x1f_ffff_ffff_ffff * p) by (nonlinear_arith)
        requires
            m <= 0x1f_ffff_ffff_ffff,
    ;
    assert(1 * p == p);
    if b >= 0 {
        lemma_rounded_at(n, 1, k, 53);
        assert(n == p * m + b) by (nonlinear_arith)
            requires
                n == m * p + b,
        ;
        assert(p * m == m * p) by (nonlinear_arith);
        lemma_fundamental_div_mod_converse(n as int, p as int, m as int, b);
    } else if m > 0x10_0000_0000_0000 {
        assert(m * p >= 0x10_0000_0000_0001 * p) by (nonlinear_arith)
            requires
                m >= 0x10_0000_0000_0001,
        ;
        lemma_rounded_at(n, 1, k, 53);
        assert(n == (m - 1) * p + (p + b)) by (nonlinear_arith)
            requires
                n == m * p + b,
        ;
        lemma_fundamental_div_mod_converse(n as int, p as int, m - 1, p + b);
        assert(p * m == m * p) by (nonlinear_arith);
    } else {
        let j = (k - 1) as nat;
        lemma_pow2_unfold(k);
        let h = pow2(j);
        assert(1 * h == h);
        assert(n == 0x1f_ffff_ffff_ffff * h + (h + b)) by (nonlinear_arith)
            requires
                n == m * p + b,
                m == 0x10_0000_0000_0000,
                p == 2 * h,
        ;
        assert(n >= 0x10_0000_0000_0000 * h);
        assert(pow2((53 - 1) as nat) * (1 * h) == 0x10_0000_0000_0000 * h);
        lemma_rounded_at(n, 1, j, 53);
        lemma_fundamental_div_mod_converse(n as int, h as int, 0x1f_ffff_ffff_ffff, h + b);
        assert(h * 0x20_0000_0000_0000 == m * p);
    }
}

impl Float {
    /// A whole number of at most 53 bits.
    pub fn from_int(n: u64) -> (r: Float)
        requires
            n < 0x20_0000_0000_0000,
        ensures
            r.wf(),
            r.value() == n * one(),
            !r.neg,
            r.e <= 76,
    {
        let r = round(false, n as u128, 0);
        proof {
            lemma2_to64_rest();
            lemma_exact(n as nat, 1074, 53);
        }
        r
    }

    /// The number with the other sign.
    pub fn negated(self) -> (r: Float)
        requires
            self.wf(),
        ensures
            r.wf(),
            r.value() == -self.value(),
            r.neg == !self.neg,
            r.m == self.m,
            r.e == self.e,
    {
        Float { neg: !self.neg, ..self }
    }

    /// The sum.
    pub fn plus(self, other: Float) -> (r: Float)
        requires
            self.wf(),
            other.wf(),
            self.e <= 0x40_0000_0000_0000_0000_0000_0000,
            other.e <= 0x40_0000_0000_0000_0000_0000_0000,
        ensures
            r.wf(),
            r.value() == sum(self.value(), other.value()),
            r.m == 0 ==> r.neg == (self.neg && other.neg),
            r.e <= self.e + 76 || r.e <= other.e + 76,
    {
        let (hi, lo) = if self.e >= other.e {
            (self, other)
        } else {
            (other, self)
        };
        let k: i128 = hi.e - lo.e;
        if k > 64 {
            proof {
                let kh = (hi.e + 1074) as nat;
                let kl = (lo.e + 1074) as nat;
                lemma2_to64();
                lemma2_to64_rest();
                lemma_pow2_adds(53, kl);
                let b = lo.value();
                let pl = pow2(kl);
                assert(lo.m * pl <= 0x20_0000_0000_0000 * pl) by (nonlinear_arith)
                    requires
                        lo.m <= 0x20_0000_0000_0000,
                ;
                if kl + 53 < kh - 12 {
                    lemma_pow2_strictly_increases(kl + 53, (kh - 12) as nat);
                }
                lemma_absorbed(hi.m as nat, kh, b);
                lemma_absorbed(hi.m as nat, kh, -b);
            }
            return hi;
        }
        let scale: u128 = power(k as u32);
        let hm: u128 = hi.m as u128;
        assert(hm * scale <= 0x20_0000_0000_0000 * 0x1_0000_0000_0000_0000) by (nonlinear_arith)
            requires
                hm <= 0x20_0000_0000_0000,
                scale <= 0x1_0000_0000_0000_0000,
        ;
        let x: u128 = hm * scale;
        let y: u128 = lo.m as u128;
        proof {
            let kl = (lo.e + 1074) as nat;
            lemma_pow2_adds(k as nat, kl);
            lemma_mul_is_associative(hi.m as int, pow2(k as nat) as int, pow2(kl) as int);
        }
        let (neg, n) = if hi.neg == lo.neg {
            (hi.neg, x + y)
        } else if x == y {
            (false, 0)
        } else if x > y {
            (hi.neg, x - y)
        } else {
            (lo.neg, y - x)
        };
        let r = round(neg, n, lo.e);
        proof {
            let p = pow2((lo.e + 1074) as nat);
            assert((x + y) * p == x * p + y * p) by (nonlinear_arith);
            assert((x - y) * p == x * p - y * p) by (nonlinear_arith);
            assert((y - x) * p == y * p - x * p) by (nonlinear_arith);
            lemma_rounded_zero(0, 53);
            if n > 0 {
                lemma_pow2_pos((lo.e + 1074) as nat);
                lemma_signs(n as int, p as int);
                lemma_rounded_positive((n * p) as nat, 1, 53);
                assert(0 * pow2((r.e + 1074) as nat) == 0);
            }
        }
        r
    }

    /// The difference.
    pub fn minus(self, other: Float) -> (r: Float)
        requires
            self.wf(),
            other.wf(),
            self.e <= 0x40_0000_0000_0000_0000_0000_0000,
            other.e <= 0x40_0000_0000_0000_0000_0000_0000,
        ensures
            r.wf(),
            r.value() == difference(self.value(), other.value()),
            r.m == 0 ==> r.neg == (self.neg && !other.neg),
            r.e <= self.e + 76 || r.e <= other.e + 76,
    {
        self.plus(other.negated())
    }

    /// The product.
    pub fn times(self, other: Float) -> (r: Float)
        requires
            self.wf(),
            other.wf(),
            self.e <= 0x40_0000_0000_0000_0000_0000_0000,
            other.e <= 0x40_0000_0000_0000_0000_0000_0000,
        ensures
            r.wf(),
            r.value() == product(self.value(), other.value()),
            r.neg == (self.neg != other.neg),
            r.e <= self.e + other.e + 76 || r.e <= -1073,
    {
        let a: u128 = self.m as u128;
        let b: u128 = other.m as u128;
        assert(a * b <= 0x20_0000_0000_0000 * 0x20_0000_0000_0000) by (nonlinear_arith)
            requires
                a <= 0x20_0000_0000_0000,
                b <= 0x20_0000_0000_0000,
        ;
        let r = round(self.neg != other.neg, a * b, self.e + other.e);
        proof {
            let p = (self.e + 1074) as nat;
            let q = (other.e + 1074) as nat;
            let n = (a * b) as nat;
            lemma_pow2_adds(p, q);
            let (x, y) = (self.magnitude(), other.magnitude());
            assert(x * y == n * pow2(p + q)) by (nonlinear_arith)
                requires
                    x == a * pow2(p),
                    y == b * pow2(q),
                    n == a * b,
                    pow2(p + q) == pow2(p) * pow2(q),
            ;
            lemma_product_scale(n, p + q);
            lemma_signs(x as int, y as int);
            if x * y == 0 {
                lemma_pow2_pos(p + q);
                assert(n == 0) by (nonlinear_arith)
                    requires
                        n * pow2(p + q) == 0,
                        pow2(p + q) > 0,
                ;
                lemma_rounded_zero(self.e + other.e + 1074, 53);
            }
        }
        r
    }

    /// The quotient by a number other than zero.
    pub fn over(self, other: Float) -> (r: Float)
        requires
            self.wf(),
            other.wf(),
            other.m != 0,
            self.e <= 0x40_0000_0000_0000_0000_0000_0000,
            other.e <= 0x40_0000_0000_0000_0000_0000_0000,
        ensures
            r.wf(),
            r.value() == quotient(self.value(), other.value()),
            r.neg == (self.neg != other.neg),
            r.e <= self.e - other.e + 64 || r.e <= -1073,
    {
        let neg = self.neg != other.neg;
        proof {
            lemma_pow2_pos((other.e + 1074) as nat);
            lemma_signs(other.m as int, pow2((other.e + 1074) as nat) as int);
            lemma_pow2_pos(1074);
            lemma_signs(self.magnitude() as int, one() as int);
            lemma_pow2_pos((self.e + 1074) as nat);
            lemma_signs(self.m as int, pow2((self.e + 1074) as nat) as int);
        }
        if self.m == 0 {
            proof {
                let d = other.magnitude();
                lemma_pow2_pos(53);
                lemma_signs(pow2(53) as int, d as int);
                lemma_fundamental_div_mod_converse(0, d as int, 0, 0);
            }
            return Float { neg, ..self };
        }
        let (m, e) = full(self.m, self.e);
        let (dm, de) = full(other.m, other.e);
        let n: u128 = m as u128 * 0x8000_0000_0000_0000;
        let d: u128 = dm as u128;
        let q: u128 = n / d;
        let t: u128 = if n % d == 0 {
            2 * q
        } else {
            2 * q + 1
        };
        assert(0x4000_0000_0000_0000 <= q < 0x1_0000_0000_0000_0000) by (nonlinear_arith)
            requires
                q == n / d,
                0x10_0000_0000_0000 * 0x8000_0000_0000_0000 <= n < 0x20_0000_0000_0000
                    * 0x8000_0000_0000_0000,
                0x10_0000_0000_0000 <= d < 0x20_0000_0000_0000,
        ;
        let r = round(neg, t, e - de - 64);
        proof {
            let pa = (self.e + 1074) as nat;
            let pb = (other.e + 1074) as nat;
            let c = (self.e - e) as nat;
            let g = (other.e - de) as nat;
            lemma2_to64();
            lemma2_to64_rest();
            lemma_pow2_adds(c, 63);
            lemma_mul_is_associative(self.m as int, pow2(c) as int, pow2(63) as int);
            lemma_quotient_scale(self.m as nat, pa, other.m as nat, pb, c);
            lemma_dyadic_shift(n as nat, other.m as nat, pa - pb + 1011 - c, g, 53);
            lemma_sticky(n as nat, d as nat, pa - pb + 1011 - c + g);
        }
        r
    }

    /// The magnitude.
    pub fn abs(self) -> (r: Float)
        requires
            self.wf(),
        ensures
            r.wf(),
            r.value() == magnitude_of(self.value()),
            r.e == self.e,
    {
        proof {
            lemma_pow2_pos((self.e + 1074) as nat);
            lemma_signs(self.m as int, pow2((self.e + 1074) as nat) as int);
        }
        Float { neg: false, ..self }
    }

    /// The fraction `n / d`.
    pub fn ratio(n: u64, d: u64) -> (r: Float)
        requires
            n < 0x20_0000_0000_0000,
            0 < d < 0x20_0000_0000_0000,
        ensures
            r.wf(),
            r.value() == fraction(n as nat, d as nat),
            !r.neg,
            r.e <= 1214,
            n > 0 ==> r.m != 0,
    {
        let a = Float::from_int(n);
        let b = Float::from_int(d);
        proof {
            lemma_pow2_pos(1074);
            lemma_pow2_pos((b.e + 1074) as nat);
            lemma_signs(d as int, one() as int);
            lemma_signs(n as int, one() as int);
            lemma_signs(n * one(), one() as int);
            lemma_signs(b.m as int, pow2((b.e + 1074) as nat) as int);
            lemma_rounded_scale((n * one()) as nat, d as nat, one(), 53);
        }
        let r = a.over(b);
        proof {
            if n > 0 {
                lemma2_to64();
                lemma2_to64_rest();
                lemma_pow2_strictly_increases(53, 1074);
                assert(n * one() >= one()) by (nonlinear_arith)
                    requires
                        n >= 1,
                        one() >= 0,
                ;
                lemma_rounded_positive((n * one()) as nat, d as nat, 53);
                assert(0 * pow2((r.e + 1074) as nat) == 0);
            }
        }
        r
    }

    /// The whole number nearest to an integer.
    pub fn from_u64(n: u64) -> (r: Float)
        ensures
            r.wf(),
            r.value() == fraction(n as nat, 1),
            !r.neg,
            r.e <= 76,
            n > 0 ==> r.m != 0,
    {
        let r = round(false, n as u128, 0);
        proof {
            if n > 0 {
                lemma_pow2_pos(1074);
                lemma_signs(n as int, one() as int);
                lemma_rounded_positive((n * one()) as nat, 1, 53);
                assert(0 * pow2((r.e + 1074) as nat) == 0);
            }
        }
        r
    }

    /// True for numbers greater than zero.
    pub fn is_positive(self) -> (r: bool)
        requires
            self.wf(),
        ensures
            r == (self.value() > 0),
            r ==> self.m != 0 && !self.neg,
    {
        proof {
            lemma_pow2_pos((self.e + 1074) as nat);
            lemma_signs(self.m as int, pow2((self.e + 1074) as nat) as int);
        }
        !self.neg && self.m != 0
    }

    /// True when the first number is the smaller one.
    pub fn less(self, other: Float) -> (r: bool)
        requires
            self.wf(),
            other.wf(),
        ensures
            r == (self.value() < other.value()),
    {
        proof {
            lemma_order(self, other);
            lemma_order(other, self);
            lemma_pow2_pos((self.e + 1074) as nat);
            lemma_signs(self.m as int, pow2((self.e + 1074) as nat) as int);
            lemma_pow2_pos((other.e + 1074) as nat);
            lemma_signs(other.m as int, pow2((other.e + 1074) as nat) as int);
        }
        let a = self.neg && self.m != 0;
        let b = other.neg && other.m != 0;
        if a != b {
            a
        } else if a {
            other.e < self.e || (other.e == self.e && other.m < self.m)
        } else {
            self.e < other.e || (self.e == other.e && self.m < other.m)
        }
    }
}

/// The number that 64 bits in the interchange format stand for: a sign bit, 11 bits of exponent and
/// 52 of fraction. The largest exponent is that of infinities and of not-a-number.
pub open spec fn encoded(bits: u64) -> Option<int> {
    let exponent = (bits / 0x10_0000_0000_0000) % 0x800;
    let fraction_bits = (bits % 0x10_0000_0000_0000) as nat;
    if exponent == 0x7ff {
        None
    } else {
        let magnitude = if exponent == 0 {
            fraction_bits
        } else {
            (fraction_bits + 0x10_0000_0000_0000) * pow2((exponent - 1) as nat)
        };
        Some(
            if bits >= 0x8000_0000_0000_0000 {
                -(magnitude as int)
            } else {
                magnitude as int
            },
        )
    }
}

impl Float {
    /// Reads a number in the interchange format; infinities and not-a-number give nothing.
    pub fn from_bits(bits: u64) -> (r: Option<Float>)
        ensures
            match r {
                Some(f) => encoded(bits) == Some(f.value()) && f.wf() && f.e <= 971,
                None => encoded(bits) is None,
            },
    {
        let exponent: u64 = (bits / 0x10_0000_0000_0000) % 0x800;
        let low: u64 = bits % 0x10_0000_0000_0000;
        let neg = bits >= 0x8000_0000_0000_0000;
        if exponent == 0x7ff {
            None
        } else if exponent == 0 {
            proof {
                lemma2_to64();
                assert(low * 1 == low);
            }
            Some(Float { neg, m: low, e: -1074 })
        } else {
            Some(Float { neg, m: low + 0x10_0000_0000_0000, e: exponent as i128 - 1075 })
        }
    }

    /// Writes a number in the interchange format. Numbers too large for it become infinite.
    pub fn to_bits(self) -> (r: u64)
        requires
            self.wf(),
        ensures
            self.e <= 971 ==> encoded(r) == Some(self.value()),
            self.e > 971 ==> r == if self.neg {
                0xfff0_0000_0000_0000u64
            } else {
                0x7ff0_0000_0000_0000u64
            },
    {
        let sign: u64 = if self.neg {
            0x8000_0000_0000_0000
        } else {
            0
        };
        if self.e > 971 {
            return sign + 0x7ff0_0000_0000_0000;
        }
        if self.m < 0x10_0000_0000_0000 {
            proof {
                lemma2_to64();
                let m = self.m;
                assert(m * 1 == m);
            }
            return sign + self.m;
        }
        let exponent: u64 = (self.e + 1075) as u64;
        sign + exponent * 0x10_0000_0000_0000 + (self.m - 0x10_0000_0000_0000)
    }
}

/// The largest whole number that is not greater.
pub open spec fn floor_of(v: int) -> int {
    v / (one() as int)
}

/// The smallest whole number that is not smaller.
pub open spec fn ceiling_of(v: int) -> int {
    -floor_of(-v)
}

/// The nearest whole number; of two that are equally near, the one with the larger magnitude.
pub open spec fn half_away(v: int) -> int {
    if v < 0 {
        -((2 * (-v) + one()) / (2 * one() as int))
    } else {
        (2 * v + one()) / (2 * one() as int)
    }
}

/// The number, or the end of the range that it lies beyond.
pub open spec fn clamped(v: int, lo: int, hi: int) -> int {
    if v < lo {
        lo
    } else if v > hi {
        hi
    } else {
        v
    }
}

/// The whole part of a magnitude, whether there is a fraction, and whether it is at least a half.
/// Whole parts from 2^64 on all give 2^64.
struct Whole {
    part: u128,
    rest: bool,
    half: bool,
}

impl Whole {
    spec fn of(self, v: nat) -> bool {
        &&& v / one() >= 0x1_0000_0000_0000_0000 ==> self.part == 0x1_0000_0000_0000_0000
        &&& v / one() < 0x1_0000_0000_0000_0000 ==> {
            &&& self.part == v / one()
            &&& self.rest == (v % one() != 0)
            &&& self.half == (2 * (v % one()) >= one())
        }
    }
}

proof fn lemma_whole(m: nat, k: nat)
    requires
        k <= 1074,
    ensures
        one() > 0,
        (m * pow2((1074 - k) as nat)) / one() == m / pow2(k),
        ((m * pow2((1074 - k) as nat)) % one() != 0) == (m % pow2(k) != 0),
        (2 * ((m * pow2((1074 - k) as nat)) % one()) >= one()) == (2 * (m % pow2(k)) >= pow2(k)),
{
    let z = pow2((1074 - k) as nat);
    let p = pow2(k);
    lemma_pow2_pos(1074);
    lemma_pow2_pos((1074 - k) as nat);
    lemma_pow2_pos(k);
    lemma_pow2_adds(k, (1074 - k) as nat);
    let a = m / p;
    let b = m % p;
    lemma_fundamental_div_mod(m as int, p as int);
    assert(m * z == a * (p * z) + b * z) by (nonlinear_arith)
        requires
            m == p * a + b,
    ;
    assert(0 <= b * z < p * z) by (nonlinear_arith)
        requires
            0 <= b < p,
            z > 0,
    ;
    lemma_fundamental_div_mod_converse((m * z) as int, (p * z) as int, a as int, (b * z) as int);
    assert((b * z != 0) == (b != 0)) by (nonlinear_arith)
        requires
            z > 0,
    ;
    assert((2 * (b * z) >= p * z) == (2 * b >= p)) by (nonlinear_arith)
        requires
            z > 0,
    ;
}

impl Float {
    fn whole(self) -> (r: Whole)
        requires
            self.wf(),
        ensures
            r.of(self.magnitude()),
            r.part <= 0x1_0000_0000_0000_0000,
    {
        proof {
            lemma2_to64();
            lemma2_to64_rest();
            lemma_pow2_pos(1074);
        }
        let m: u128 = self.m as u128;
        if self.e >= 0 {
            proof {
                let z = pow2(self.e as nat);
                lemma_pow2_adds(self.e as nat, 1074);
                lemma_mul_is_associative(m as int, z as int, one() as int);
                let v = (m * z) as nat;
                assert(v * one() == one() * v) by (nonlinear_arith);
                lemma_fundamental_div_mod_converse(
                    (v * one()) as int,
                    one() as int,
                    v as int,
                    0,
                );
                assert(self.magnitude() / one() == v);
                assert(self.magnitude() % one() == 0);
                if self.e > 11 {
                    if self.e > 12 {
                        lemma_pow2_strictly_increases(12, self.e as nat);
                    }
                    assert(m * z >= 0x10_0000_0000_0000 * 0x1000) by (nonlinear_arith)
                        requires
                            m >= 0x10_0000_0000_0000,
                            z >= 0x1000,
                    ;
                }
            }
            if self.e > 11 {
                return Whole { part: 0x1_0000_0000_0000_0000, rest: false, half: false };
            }
            let scale: u128 = power(self.e as u32);
            proof {
                if self.e < 11 {
                    lemma_pow2_strictly_increases(self.e as nat, 11);
                }
                assert(m * scale < 0x20_0000_0000_0000 * 0x800) by (nonlinear_arith)
                    requires
                        m < 0x20_0000_0000_0000,
                        scale <= 0x800,
                        scale > 0,
                ;
            }
            return Whole { part: m * scale, rest: false, half: false };
        }
        let k: i128 = -self.e;
        proof {
            lemma_whole(m as nat, k as nat);
        }
        if k > 64 {
            proof {
                lemma_pow2_strictly_increases(64, k as nat);
                lemma_fundamental_div_mod_converse(m as int, pow2(k as nat) as int, 0, m as int);
            }
            return Whole { part: 0, rest: self.m != 0, half: false };
        }
        let scale: u128 = power(k as u32);
        assert(m / scale <= m) by (nonlinear_arith)
            requires
                scale >= 1,
        ;
        Whole { part: m / scale, rest: m % scale != 0, half: 2 * (m % scale) >= scale }
    }

    /// The largest whole number that is not greater, kept within the range of the type.
    pub fn floor_i64(self) -> (r: i64)
        requires
            self.wf(),
        ensures
            r == clamped(floor_of(self.value()), i64::MIN as int, i64::MAX as int),
    {
        let w = self.whole();
        proof {
            lemma_pow2_pos(1074);
            lemma_negative_floor(self.magnitude());
        }
        if self.neg {
            let down: u128 = if w.rest {
                w.part + 1
            } else {
                w.part
            };
            if down >= 0x8000_0000_0000_0000 {
                i64::MIN
            } else {
                -(down as i64)
            }
        } else if w.part > i64::MAX as u128 {
            i64::MAX
        } else {
            w.part as i64
        }
    }

    /// The whole part towards zero, kept within the range of the type.
    pub fn floor_u64(self) -> (r: u64)
        requires
            self.wf(),
        ensures
            r == clamped(floor_of(self.value()), 0, u64::MAX as int),
    {
        let w = self.whole();
        proof {
            lemma_pow2_pos(1074);
            lemma_negative_floor(self.magnitude());
        }
        if self.neg {
            0
        } else if w.part > u64::MAX as u128 {
            u64::MAX
        } else {
            w.part as u64
        }
    }

    /// The smallest whole number that is not smaller, kept within the range of the type.
    pub fn ceil_usize(self) -> (r: usize)
        requires
            self.wf(),
        ensures
            r == clamped(ceiling_of(self.value()), 0, usize::MAX as int),
    {
        let w = self.whole();
        proof {
            lemma_pow2_pos(1074);
            lemma_negative_floor(self.magnitude());
        }
        if self.neg {
            return 0;
        }
        let up: u128 = if w.rest {
            w.part + 1
        } else {
            w.part
        };
        if up > usize::MAX as u128 {
            usize::MAX
        } else {
            up as usize
        }
    }

    /// The nearest whole number, halves away from zero, kept within the range of the type.
    pub fn round_u64(self) -> (r: u64)
        requires
            self.wf(),
        ensures
            r == clamped(half_away(self.value()), 0, u64::MAX as int),
    {
        let w = self.whole();
        proof {
            lemma_half_up(self.magnitude());
            lemma_half_up(0);
            lemma_fundamental_div_mod_converse(0, one() as int, 0, 0);
        }
        if self.neg {
            return 0;
        }
        let near: u128 = if w.half {
            w.part + 1
        } else {
            w.part
        };
        if near > u64::MAX as u128 {
            u64::MAX
        } else {
            near as u64
        }
    }
}

impl Float {
    /// The number zero.
    pub fn zero() -> (r: Float)
        ensures
            r.wf(),
            r.value() == 0,
            !r.neg,
            r.e == -1074,
            r.m == 0,
    {
        assert(0 * pow2(0) == 0);
        Float { neg: false, m: 0, e: -1074 }
    }

    /// The smallest whole number that is not smaller.
    pub fn ceil(self) -> (r: Float)
        requires
            self.wf(),
        ensures
            r.wf(),
            r.value() == ceiling_of(self.value()) * one(),
            r.e <= 76 || r.e == self.e,
    {
        proof {
            lemma_negative_floor(self.magnitude());
            lemma_pow2_pos(1074);
        }
        if self.e >= 0 {
            proof {
                let v = self.m as nat * pow2(self.e as nat);
                lemma_pow2_adds(self.e as nat, 1074);
                lemma_mul_is_associative(self.m as int, pow2(self.e as nat) as int, one() as int);
                lemma_fundamental_div_mod_converse(
                    (v * one()) as int,
                    one() as int,
                    v as int,
                    0,
                );
                lemma_signs(v as int, one() as int);
            }
            return self;
        }
        let w = self.whole();
        proof {
            lemma2_to64();
            let k = (-self.e) as nat;
            lemma_whole(self.m as nat, k);
            lemma_pow2_unfold(k);
            lemma_pow2_pos((k - 1) as nat);
            let p = pow2(k);
            let m = self.m as nat;
            assert(m / p <= m / 2) by (nonlinear_arith)
                requires
                    p >= 2,
                    m >= 0,
            ;
        }
        if self.neg {
            proof {
                lemma_signs(w.part as int, one() as int);
            }
            Float::from_int(w.part as u64).negated()
        } else {
            let up: u64 = if w.rest {
                w.part as u64 + 1
            } else {
                w.part as u64
            };
            Float::from_int(up)
        }
    }

    /// The largest whole number that is not greater.
    pub fn floor(self) -> (r: Float)
        requires
            self.wf(),
        ensures
            r.wf(),
            r.value() == floor_of(self.value()) * one(),
            r.e <= 76 || r.e == self.e,
    {
        proof {
            let f = floor_of(self.value());
            assert((-f) * one() == -(f * one())) by (nonlinear_arith);
        }
        self.negated().ceil().negated()
    }

    /// True when the two are the same number.
    pub fn equals(self, other: Float) -> (r: bool)
        requires
            self.wf(),
            other.wf(),
        ensures
            r == (self.value() == other.value()),
    {
        !self.less(other) && !other.less(self)
    }

    /// The smaller one.
    pub fn min(self, other: Float) -> (r: Float)
        requires
            self.wf(),
            other.wf(),
        ensures
            r.wf(),
            r.value() == if other.value() < self.value() {
                other.value()
            } else {
                self.value()
            },
            r.e <= self.e || r.e <= other.e,
    {
        if other.less(self) {
            other
        } else {
            self
        }
    }

    /// The larger one.
    pub fn max(self, other: Float) -> (r: Float)
        requires
            self.wf(),
            other.wf(),
        ensures
            r.wf(),
            r.value() == if other.value() > self.value() {
                other.value()
            } else {
                self.value()
            },
            r.e <= self.e || r.e <= other.e,
    {
        if self.less(other) {
            other
        } else {
            self
        }
    }
}

proof fn lemma_negative_floor(v: nat)
    ensures
        one() > 0,
        v / one() >= 0,
        floor_of(-(v as int)) == -((v / one()) as int) - if v % one() != 0 {
            1int
        } else {
            0int
        },
{
    lemma_pow2_pos(1074);
    let d = one() as int;
    let q = (v / one()) as int;
    let r = (v % one()) as int;
    lemma_fundamental_div_mod(v as int, d);
    if r == 0 {
        assert(-(v as int) == (-q) * d + 0) by (nonlinear_arith)
            requires
                v == d * q,
        ;
        lemma_fundamental_div_mod_converse(-(v as int), d, -q, 0);
    } else {
        assert(-(v as int) == (-q - 1) * d + (d - r)) by (nonlinear_arith)
            requires
                v == d * q + r,
        ;
        lemma_fundamental_div_mod_converse(-(v as int), d, -q - 1, d - r);
    }
}

proof fn lemma_half_up(v: nat)
    ensures
        one() > 0,
        (2 * v + one()) / (2 * one()) == v / one() + if 2 * (v % one()) >= one() {
            1nat
        } else {
            0nat
        },
{
    lemma_pow2_pos(1074);
    let d = one() as int;
    let q = (v / one()) as int;
    let r = (v % one()) as int;
    lemma_fundamental_div_mod(v as int, d);
    if 2 * r >= d {
        assert(2 * v + d == (q + 1) * (2 * d) + (2 * r - d)) by (nonlinear_arith)
            requires
                v == d * q + r,
        ;
        lemma_fundamental_div_mod_converse(2 * v + d, 2 * d, q + 1, 2 * r - d);
    } else {
        assert(2 * v + d == q * (2 * d) + (2 * r + d)) by (nonlinear_arith)
            requires
                v == d * q + r,
        ;
        lemma_fundamental_div_mod_converse(2 * v + d, 2 * d, q, 2 * r + d);
    }
}

/// The magnitude of a signed number.
pub open spec fn magnitude_of(v: int) -> int {
    if v < 0 {
        -v
    } else {
        v
    }
}

/// The form of a number other than zero that uses all 53 bits, whatever its exponent.
fn full(m: u64, e: i128) -> (r: (u64, i128))
    requires
        0 < m < 0x20_0000_0000_0000,
        -1074 <= e <= 0x40_0000_0000_0000_0000_0000_0000,
    ensures
        0x10_0000_0000_0000 <= r.0 < 0x20_0000_0000_0000,
        e - 52 <= r.1 <= e,
        r.0 == m * pow2((e - r.1) as nat),
{
    let len = bit_length(m as u128);
    proof {
        lemma2_to64();
        lemma2_to64_rest();
        if len > 53 {
            lemma_pow2_strictly_increases(53, len as nat);
            if len > 54 {
                lemma_pow2_strictly_increases(53, (len - 1) as nat);
            }
        }
    }
    let k: u32 = 53 - len;
    let p = power(k);
    proof {
        lemma_pow2_adds(len as nat, k as nat);
        lemma_pow2_adds((len - 1) as nat, k as nat);
        let big = pow2(len as nat);
        let small = pow2((len - 1) as nat);
        assert(small * p <= m * p < big * p) by (nonlinear_arith)
            requires
                small <= m < big,
                p > 0,
        ;
    }
    ((m as u128 * p) as u64, e - k as i128)
}

/// Numbers are ordered by exponent first.
proof fn lemma_order(a: Float, b: Float)
    requires
        a.wf(),
        b.wf(),
    ensures
        (a.e < b.e || (a.e == b.e && a.m < b.m)) == (a.magnitude() < b.magnitude()),
{
    let pa = pow2((a.e + 1074) as nat);
    let pb = pow2((b.e + 1074) as nat);
    lemma_pow2_pos((a.e + 1074) as nat);
    lemma_pow2_pos((b.e + 1074) as nat);
    if a.e == b.e {
        assert((a.m * pa < b.m * pa) == (a.m < b.m)) by (nonlinear_arith)
            requires
                pa > 0,
        ;
    } else if a.e < b.e {
        lemma_apart(a, b);
    } else {
        lemma_apart(b, a);
    }
}

proof fn lemma_apart(a: Float, b: Float)
    requires
        a.wf(),
        b.wf(),
        a.e < b.e,
    ensures
        a.magnitude() < b.magnitude(),
{
    let pa = pow2((a.e + 1074) as nat);
    let pb = pow2((b.e + 1074) as nat);
    lemma_pow2_pos((a.e + 1074) as nat);
    lemma_pow2_unfold((a.e + 1075) as nat);
    if a.e + 1 < b.e {
        lemma_pow2_strictly_increases((a.e + 1075) as nat, (b.e + 1074) as nat);
    }
    assert(a.m * pa < b.m * pb) by (nonlinear_arith)
        requires
            a.m < 0x20_0000_0000_0000,
            b.m >= 0x10_0000_0000_0000,
            pb >= 2 * pa,
            pa > 0,
    ;
}

/// The product of two magnitudes as one dyadic number.
proof fn lemma_product_scale(n: nat, k: nat)
    ensures
        rounded(n * pow2(k), one()) == rounded_dyadic(n, 1, k - 1074, 53),
{
    lemma_pow2_pos(1074);
    lemma_pow2_pos(k);
    if k >= 1074 {
        let y = (k - 1074) as nat;
        lemma_pow2_adds(y, 1074);
        lemma_mul_is_associative(n as int, pow2(y) as int, one() as int);
        lemma_rounded_scale(n * pow2(y), 1, one(), 53);
        assert(1 * one() == one());
    } else {
        let y = (1074 - k) as nat;
        lemma_pow2_pos(y);
        lemma_pow2_adds(y, k);
        lemma_rounded_scale(n, pow2(y), pow2(k), 53);
        assert(1 * pow2(y) == pow2(y));
    }
}

/// The quotient of two magnitudes as one dyadic quotient.
proof fn lemma_quotient_scale(m: nat, pa: nat, d: nat, pb: nat, c: nat)
    requires
        d > 0,
        c <= 1011,
    ensures
        rounded((m * pow2(pa)) * one(), d * pow2(pb)) == rounded_dyadic(
            m * pow2(c + 63),
            d,
            pa - pb + 1011 - c, 53,
        ),
{
    let x = pa - pb + 1011 - c;
    let n = m * pow2(c + 63);
    lemma_pow2_adds(pa, 1074);
    lemma_mul_is_associative(m as int, pow2(pa) as int, one() as int);
    lemma_pow2_pos(pb);
    if x >= 0 {
        let px = pow2(x as nat);
        lemma_pow2_pos(x as nat);
        lemma_pow2_adds(c + 63, x as nat);
        lemma_pow2_adds(c + 63 + x as nat, pb);
        assert(c + 63 + x as nat + pb == pa + 1074);
        assert((n * px) * pow2(pb) == m * pow2(pa + 1074)) by (nonlinear_arith)
            requires
                n == m * pow2(c + 63),
                pow2(c + 63 + x as nat) == pow2(c + 63) * px,
                pow2(pa + 1074) == pow2(c + 63 + x as nat) * pow2(pb),
        ;
        lemma_rounded_scale(n * px, d, pow2(pb), 53);
    } else {
        let y = (-x) as nat;
        let z = (pa + 1011 - c) as nat;
        lemma_pow2_pos(y);
        lemma_pow2_pos(z);
        lemma_pow2_adds(c + 63, z);
        lemma_pow2_adds(y, z);
        assert(c + 63 + z == pa + 1074);
        assert(y + z == pb);
        assert(n * pow2(z) == m * pow2(pa + 1074)) by (nonlinear_arith)
            requires
                n == m * pow2(c + 63),
                pow2(pa + 1074) == pow2(c + 63) * pow2(z),
        ;
        assert((d * pow2(y)) * pow2(z) == d * pow2(pb)) by (nonlinear_arith)
            requires
                pow2(pb) == pow2(y) * pow2(z),
        ;
        assert(d * pow2(y) > 0) by (nonlinear_arith)
            requires
                d > 0,
                pow2(y) > 0,
        ;
        lemma_rounded_scale(n, d * pow2(y), pow2(z), 53);
    }
}

/// The integer nearest to a quotient shows in the whole part of the quotient and one more bit that
/// tells whether something is left.
proof fn lemma_nearest_sticky(n: nat, d: nat, h: nat)
    requires
        d > 0,
        h > 0,
    ensures
        nearest(n, d * (2 * h)) == nearest(
            2 * (n / d) + if n % d == 0 {
                0nat
            } else {
                1nat
            },
            2 * (2 * h),
        ),
{
    let q = n / d;
    let r = n % d;
    let p = 2 * h;
    let w = q / p;
    let u = q % p;
    let bit: nat = if r == 0 {
        0
    } else {
        1
    };
    lemma_fundamental_div_mod(n as int, d as int);
    lemma_fundamental_div_mod(q as int, p as int);
    assert(d * p > 0) by (nonlinear_arith)
        requires
            d > 0,
            p > 0,
    ;
    assert(n == w * (d * p) + (d * u + r)) by (nonlinear_arith)
        requires
            n == d * q + r,
            q == p * w + u,
    ;
    assert(0 <= d * u + r < d * p) by (nonlinear_arith)
        requires
            0 <= u < p,
            0 <= r < d,
    ;
    lemma_fundamental_div_mod_converse(n as int, (d * p) as int, w as int, (d * u + r) as int);
    let t = 2 * q + bit;
    assert(t == w * (2 * p) + (2 * u + bit)) by (nonlinear_arith)
        requires
            t == 2 * q + bit,
            q == p * w + u,
    ;
    lemma_fundamental_div_mod_converse(t as int, (2 * p) as int, w as int, (2 * u + bit) as int);
    assert(d * p == 2 * (d * h)) by (nonlinear_arith)
        requires
            p == 2 * h,
    ;
    if u < h {
        assert(d * u + r < d * h) by (nonlinear_arith)
            requires
                u + 1 <= h,
                r < d,
        ;
    } else {
        assert(d * u >= d * h) by (nonlinear_arith)
            requires
                u >= h,
        ;
        if u > h {
            assert(d * u > d * h) by (nonlinear_arith)
                requires
                    u > h,
                    d > 0,
            ;
        }
    }
}

/// Rounding a quotient from its whole part, which has bits to spare, and the one bit that tells
/// whether something is left.
proof fn lemma_sticky(n: nat, d: nat, x: int)
    requires
        d > 0,
        0x4000_0000_0000_0000 <= n / d < 0x1_0000_0000_0000_0000,
    ensures
        rounded_dyadic(n, d, x, 53) == rounded_dyadic(
            2 * (n / d) + if n % d == 0 {
                0nat
            } else {
                1nat
            },
            1,
            x - 1, 53,
        ),
{
    let q = n / d;
    let t = 2 * q + if n % d == 0 {
        0nat
    } else {
        1nat
    };
    lemma2_to64();
    lemma2_to64_rest();
    let s0: nat = if q >= 0x8000_0000_0000_0000 {
        11
    } else {
        10
    };
    let s: nat = if x + s0 >= 0 {
        s0
    } else {
        (-x) as nat
    };
    lemma_pow2_adds(53, s0);
    lemma_pow2_adds(52, s0);
    if s > s0 {
        lemma_pow2_strictly_increases(s0, s);
    }
    lemma_pow2_unfold(s + 1);
    lemma_pow2_unfold(s);
    let p = pow2(s);
    let h = pow2((s - 1) as nat);
    lemma_pow2_pos((s - 1) as nat);
    lemma_fundamental_div_mod(n as int, d as int);
    let big = pow2(53) * p;
    assert(q < big);
    let r = n % d;
    assert(n < d * big) by (nonlinear_arith)
        requires
            n == d * q + r,
            r < d,
            q + 1 <= big,
    ;
    assert(d * (pow2(53) * p) == pow2(53) * (d * p)) by (nonlinear_arith);
    let small = pow2(52) * p;
    if x + s > 0 {
        assert(q >= small);
        assert(n >= d * small) by (nonlinear_arith)
            requires
                n == d * q + r,
                q >= small,
        ;
        assert(d * (pow2(52) * p) == pow2(52) * (d * p)) by (nonlinear_arith);
    }
    lemma_dyadic_at(n, d, x, s, 53);
    assert(1 * pow2(s + 1) == 2 * p);
    lemma_dyadic_at(t, 1, x - 1, s + 1, 53);
    lemma_nearest_sticky(n, d, h);
}

/// Rounding changes a number by at most one part in 2^53.
pub proof fn rounding_error(n: nat)
    ensures
        pow2(53) * magnitude_of(rounded(n, 1) - n) <= n,
{
    lemma2_to64();
    lemma2_to64_rest();
    if n < pow2(53) {
        assert(nearest(n, 1) == n);
    } else {
        lemma_rounding_error(n, 1);
    }
}

/// Rounding a quotient changes it by at most one part in 2^53, unless it is very small.
pub proof fn lemma_rounding_error(n: nat, d: nat)
    requires
        d > 0,
        n >= pow2(53) * d,
    ensures
        pow2(53) * magnitude_of(rounded(n, d) * d - n) <= n,
    decreases n / d,
{
    lemma2_to64();
    lemma2_to64_rest();
    let p = pow2(53);
    lemma_halved(n, d, p);
    let r = rounded(n, 2 * d);
    assert((2 * r) * d == r * (2 * d)) by (nonlinear_arith);
    if n < p * (2 * d) {
        let q = n / (2 * d);
        let m = n % (2 * d);
        lemma_fundamental_div_mod(n as int, (2 * d) as int);
        assert(q * (2 * d) == (2 * d) * q) by (nonlinear_arith);
        assert((q + 1) * (2 * d) == (2 * d) * q + 2 * d) by (nonlinear_arith);
        let err = magnitude_of(r * (2 * d) - n);
        assert(err <= d);
        assert(p * err <= n) by (nonlinear_arith)
            requires
                err <= d,
                p * d <= n,
                p >= 0,
        ;
    } else {
        lemma_rounding_error(n, 2 * d);
    }
}

/// A whole number of at most 53 bits stays what it is.
pub proof fn whole_numbers_are_exact(n: nat)
    requires
        n < 0x20_0000_0000_0000,
    ensures
        fraction(n, 1) == n * one(),
        rounded(n * one(), 1) == n * one(),
{
    lemma2_to64_rest();
    lemma_exact(n, 1074, 53);
}

/// A multiple of one half with at most 53 bits is exact.
pub proof fn halves_are_exact(n: nat)
    requires
        n < 0x20_0000_0000_0000,
    ensures
        one() == 2 * pow2(1073),
        fraction(n, 2) == n * pow2(1073),
        rounded(n * pow2(1073), 1) == n * pow2(1073),
{
    let h = pow2(1073);
    lemma2_to64_rest();
    lemma_pow2_unfold(1074);
    lemma_exact(n, 1073, 53);
    assert(n * (2 * h) == (n * h) * 2) by (nonlinear_arith);
    lemma_rounded_scale(n * h, 1, 2, 53);
    assert(1 * 2 == 2);
}

/// A product of whole numbers of at most 53 bits is exact when it is one, too.
pub proof fn whole_products_are_exact(a: nat, b: nat)
    requires
        a * b < 0x20_0000_0000_0000,
    ensures
        product((a * one()) as int, (b * one()) as int) == (a * b) * one(),
{
    lemma_pow2_pos(1074);
    let u = one();
    assert((a * u) * (b * u) == ((a * b) * u) * u) by (nonlinear_arith);
    lemma_rounded_scale((a * b) * u, 1, u, 53);
    assert(1 * u == u);
    whole_numbers_are_exact(a * b);
    lemma_signs((a * u) as int, (b * u) as int);
}

/// Zero times a number is zero.
pub proof fn zero_product(a: int)
    ensures
        product(0, a) == 0,
        product(a, 0) == 0,
{
    lemma_pow2_pos(1074);
    lemma_pow2_pos(53);
    lemma_signs(pow2(53) as int, one() as int);
    assert(0 * a == 0);
    assert(a * 0 == 0);
    lemma_fundamental_div_mod_converse(0, one() as int, 0, 0);
}

/// The reciprocal of a number from eight on is less than a quarter.
pub proof fn small_fractions(d: nat)
    requires
        d >= 8,
    ensures
        4 * fraction(1, d) < one(),
{
    lemma_pow2_pos(1074);
    assert(1 * one() == one());
    rounding_is_antitonic(one(), 8, d, 53);
    let e = pow2(1071);
    lemma2_to64();
    lemma_pow2_pos(1071);
    lemma_pow2_adds(3, 1071);
    assert(one() == 8 * e);
    lemma_rounded_scale(e, 1, 8, 53);
    assert(e * 8 == one());
    assert(1 * 8 == 8);
    lemma2_to64_rest();
    lemma_exact(1, 1071, 53);
    assert(1 * e == e);
}

/// The difference of two different numbers is not zero.
pub proof fn differences_do_not_vanish(a: int, b: int)
    requires
        a != b,
    ensures
        difference(a, b) != 0,
{
    let n = a - b;
    lemma_rounded_positive(magnitude_of(n) as nat, 1, 53);
}

impl Float {
    /// A number other than zero has a bit that is set.
    pub proof fn lemma_nonzero(self)
        ensures
            self.value() != 0 ==> self.m != 0,
            self.m != 0 ==> self.value() != 0,
    {
        lemma_pow2_pos((self.e + 1074) as nat);
        lemma_signs(self.m as int, pow2((self.e + 1074) as nat) as int);
    }
}

impl Float {
    /// A larger magnitude has no smaller exponent.
    pub proof fn lemma_larger_exponent(self, other: Float)
        requires
            self.wf(),
            other.wf(),
            self.magnitude() <= other.magnitude(),
        ensures
            self.e <= other.e,
    {
        lemma_order(other, self);
    }

    /// A number divided by one or more has no larger exponent.
    pub proof fn lemma_divided(self, q: Float, d: nat)
        requires
            self.wf(),
            q.wf(),
            d >= one(),
            q.value() == quotient(self.value(), d as int),
        ensures
            q.e <= self.e,
    {
        let u = one();
        let m = self.magnitude();
        lemma_pow2_pos(1074);
        lemma2_to64_rest();
        lemma_exact(self.m as nat, (self.e + 1074) as nat, 53);
        lemma_rounded_scale(m, 1, u, 53);
        assert(1 * u == u);
        rounding_is_antitonic(m * u, u, d, 53);
        assert((-m) * u == -(m * u)) by (nonlinear_arith);
        assert(m * u >= 0);
        assert((-self.value()) * u == -(self.value() * u)) by (nonlinear_arith);
        assert(q.magnitude() <= m);
        q.lemma_larger_exponent(self);
    }

    /// A number of at most one has a small exponent.
    pub proof fn lemma_at_most_one(self)
        requires
            self.wf(),
            self.magnitude() <= one(),
        ensures
            self.e <= 0,
    {
        if self.e > 0 {
            lemma_pow2_strictly_increases(1074, (self.e + 1074) as nat);
            let p = pow2((self.e + 1074) as nat);
            let m = self.m;
            assert(m * p >= p) by (nonlinear_arith)
                requires
                    m >= 1,
                    p >= 0,
            ;
        }
    }
}

/// What a number is above the whole number below it lies between zero and one.
pub proof fn fractions_stay_below_one(v: int)
    ensures
        0 <= difference(v, floor_of(v) * one()) <= one(),
{
    lemma_pow2_pos(1074);
    let u = one() as int;
    let f = floor_of(v);
    lemma_fundamental_div_mod(v, u);
    assert(f * u == u * f) by (nonlinear_arith);
    let r = v - f * u;
    assert(0 <= r < u);
    rounding_is_monotonic(r as nat, one(), 1, 53);
    whole_numbers_are_exact(1);
    assert(1 * one() == one());
}

} // verus!
