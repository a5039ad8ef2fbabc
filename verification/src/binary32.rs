//! Arithmetic on binary32 (IEEE 754 single precision) numbers that are not negative, in integers.
//!
//! A number is a multiple of 2^-149, the smallest positive binary32 number, and the specifications
//! count in that unit. Every operation gives the exact result rounded to 24 significant bits, ties to
//! even.

use vstd::prelude::*;
use vstd::arithmetic::div_mod::{lemma_fundamental_div_mod, lemma_fundamental_div_mod_converse};
use vstd::arithmetic::mul::lemma_mul_is_associative;
use vstd::arithmetic::power2::{
    lemma2_to64, lemma2_to64_rest, lemma_pow2_adds, lemma_pow2_pos, lemma_pow2_strictly_increases,
    pow2,
};
use crate::binary64::Float;
use crate::rounding::{
    lemma_exact, lemma_rounded_at, lemma_rounded_scale, lemma_signs, power, round_bits,
    rounded_dyadic, rounded_to, rounding_is_monotonic,
};

verus! {

/// The number one, counted in units.
pub open spec fn unity() -> nat {
    pow2(149)
}

/// The number nearest to `n / d` units that has at most 24 significant bits.
pub open spec fn rounded32(n: nat, d: nat) -> nat {
    rounded_to(n, d, 24)
}

/// The sum of two numbers.
pub open spec fn sum32(a: nat, b: nat) -> nat {
    rounded32(a + b, 1)
}

/// The product of two numbers.
pub open spec fn product32(a: nat, b: nat) -> nat {
    rounded32(a * b, unity())
}

/// One minus a number of at most one.
pub open spec fn complement32(a: nat) -> nat {
    rounded32((unity() - a) as nat, 1)
}

/// The binary32 number nearest to a binary64 number.
pub open spec fn narrowed(v: nat) -> nat {
    rounded32(v, pow2(925))
}

/// A binary32 number: an integer of at most 24 bits times a power of two. Of the ways to write a
/// number so, it is the one with the smallest power of two that is at least -149.
#[derive(Clone, Copy, Debug, PartialEq, Eq, Structural)]
pub struct Single {
    pub m: u64,
    pub e: i128,
}

impl Single {
    /// The format holds the number.
    pub open spec fn wf(self) -> bool {
        &&& self.m < 0x100_0000
        &&& -149 <= self.e
        &&& self.m >= 0x80_0000 || self.e == -149
    }

    /// The number, counted in units.
    pub open spec fn value(self) -> nat {
        self.m as nat * pow2((self.e + 149) as nat)
    }

    /// The number zero.
    pub fn zero() -> (r: Single)
        ensures
            r.wf(),
            r.value() == 0,
            r.e == -149,
    {
        assert(0 * pow2(0) == 0);
        Single { m: 0, e: -149 }
    }

    /// A whole number of at most 24 bits.
    pub fn from_int(n: u32) -> (r: Single)
        requires
            n < 0x100_0000,
        ensures
            r.wf(),
            r.value() == n * unity(),
            r.e <= 103,
    {
        proof {
            lemma2_to64();
            lemma_exact(n as nat, 149, 24);
        }
        round32(n as u128, 0)
    }

    /// True for the number zero.
    pub fn is_zero(self) -> (r: bool)
        ensures
            r == (self.value() == 0),
    {
        proof {
            lemma_pow2_pos((self.e + 149) as nat);
            lemma_signs(self.m as int, pow2((self.e + 149) as nat) as int);
        }
        self.m == 0
    }

    /// The product.
    pub fn times(self, other: Single) -> (r: Single)
        requires
            self.wf(),
            other.wf(),
            self.e <= 0x1_0000_0000,
            other.e <= 0x1_0000_0000,
        ensures
            r.wf(),
            r.value() == product32(self.value(), other.value()),
            r.e <= self.e + other.e + 103 || r.e <= -148,
    {
        let a: u128 = self.m as u128;
        let b: u128 = other.m as u128;
        assert(a * b <= 0x100_0000 * 0x100_0000) by (nonlinear_arith)
            requires
                a <= 0x100_0000,
                b <= 0x100_0000,
        ;
        let r = round32(a * b, self.e + other.e);
        proof {
            let p = (self.e + 149) as nat;
            let q = (other.e + 149) as nat;
            let n = (a * b) as nat;
            let (x, y) = (self.value(), other.value());
            lemma_pow2_adds(p, q);
            assert(x * y == n * pow2(p + q)) by (nonlinear_arith)
                requires
                    x == a * pow2(p),
                    y == b * pow2(q),
                    n == a * b,
                    pow2(p + q) == pow2(p) * pow2(q),
            ;
            lemma_rescaled(n, p + q, 149);
        }
        r
    }

    /// The sum.
    pub fn plus(self, other: Single) -> (r: Single)
        requires
            self.wf(),
            other.wf(),
            self.e <= 0x1_0000_0000,
            other.e <= 0x1_0000_0000,
        ensures
            r.wf(),
            r.value() == sum32(self.value(), other.value()),
            r.e <= self.e + 103 || r.e <= other.e + 103,
    {
        let (hi, lo) = if self.e >= other.e {
            (self, other)
        } else {
            (other, self)
        };
        let k: i128 = hi.e - lo.e;
        if k > 64 {
            proof {
                lemma_lost(hi, lo);
            }
            return hi;
        }
        let scale: u128 = power(k as u32);
        let hm: u128 = hi.m as u128;
        assert(hm * scale <= 0x100_0000 * 0x1_0000_0000_0000_0000) by (nonlinear_arith)
            requires
                hm <= 0x100_0000,
                scale <= 0x1_0000_0000_0000_0000,
        ;
        let x: u128 = hm * scale;
        let y: u128 = lo.m as u128;
        proof {
            let kl = (lo.e + 149) as nat;
            lemma_pow2_adds(k as nat, kl);
            lemma_mul_is_associative(hi.m as int, pow2(k as nat) as int, pow2(kl) as int);
            let p = pow2(kl);
            assert((x + y) * p == x * p + y * p) by (nonlinear_arith);
        }
        round32(x + y, lo.e)
    }

    /// One minus a number of at most one.
    pub fn complement(self) -> (r: Single)
        requires
            self.wf(),
            self.value() <= unity(),
        ensures
            r.wf(),
            r.value() == complement32(self.value()),
            r.value() <= unity(),
            r.e <= 103,
    {
        proof {
            lemma2_to64();
            lemma2_to64_rest();
            lemma_pow2_pos(149);
            lemma_exact(1, 149, 24);
            assert(1 * unity() == unity());
            rounding_is_monotonic((unity() - self.value()) as nat, unity(), 1, 24);
            if self.e > 0 {
                lemma_pow2_strictly_increases(149, (self.e + 149) as nat);
                let p = pow2((self.e + 149) as nat);
                let m = self.m;
                assert(m * p >= p) by (nonlinear_arith)
                    requires
                        m >= 1,
                        p >= 0,
                ;
            }
        }
        let k: i128 = -self.e;
        if k > 100 {
            proof {
                lemma_almost_one(self);
            }
            return Single::from_int(1);
        }
        let p = power(k as u32);
        proof {
            let kl = (self.e + 149) as nat;
            lemma_pow2_adds(k as nat, kl);
            let w = pow2(kl);
            lemma_pow2_pos(kl);
            let m = self.m;
            assert(m <= p) by (nonlinear_arith)
                requires
                    m * w <= p * w,
                    w > 0,
            ;
            assert((p - m) * w == p * w - m * w) by (nonlinear_arith);
        }
        round32(p - self.m as u128, self.e)
    }

    /// The binary32 number nearest to a binary64 number that is not negative.
    pub fn narrow(v: Float) -> (r: Single)
        requires
            v.wf(),
            v.value() >= 0,
            v.e <= 0x1_0000_0000,
        ensures
            r.wf(),
            r.value() == narrowed(v.value() as nat),
            r.e <= v.e + 103 || r.e <= -148,
    {
        let r = round32(v.m as u128, v.e);
        proof {
            let n = v.m as nat;
            let p = (v.e + 1074) as nat;
            lemma_pow2_pos(p);
            lemma_signs(n as int, pow2(p) as int);
            lemma_rescaled(n, p, 925);
        }
        r
    }

    /// The whole part, at most `max`.
    pub fn floor_upto(self, max: u32) -> (r: u32)
        requires
            self.wf(),
        ensures
            r == if self.value() / unity() > max {
                max as nat
            } else {
                self.value() / unity()
            },
    {
        proof {
            lemma_pow2_pos(149);
            lemma2_to64();
            lemma2_to64_rest();
        }
        let m: u128 = self.m as u128;
        if self.e >= 0 {
            proof {
                let z = pow2(self.e as nat);
                lemma_pow2_pos(self.e as nat);
                lemma_pow2_adds(self.e as nat, 149);
                lemma_mul_is_associative(m as int, z as int, unity() as int);
                let v = (m * z) as nat;
                lemma_fundamental_div_mod_converse(
                    (v * unity()) as int,
                    unity() as int,
                    v as int,
                    0,
                );
                assert(self.value() / unity() == v);
                if self.e > 32 {
                    lemma_pow2_strictly_increases(32, self.e as nat);
                    assert(m * z >= z) by (nonlinear_arith)
                        requires
                            m >= 1,
                            z >= 0,
                    ;
                }
            }
            if self.e > 32 {
                return max;
            }
            let p = power(self.e as u32);
            assert(m * p <= 0x100_0000 * 0x1_0000_0000_0000_0000) by (nonlinear_arith)
                requires
                    m <= 0x100_0000,
                    p <= 0x1_0000_0000_0000_0000,
            ;
            let w: u128 = m * p;
            return if w > max as u128 {
                max
            } else {
                w as u32
            };
        }
        let k: i128 = -self.e;
        proof {
            lemma_whole_part(m as nat, k as nat);
        }
        if k > 100 {
            proof {
                lemma_pow2_strictly_increases(64, k as nat);
                lemma_fundamental_div_mod_converse(m as int, pow2(k as nat) as int, 0, m as int);
            }
            return 0;
        }
        let p = power(k as u32);
        let w: u128 = m / p;
        assert(w <= m) by (nonlinear_arith)
            requires
                w == m / p,
                p >= 1,
        ;
        if w > max as u128 {
            max
        } else {
            w as u32
        }
    }
}

/// The number nearest to `m * 2^e`.
fn round32(m: u128, e: i128) -> (r: Single)
    requires
        m < 0x4000_0000_0000_0000_0000_0000_0000_0000,
        -0x100_0000_0000 <= e <= 0x100_0000_0000,
    ensures
        r.wf(),
        r.value() == rounded_dyadic(m as nat, 1, e + 149, 24),
        r.e <= e + 103 || r.e <= -148,
{
    proof {
        lemma2_to64();
    }
    let (q, y) = round_bits(m, e + 149, 24);
    Single { m: q, e: y - 149 }
}

/// A number counted in smaller units, as a dyadic number.
proof fn lemma_rescaled(n: nat, k: nat, u: nat)
    ensures
        rounded_to(n * pow2(k), pow2(u), 24) == rounded_dyadic(n, 1, k - u, 24),
{
    lemma_pow2_pos(u);
    lemma_pow2_pos(k);
    if k >= u {
        let y = (k - u) as nat;
        lemma_pow2_adds(y, u);
        lemma_mul_is_associative(n as int, pow2(y) as int, pow2(u) as int);
        lemma_rounded_scale(n * pow2(y), 1, pow2(u), 24);
        assert(1 * pow2(u) == pow2(u));
    } else {
        let y = (u - k) as nat;
        lemma_pow2_pos(y);
        lemma_pow2_adds(y, k);
        lemma_rounded_scale(n, pow2(y), pow2(k), 24);
        assert(1 * pow2(y) == pow2(y));
    }
}

/// A number much smaller than the last bit of another one is lost when the two are added.
proof fn lemma_lost(hi: Single, lo: Single)
    requires
        hi.wf(),
        lo.wf(),
        hi.e > lo.e + 64,
    ensures
        sum32(hi.value(), lo.value()) == hi.value(),
        sum32(lo.value(), hi.value()) == hi.value(),
{
    lemma2_to64();
    let kh = (hi.e + 149) as nat;
    let kl = (lo.e + 149) as nat;
    let m = hi.m as nat;
    let p = pow2(kh);
    let b = lo.value();
    lemma_pow2_pos(kl);
    lemma_pow2_adds(24, kl);
    let pl = pow2(kl);
    let lm = lo.m as nat;
    assert(b < 0x100_0000 * pl) by (nonlinear_arith)
        requires
            b == lm * pl,
            lm < 0x100_0000,
            pl > 0,
    ;
    lemma_pow2_strictly_increases(kl + 24, (kh - 1) as nat);
    lemma_pow2_adds(1, (kh - 1) as nat);
    assert(2 * b < p);
    let n = m * p + b;
    assert(n < 0x100_0000 * p) by (nonlinear_arith)
        requires
            n == m * p + b,
            b < p,
            m < 0x100_0000,
    ;
    assert(n >= 0x80_0000 * p) by (nonlinear_arith)
        requires
            n == m * p + b,
            m >= 0x80_0000,
    ;
    assert(1 * p == p);
    lemma_rounded_at(n, 1, kh, 24);
    lemma_fundamental_div_mod_converse(n as int, p as int, m as int, b as int);
    assert(p * m == m * p) by (nonlinear_arith);
}

/// One minus a tiny number is one.
proof fn lemma_almost_one(t: Single)
    requires
        t.wf(),
        t.e < -100,
    ensures
        complement32(t.value()) == unity(),
{
    lemma2_to64();
    let kl = (t.e + 149) as nat;
    let b = t.value();
    let pl = pow2(kl);
    let m = t.m as nat;
    lemma_pow2_pos(kl);
    lemma_pow2_adds(24, kl);
    assert(b < 0x100_0000 * pl) by (nonlinear_arith)
        requires
            b == m * pl,
            m < 0x100_0000,
            pl > 0,
    ;
    lemma_pow2_strictly_increases(kl + 24, 124);
    let h = pow2(125);
    lemma_pow2_adds(1, 124);
    lemma_pow2_adds(24, 125);
    assert(unity() == 0x100_0000 * h);
    assert(2 * b < h);
    if b == 0 {
        lemma_exact(1, 149, 24);
        assert(1 * unity() == unity());
    } else {
        let n = (unity() - b) as nat;
        assert(1 * h == h);
        assert(n == 0xff_ffff * h + (h - b));
        assert(n >= 0x80_0000 * h);
        assert(pow2((24 - 1) as nat) * (1 * h) == 0x80_0000 * h);
        lemma_rounded_at(n, 1, 125, 24);
        lemma_fundamental_div_mod_converse(n as int, h as int, 0xff_ffff, h - b);
        assert(h * 0x100_0000 == unity());
    }
}

proof fn lemma_whole_part(m: nat, k: nat)
    requires
        k <= 149,
    ensures
        (m * pow2((149 - k) as nat)) / unity() == m / pow2(k),
{
    let z = pow2((149 - k) as nat);
    let p = pow2(k);
    lemma_pow2_pos((149 - k) as nat);
    lemma_pow2_pos(k);
    lemma_pow2_adds(k, (149 - k) as nat);
    let a = m / p;
    let b = m % p;
    lemma_fundamental_div_mod(m as int, p as int);
    assert(m * z == a * (p * z) + b * z) by (nonlinear_arith)
        requires
            m == p * a + b,
    ;
    assert(0 <= b * z < p * z) by (nonlinear_arith)
        requires
            0 <= b < p,
            z > 0,
    ;
    lemma_fundamental_div_mod_converse((m * z) as int, (p * z) as int, a as int, (b * z) as int);
}

/// A binary64 number of at most one stays at most one.
pub proof fn narrowing_keeps_one(v: nat)
    requires
        v <= crate::binary64::one(),
    ensures
        narrowed(v) <= unity(),
{
    lemma2_to64();
    lemma_pow2_pos(925);
    lemma_pow2_adds(149, 925);
    rounding_is_monotonic(v, unity() * pow2(925), pow2(925), 24);
    lemma_rounded_scale(unity(), 1, pow2(925), 24);
    assert(1 * pow2(925) == pow2(925));
    lemma_exact(1, 149, 24);
    assert(1 * unity() == unity());
}

} // verus!
