//! Arithmetic that may leave the finite numbers.

use vstd::prelude::*;
use vstd::arithmetic::power2::{
    lemma2_to64, lemma2_to64_rest, lemma_pow2_adds, lemma_pow2_pos, lemma_pow2_strictly_increases,
    pow2,
};
use crate::binary64::{
    clamped, fraction, half_away, magnitude_of, one, product, quotient, rounding_error, sum, Float,
};
use crate::decimals::{lemma_finite, limit, Real, RealView};
use crate::fixed::{fixed, put_fixed};

verus! {

impl Real {
    /// A finite number is one that the format holds.
    pub open spec fn wf(self) -> bool {
        self matches Real::Finite(x) ==> x.wf() && x.e <= 971
    }
}

impl RealView {
    /// What a finite number counts.
    pub open spec fn amount(self) -> int {
        match self {
            RealView::Finite(v) => v,
            _ => 0,
        }
    }

    /// The number has a minus sign.
    pub open spec fn below(self) -> bool {
        match self {
            RealView::Finite(v) => v < 0,
            RealView::NegativeZero => true,
            RealView::Infinite(neg) => neg,
            RealView::Undefined => false,
        }
    }

    /// One of the two zeros.
    pub open spec fn is_zero(self) -> bool {
        self == RealView::Finite(0) || self is NegativeZero
    }
}

/// A result with a sign, as the format has it: past the largest number it is infinite.
pub open spec fn real_of(neg: bool, v: int) -> RealView {
    if magnitude_of(v) >= limit() {
        RealView::Infinite(neg)
    } else if neg && v == 0 {
        RealView::NegativeZero
    } else {
        RealView::Finite(v)
    }
}

/// A result as the format has it.
pub fn to_real(x: Float) -> (r: Real)
    requires
        x.wf(),
    ensures
        r@ == real_of(x.neg, x.value()),
        r.wf(),
{
    proof {
        lemma_finite(x);
        x.lemma_nonzero();
    }
    if x.e > 971 {
        Real::Infinite(x.neg)
    } else {
        Real::Finite(x)
    }
}

/// A whole number.
pub open spec fn whole_real(n: nat) -> RealView {
    real_of(false, fraction(n, 1) as int)
}

/// Whole numbers that a count can hold are finite.
pub proof fn lemma_whole_real(n: nat)
    requires
        n <= u64::MAX,
    ensures
        whole_real(n) == RealView::Finite(fraction(n, 1) as int),
{
    let u = one();
    lemma_pow2_pos(1074);
    rounding_error(n * u);
    lemma2_to64();
    lemma2_to64_rest();
    lemma_pow2_strictly_increases(65, 1024);
    lemma_pow2_adds(64, 1);
    let p = pow2(1024);
    assert(n * u <= 0xffff_ffff_ffff_ffff * u) by (nonlinear_arith)
        requires
            n <= 0xffff_ffff_ffff_ffff,
            u > 0,
    ;
    assert(p * u >= 0x2_0000_0000_0000_0000 * u) by (nonlinear_arith)
        requires
            p >= 0x2_0000_0000_0000_0000,
            u > 0,
    ;
}

/// A whole number.
pub fn to_whole(n: u64) -> (r: Real)
    ensures
        r@ == whole_real(n as nat),
        r.wf(),
{
    to_real(Float::from_u64(n))
}

/// A quotient of numbers.
pub open spec fn real_quotient(n: RealView, d: RealView) -> RealView {
    let neg = n.below() != d.below();
    match (n, d) {
        (RealView::Undefined, _) | (_, RealView::Undefined) => RealView::Undefined,
        (RealView::Infinite(_), RealView::Infinite(_)) => RealView::Undefined,
        (RealView::Infinite(_), _) => RealView::Infinite(neg),
        (_, RealView::Infinite(_)) => real_of(neg, 0),
        _ => if d.amount() != 0 {
            real_of(neg, quotient(n.amount(), d.amount()))
        } else if n.amount() != 0 {
            RealView::Infinite(neg)
        } else {
            RealView::Undefined
        },
    }
}

/// Divides numbers.
pub fn divide(n: Real, d: Real) -> (r: Real)
    requires
        n.wf(),
        d.wf(),
    ensures
        r@ == real_quotient(n@, d@),
        r.wf(),
{
    proof {
        lemma_pow2_adds(1024, 1074);
        lemma_pow2_pos(2098);
        assert(0 * pow2(0) == 0);
    }
    match (n, d) {
        (Real::Undefined, _) | (_, Real::Undefined) => Real::Undefined,
        (Real::Infinite(_), Real::Infinite(_)) => Real::Undefined,
        (Real::Infinite(neg), Real::Finite(b)) => {
            proof {
                b.lemma_nonzero();
            }
            Real::Infinite(neg != b.neg)
        },
        (Real::Finite(a), Real::Infinite(neg)) => {
            proof {
                a.lemma_nonzero();
            }
            Real::Finite(Float { neg: a.neg != neg, m: 0, e: -1074 })
        },
        (Real::Finite(a), Real::Finite(b)) => {
            proof {
                a.lemma_nonzero();
                b.lemma_nonzero();
            }
            if b.m != 0 {
                to_real(a.over(b))
            } else if a.m != 0 {
                Real::Infinite(a.neg != b.neg)
            } else {
                Real::Undefined
            }
        },
    }
}

/// A product of numbers.
pub open spec fn real_product(a: RealView, b: RealView) -> RealView {
    let neg = a.below() != b.below();
    match (a, b) {
        (RealView::Undefined, _) | (_, RealView::Undefined) => RealView::Undefined,
        (RealView::Infinite(_), _) | (_, RealView::Infinite(_)) => if a.is_zero() || b.is_zero() {
            RealView::Undefined
        } else {
            RealView::Infinite(neg)
        },
        _ => real_of(neg, product(a.amount(), b.amount())),
    }
}

/// Multiplies numbers.
pub fn multiply(a: Real, b: Real) -> (r: Real)
    requires
        a.wf(),
        b.wf(),
    ensures
        r@ == real_product(a@, b@),
        r.wf(),
{
    match (a, b) {
        (Real::Undefined, _) | (_, Real::Undefined) => Real::Undefined,
        (Real::Finite(x), Real::Finite(y)) => {
            proof {
                x.lemma_nonzero();
                y.lemma_nonzero();
            }
            to_real(x.times(y))
        },
        (Real::Infinite(s), Real::Infinite(t)) => Real::Infinite(s != t),
        (Real::Infinite(s), Real::Finite(x)) | (Real::Finite(x), Real::Infinite(s)) => {
            proof {
                x.lemma_nonzero();
            }
            if x.m == 0 {
                Real::Undefined
            } else {
                Real::Infinite(s != x.neg)
            }
        },
    }
}

/// A sum of numbers. Zero has a minus sign only when both numbers have one.
pub open spec fn real_sum(a: RealView, b: RealView) -> RealView {
    match (a, b) {
        (RealView::Undefined, _) | (_, RealView::Undefined) => RealView::Undefined,
        (RealView::Infinite(s), RealView::Infinite(t)) => if s == t {
            a
        } else {
            RealView::Undefined
        },
        (RealView::Infinite(_), _) => a,
        (_, RealView::Infinite(_)) => b,
        _ => {
            let v = sum(a.amount(), b.amount());
            real_of(v < 0 || (v == 0 && a.below() && b.below()), v)
        },
    }
}

/// Adds numbers.
pub fn add_up(a: Real, b: Real) -> (r: Real)
    requires
        a.wf(),
        b.wf(),
    ensures
        r@ == real_sum(a@, b@),
        r.wf(),
{
    match (a, b) {
        (Real::Undefined, _) | (_, Real::Undefined) => Real::Undefined,
        (Real::Finite(x), Real::Finite(y)) => {
            let r = x.plus(y);
            proof {
                x.lemma_nonzero();
                y.lemma_nonzero();
                r.lemma_nonzero();
            }
            to_real(r)
        },
        (Real::Infinite(s), Real::Infinite(t)) => if s == t {
            a
        } else {
            Real::Undefined
        },
        (Real::Infinite(_), _) => a,
        (_, Real::Infinite(_)) => b,
    }
}

/// A number that is more than zero.
pub open spec fn positive(x: RealView) -> bool {
    match x {
        RealView::Finite(v) => v > 0,
        RealView::Infinite(neg) => !neg,
        _ => false,
    }
}

/// Tells whether a number is more than zero.
pub fn is_above_zero(x: Real) -> (r: bool)
    requires
        x.wf(),
    ensures
        r == positive(x@),
{
    match x {
        Real::Finite(v) => v.is_positive(),
        Real::Infinite(neg) => !neg,
        Real::Undefined => false,
    }
}

/// The whole number nearest to a product, as far as a count can hold it; what is no number counts
/// nothing.
pub open spec fn real_count(a: RealView, b: RealView, most: int) -> int {
    match real_product(a, b) {
        RealView::Finite(_) | RealView::NegativeZero => clamped(
            half_away(product(a.amount(), b.amount())),
            0,
            most,
        ),
        RealView::Infinite(neg) => if neg {
            0
        } else {
            most
        },
        RealView::Undefined => 0,
    }
}

/// The whole number nearest to a product, as far as a count can hold it.
pub fn counted(a: Real, b: Real) -> (r: u64)
    requires
        a.wf(),
        b.wf(),
    ensures
        r == real_count(a@, b@, u64::MAX as int),
{
    match multiply(a, b) {
        Real::Finite(x) => x.round_u64(),
        Real::Infinite(neg) => if neg {
            0
        } else {
            u64::MAX
        },
        Real::Undefined => 0,
    }
}

/// A number with that many decimals.
pub open spec fn fixed_real(x: RealView, places: nat) -> Seq<char> {
    match x {
        RealView::Finite(v) => fixed(v, places),
        RealView::NegativeZero => seq!['-'] + fixed(0, places),
        RealView::Infinite(neg) => if neg {
            "-inf"@
        } else {
            "inf"@
        },
        RealView::Undefined => "NaN"@,
    }
}

/// Appends a number with that many decimals.
pub fn put_fixed_real(out: &mut String, x: Real, places: u32)
    requires
        x.wf(),
        1 <= places <= 9,
    ensures
        final(out)@ == old(out)@ + fixed_real(x@, places as nat),
{
    match x {
        Real::Finite(v) => {
            proof {
                v.lemma_nonzero();
            }
            let ghost before = out@;
            if v.neg && v.m == 0 {
                out.push('-');
            }
            put_fixed(out, v, places);
            assert(out@ =~= before + fixed_real(x@, places as nat));
        },
        Real::Infinite(neg) => if neg {
            out.append("-inf")
        } else {
            out.append("inf")
        },
        Real::Undefined => out.append("NaN"),
    }
}

} // verus!
