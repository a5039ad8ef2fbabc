//! Numbers with decimals as text.
//!
//! A text stands for the binary64 number nearest to its value.

use vstd::prelude::*;
use vstd::slice::slice_subrange;
use vstd::arithmetic::div_mod::{
    lemma_div_is_ordered, lemma_div_multiples_vanish, lemma_fundamental_div_mod_converse,
};
use vstd::arithmetic::power2::{
    lemma2_to64, lemma2_to64_rest, lemma_pow2_adds, lemma_pow2_pos, lemma_pow2_strictly_increases,
    lemma_pow2_unfold, pow2,
};
use crate::big::Big;
use crate::binary64::{one, rounded, Float};
use crate::fixed::ten;
use crate::number::digit;
use crate::rounding::{
    lemma_exact, lemma_nearest_scale, lemma_rounded_at, lemma_rounded_scale, nearest, rounded_to,
    rounding_is_monotonic,
};
use crate::text::{find, lower, position, same, to_lower};

verus! {

/// A number as it can be written: most are finite.
#[derive(Clone, Copy, Debug, PartialEq, Eq, Structural)]
pub enum Real {
    Finite(Float),
    /// Infinite, and whether it is negative.
    Infinite(bool),
    /// Not a number.
    Undefined,
}

/// A number as it can be written; a finite one is counted in units. There are two zeros, and the one
/// without a sign counts as any other number.
pub enum RealView {
    Finite(int),
    NegativeZero,
    Infinite(bool),
    Undefined,
}

impl View for Real {
    type V = RealView;

    open spec fn view(&self) -> RealView {
        match *self {
            Real::Finite(x) => if x.neg && x.value() == 0 {
                RealView::NegativeZero
            } else {
                RealView::Finite(x.value())
            },
            Real::Infinite(neg) => RealView::Infinite(neg),
            Real::Undefined => RealView::Undefined,
        }
    }
}

/// Every character is a decimal digit.
pub open spec fn all_digits(s: Seq<char>) -> bool {
    forall|i: int| 0 <= i < s.len() ==> digit(#[trigger] s[i])
}

/// The number that decimal digits stand for.
pub open spec fn digits_value(s: Seq<char>) -> nat
    decreases s.len(),
{
    if s.len() == 0 {
        0
    } else {
        10 * digits_value(s.drop_last()) + (s.last() as int - 48) as nat
    }
}

/// A sign in front.
pub open spec fn signed(s: Seq<char>) -> bool {
    s.len() > 0 && (s[0] == '+' || s[0] == '-')
}

/// The text without a sign in front.
pub open spec fn unsigned(s: Seq<char>) -> Seq<char> {
    if signed(s) {
        s.drop_first()
    } else {
        s
    }
}

/// A minus sign in front.
pub open spec fn negative(s: Seq<char>) -> bool {
    s.len() > 0 && s[0] == '-'
}

/// The exponent in what follows the mantissa: nothing, or an `e`, an optional sign and digits.
pub open spec fn exponent(s: Seq<char>) -> Option<int> {
    if s.len() == 0 {
        Some(0)
    } else {
        let t = s.drop_first();
        let d = unsigned(t);
        if d.len() == 0 || !all_digits(d) {
            None
        } else if negative(t) {
            Some(-(digits_value(d) as int))
        } else {
            Some(digits_value(d) as int)
        }
    }
}

/// The digits of a mantissa, and how many of them are decimals: digits with at most one point, and
/// at least one digit.
pub open spec fn mantissa(s: Seq<char>) -> Option<(Seq<char>, nat)> {
    let p = position(s, '.', '.') as int;
    let whole = s.take(p);
    let decimals = if p < s.len() {
        s.skip(p + 1)
    } else {
        Seq::empty()
    };
    let all = whole + decimals;
    if all.len() == 0 || !all_digits(all) {
        None
    } else {
        Some((all, decimals.len()))
    }
}

/// The digits of a number, and the power of ten that they count.
pub open spec fn scientific(s: Seq<char>) -> Option<(Seq<char>, int)> {
    let p = position(s, 'e', 'E') as int;
    match (mantissa(s.take(p)), exponent(s.skip(p))) {
        (Some((d, decimals)), Some(e)) => Some((d, e - decimals)),
        _ => None,
    }
}

/// The magnitude nearest to `n * 10^k`, counted in units.
pub open spec fn scaled(n: nat, k: int) -> nat {
    if k >= 0 {
        rounded(n * ten(k as nat) * one(), 1)
    } else {
        rounded(n * one(), ten((-k) as nat))
    }
}

/// The first magnitude that is too large for a finite number.
pub open spec fn limit() -> nat {
    pow2(1024) * one()
}

/// The number with a sign and a magnitude: past the largest number it is infinite.
pub open spec fn signed_real(neg: bool, v: nat) -> RealView {
    if v >= limit() {
        RealView::Infinite(neg)
    } else if neg && v == 0 {
        RealView::NegativeZero
    } else if neg {
        RealView::Finite(-(v as int))
    } else {
        RealView::Finite(v as int)
    }
}

/// The number that digits and a power of ten stand for.
pub open spec fn rounded_real(neg: bool, n: nat, k: int) -> RealView {
    signed_real(neg, scaled(n, k))
}

/// The number that a text stands for.
pub open spec fn real_number(s: Seq<char>) -> Option<RealView> {
    let t = unsigned(s);
    let neg = negative(s);
    match scientific(t) {
        Some((d, k)) => Some(rounded_real(neg, digits_value(d), k)),
        None => if lower(t) == "inf"@ || lower(t) == "infinity"@ {
            Some(RealView::Infinite(neg))
        } else if lower(t) == "nan"@ {
            Some(RealView::Undefined)
        } else {
            None
        },
    }
}

/// The powers of ten are positive, and each is ten times the one before.
pub proof fn lemma_ten_adds(a: nat, b: nat)
    ensures
        ten(a) > 0,
        ten(a + b) == ten(a) * ten(b),
    decreases a,
{
    if a == 0 {
        assert(1 * ten(b) == ten(b));
    } else {
        let c = (a - 1) as nat;
        lemma_ten_adds(c, b);
        let (x, y) = (ten(c), ten(b));
        assert((10 * x) * y == 10 * (x * y)) by (nonlinear_arith);
    }
}

/// Ten powers of ten are more than 33 powers of two.
pub proof fn lemma_ten_large(j: nat)
    ensures
        ten(10 * j) >= pow2(33 * j),
    decreases j,
{
    lemma2_to64();
    lemma2_to64_rest();
    if j > 0 {
        let i = (j - 1) as nat;
        lemma_ten_large(i);
        reveal_with_fuel(ten, 11);
        assert(ten(10) == 10_000_000_000);
        lemma_ten_adds(10, 10 * i);
        lemma_pow2_adds(33, 33 * i);
        assert(10 * j == 10 + 10 * i);
        assert(33 * j == 33 + 33 * i);
        let (x, y) = (ten(10 * i), pow2(33 * i));
        assert(10_000_000_000 * x >= 0x2_0000_0000 * y) by (nonlinear_arith)
            requires
                x >= y,
        ;
    }
}

/// Digits without a zero in front make at least the power of ten of their count less one, and less
/// than that of their count.
proof fn lemma_digits_bounds(s: Seq<char>)
    requires
        all_digits(s),
    ensures
        digits_value(s) < ten(s.len()),
        s.len() > 0 && s[0] != '0' ==> digits_value(s) >= ten((s.len() - 1) as nat),
    decreases s.len(),
{
    if s.len() > 0 {
        let t = s.drop_last();
        assert(all_digits(t)) by {
            assert forall|i: int| 0 <= i < t.len() implies digit(#[trigger] t[i]) by {
                assert(t[i] == s[i]);
            }
        }
        assert(digit(s[s.len() - 1]));
        assert(digit(s[0]));
        lemma_digits_bounds(t);
        if t.len() > 0 {
            assert(t[0] == s[0]);
        }
    }
}

/// A zero in front changes nothing.
proof fn lemma_leading_zero(s: Seq<char>)
    requires
        s.len() > 0,
        s[0] == '0',
    ensures
        digits_value(s) == digits_value(s.drop_first()),
    decreases s.len(),
{
    if s.len() > 1 {
        lemma_leading_zero(s.drop_last());
        assert(s.drop_last().drop_first() =~= s.drop_first().drop_last());
    } else {
        assert(s.drop_last() =~= Seq::<char>::empty());
        assert(s.drop_first() =~= Seq::<char>::empty());
    }
}

/// A number from `10^330` on is too large.
proof fn lemma_too_large(n: nat, k: int, digits: nat)
    requires
        digits > 0,
        n >= ten((digits - 1) as nat),
        digits + k > 330,
    ensures
        scaled(n, k) >= limit(),
{
    let u = one();
    let big = pow2(1024);
    lemma2_to64_rest();
    lemma_pow2_pos(1074);
    lemma_pow2_adds(1024, 1074);
    lemma_ten_large(33);
    lemma_pow2_strictly_increases(1024, 33 * 33);
    assert(ten(330) >= big);
    lemma_exact(1, 1024 + 1074, 53);
    assert(1 * limit() == limit());
    let d1 = (digits - 1) as nat;
    if k >= 0 {
        let t = ten(k as nat);
        lemma_ten_adds(d1, k as nat);
        lemma_ten_adds(330, (d1 + k - 330) as nat);
        lemma_ten_adds((d1 + k - 330) as nat, 0);
        let rest = ten((d1 + k - 330) as nat);
        assert(n * t >= ten(d1) * t) by (nonlinear_arith)
            requires
                n >= ten(d1),
        ;
        assert(ten(330) * rest >= ten(330)) by (nonlinear_arith)
            requires
                rest >= 1,
        ;
        assert((n * t) * u >= big * u) by (nonlinear_arith)
            requires
                n * t >= big,
        ;
        rounding_is_monotonic(big * u, n * t * u, 1, 53);
    } else {
        let m = (-k) as nat;
        let t = ten(m);
        lemma_ten_adds(m, 0);
        lemma_ten_adds(330, (d1 - 330) as nat);
        lemma_ten_adds(m, (d1 - m) as nat);
        lemma_ten_adds((d1 - m) as nat, 0);
        lemma_ten_adds(330, (d1 - m - 330) as nat);
        lemma_ten_adds((d1 - m - 330) as nat, 0);
        let rest = ten((d1 - m - 330) as nat);
        assert(ten(330) * rest >= ten(330)) by (nonlinear_arith)
            requires
                rest >= 1,
        ;
        assert(n >= t * big) by (nonlinear_arith)
            requires
                n >= t * ten((d1 - m) as nat),
                ten((d1 - m) as nat) >= big,
        ;
        assert(n * u >= (big * u) * t) by (nonlinear_arith)
            requires
                n >= t * big,
        ;
        rounding_is_monotonic((big * u) * t, n * u, t, 53);
        lemma_rounded_scale(big * u, 1, t, 53);
        assert(1 * t == t);
    }
}

/// A number below `10^-400` is nothing.
proof fn lemma_too_small(n: nat, k: int, digits: nat)
    requires
        n < ten(digits),
        digits + k < -400,
    ensures
        scaled(n, k) == 0,
{
    let u = one();
    let m = (-k) as nat;
    let t = ten(m);
    lemma2_to64();
    lemma_pow2_pos(53);
    lemma_pow2_pos(1074);
    lemma_ten_large(40);
    lemma_pow2_strictly_increases(1075, 33 * 40);
    lemma_pow2_unfold(1075);
    lemma_ten_adds(digits, (m - digits) as nat);
    lemma_ten_adds(400, (m - digits - 400) as nat);
    lemma_ten_adds((m - digits - 400) as nat, 0);
    let rest = ten((m - digits - 400) as nat);
    assert(ten(400) * rest >= ten(400)) by (nonlinear_arith)
        requires
            rest >= 1,
    ;
    let x = ten(digits);
    let y = ten((m - digits) as nat);
    assert(2 * (n * u) < t) by (nonlinear_arith)
        requires
            n < x,
            t == x * y,
            y > 2 * u,
            u > 0,
    ;
    let v = n * u;
    assert(v < pow2(53) * t) by (nonlinear_arith)
        requires
            2 * v < t,
            pow2(53) >= 1,
    ;
    lemma_fundamental_div_mod_converse(v as int, t as int, 0, v as int);
}

/// The quotient of a division of large numbers of which the quotient has at most 53 bits, rounded.
fn divide(n: &Big, e: &Big) -> (r: u64)
    requires
        n@ < e@,
    ensures
        r <= 0x20_0000_0000_0000,
        r == nearest(n@ * pow2(53), e@),
        r >= (n@ * pow2(53)) / e@,
{
    proof {
        lemma2_to64();
        lemma2_to64_rest();
    }
    let mut rest = n.times_plus(1, 0);
    let mut q: u64 = 0;
    assert(n@ * 1 == n@);
    assert(0 * e@ == 0);
    for i in 0..53u64
        invariant
            rest@ < e@,
            q < pow2(i as nat),
            n@ * pow2(i as nat) == q * e@ + rest@,
    {
        proof {
            lemma2_to64();
            lemma2_to64_rest();
            lemma_pow2_unfold((i + 1) as nat);
            if i < 52 {
                lemma_pow2_strictly_increases((i + 1) as nat, 53);
            }
            let (a, p, b, c, d) = (n@, pow2(i as nat), q as nat, e@, rest@);
            assert(a * (2 * p) == (2 * b) * c + d * 2) by (nonlinear_arith)
                requires
                    a * p == b * c + d,
            ;
            assert((2 * b + 1) * c == (2 * b) * c + c) by (nonlinear_arith);
        }
        rest = rest.times_plus(2, 0);
        q = 2 * q;
        if !rest.less(e) {
            rest = rest.minus(e);
            q = q + 1;
        }
    }
    proof {
        let v = n@ * pow2(53);
        let (b, c) = (q as int, e@ as int);
        assert(b * c == c * b) by (nonlinear_arith);
        lemma_fundamental_div_mod_converse(v as int, c, b, rest@ as int);
    }
    let twice = rest.times_plus(2, 0);
    if twice.less(e) || (!e.less(&twice) && q % 2 == 0) {
        q
    } else {
        q + 1
    }
}

/// The number nearest to a quotient of units: bits, and how far they are shifted up.
pub(crate) fn round_quotient(n: &Big, d: &Big) -> (r: (u64, i128))
    requires
        d@ > 0,
    ensures
        r.0 <= 0x20_0000_0000_0000,
        0 <= r.1 <= 0x1_0000_0000_0000_0000_0000,
        r.1 == 0 || r.0 >= 0x10_0000_0000_0000,
        rounded(n@, d@) == pow2(r.1 as nat) * r.0,
{
    let mut e = d.times_plus(0x4000_0000, 0).times_plus(0x80_0000, 0);
    let mut j: i128 = 0;
    let limbs: usize = n.limbs.len();
    proof {
        lemma2_to64();
        lemma2_to64_rest();
        assert((d@ * 0x4000_0000) * 0x80_0000 == 0x20_0000_0000_0000 * d@) by (nonlinear_arith);
        assert(d@ * 1 == d@);
    }
    while !n.less(&e)
        invariant
            d@ > 0,
            0 <= j <= 0x1_0000_0000_0000_0000_0000,
            limbs == n.limbs@.len(),
            e@ == pow2(53) * (d@ * pow2(j as nat)),
            e@ > 0,
            j == 0 || n@ >= pow2(52) * (d@ * pow2(j as nat)),
        decreases 2 * n@ - e@,
    {
        proof {
            let p = pow2(j as nat);
            let x = d@ * p;
            lemma2_to64();
            lemma2_to64_rest();
            lemma_pow2_pos(j as nat);
            lemma_pow2_unfold((j + 1) as nat);
            assert(d@ * (2 * p) == 2 * (d@ * p)) by (nonlinear_arith);
            assert(0x20_0000_0000_0000 * x == 0x10_0000_0000_0000 * (2 * x));
            n.lemma_bound();
            assert(n@ >= p) by (nonlinear_arith)
                requires
                    n@ >= 0x20_0000_0000_0000 * (d@ * p),
                    d@ >= 1,
                    p >= 1,
            ;
            let top = 32 * n.limbs@.len();
            if j > top {
                lemma_pow2_strictly_increases(top, j as nat);
            }
            assert(j < 32 * limbs);
        }
        e = e.times_plus(2, 0);
        j = j + 1;
    }
    let q = divide(n, &e);
    proof {
        let dj = d@ * pow2(j as nat);
        lemma2_to64();
        lemma2_to64_rest();
        lemma_pow2_pos(j as nat);
        assert(dj > 0) by (nonlinear_arith)
            requires
                dj == d@ * pow2(j as nat),
                d@ > 0,
                pow2(j as nat) > 0,
        ;
        lemma_rounded_at(n@, d@, j as nat, 53);
        lemma_nearest_scale(n@, dj, pow2(53));
        assert(dj * pow2(53) == pow2(53) * dj) by (nonlinear_arith);
        if j > 0 {
            let v = n@ * pow2(53);
            lemma_quotient_large(v, e@, 0x10_0000_0000_0000);
        }
    }
    (q, j)
}

/// A number that is large enough has a large quotient.
proof fn lemma_quotient_large(v: nat, e: nat, k: nat)
    requires
        e > 0,
        v >= k * e,
    ensures
        v / e >= k,
{
    lemma_div_is_ordered((k * e) as int, v as int, e as int);
    lemma_div_multiples_vanish(k as int, e as int);
    assert(k * e == e * k) by (nonlinear_arith);
}

/// The digits as a number.
fn read_digits(s: &[char]) -> (r: Big)
    requires
        all_digits(s@),
    ensures
        r@ == digits_value(s@),
{
    let mut r = Big::zero();
    assert(s@.take(0) =~= Seq::<char>::empty());
    for i in 0..s.len()
        invariant
            all_digits(s@),
            r@ == digits_value(s@.take(i as int)),
    {
        assert(s@.take(i + 1).drop_last() =~= s@.take(i as int));
        assert(digit(s@[i as int]));
        let d: u32 = (s[i] as u8 - 48) as u32;
        r = r.times_plus(10, d);
    }
    assert(s@.take(s@.len() as int) =~= s@);
    r
}

pub(crate) fn times_ten(b: Big, k: u128) -> (r: Big)
    ensures
        r@ == b@ * ten(k as nat),
{
    let mut r = b;
    let mut i: u128 = 0;
    assert(b@ * 1 == b@);
    while i < k
        invariant
            i <= k,
            r@ == b@ * ten(i as nat),
        decreases k - i,
    {
        let ghost t = ten(i as nat);
        assert((b@ * t) * 10 == b@ * (10 * t)) by (nonlinear_arith);
        r = r.times_plus(10, 0);
        i = i + 1;
    }
    r
}

pub(crate) fn to_units(b: Big) -> (r: Big)
    ensures
        r@ == b@ * one(),
{
    let mut r = b;
    let mut i: u32 = 0;
    proof {
        lemma2_to64();
    }
    assert(b@ * 1 == b@);
    while i < 1074
        invariant
            i <= 1074,
            r@ == b@ * pow2(i as nat),
        decreases 1074 - i,
    {
        proof {
            lemma_pow2_unfold((i + 1) as nat);
            let p = pow2(i as nat);
            assert((b@ * p) * 2 == b@ * (2 * p)) by (nonlinear_arith);
        }
        r = r.times_plus(2, 0);
        i = i + 1;
    }
    r
}

/// A number is finite in the format when its exponent is.
pub proof fn lemma_finite(x: Float)
    requires
        x.wf(),
    ensures
        x.magnitude() >= limit() <==> x.e > 971,
{
    lemma2_to64();
    lemma2_to64_rest();
    lemma_pow2_adds(1024, 1074);
    lemma_pow2_adds(52, 2046);
    let j = x.e + 1074;
    let m = x.m as nat;
    let p = pow2(j as nat);
    lemma_pow2_pos(j as nat);
    if j > 2045 {
        if j > 2046 {
            lemma_pow2_strictly_increases(2046, j as nat);
        }
        assert(m * p >= 0x10_0000_0000_0000 * pow2(2046)) by (nonlinear_arith)
            requires
                m >= 0x10_0000_0000_0000,
                p >= pow2(2046),
        ;
    } else {
        if j < 2045 {
            lemma_pow2_strictly_increases(j as nat, 2045);
        }
        lemma_pow2_unfold(2046);
        lemma_pow2_pos(2045);
        assert(m * p < 0x20_0000_0000_0000 * pow2(2045)) by (nonlinear_arith)
            requires
                m < 0x20_0000_0000_0000,
                0 < p <= pow2(2045),
        ;
    }
}

/// The number of a magnitude that was rounded.
pub(crate) fn assemble(neg: bool, m: u64, j: i128, Ghost(v): Ghost<nat>) -> (r: Real)
    requires
        m <= 0x20_0000_0000_0000,
        0 <= j <= 0x1_0000_0000_0000_0000_0000,
        j == 0 || m >= 0x10_0000_0000_0000,
        v == pow2(j as nat) * m,
    ensures
        r@ == signed_real(neg, v),
        r matches Real::Finite(x) ==> x.wf() && x.e <= 971,
{
    proof {
        lemma_pow2_unfold((j + 1) as nat);
        let p = pow2(j as nat);
        assert(p * m == m * p) by (nonlinear_arith);
        assert(0x10_0000_0000_0000 * (2 * p) == 0x20_0000_0000_0000 * p);
    }
    let (m, j): (u64, i128) = if m == 0x20_0000_0000_0000 {
        (0x10_0000_0000_0000, j + 1)
    } else {
        (m, j)
    };
    let x = Float { neg, m, e: j - 1074 };
    proof {
        lemma_finite(x);
    }
    if x.e > 971 {
        Real::Infinite(neg)
    } else {
        Real::Finite(x)
    }
}

/// The power of ten is the one that is given, or both are far too large or far too small.
pub open spec fn agrees(given: int, k: int) -> bool {
    ||| given == k
    ||| given >= 0x100_0000_0000_0000_0000_0000 && k >= 0x100_0000_0000_0000_0000_0000
    ||| given <= -0x100_0000_0000_0000_0000_0000 && k <= -0x100_0000_0000_0000_0000_0000
}

/// The number that digits and a power of ten stand for.
fn scale(neg: bool, digits: &[char], given: i128) -> (r: Real)
    requires
        all_digits(digits@),
        -0x1000_0000_0000_0000_0000_0000_0000 <= given <= 0x1000_0000_0000_0000_0000_0000_0000,
    ensures
        forall|k: int| #[trigger]
            agrees(given as int, k) ==> r@ == rounded_real(neg, digits_value(digits@), k),
        r matches Real::Finite(x) ==> x.wf() && x.e <= 971,
{
    let ghost n = digits_value(digits@);
    let mut i: usize = 0;
    assert(digits@.skip(0) =~= digits@);
    while i < digits.len() && digits[i] == '0'
        invariant
            i <= digits@.len(),
            n == digits_value(digits@.skip(i as int)),
        decreases digits@.len() - i,
    {
        proof {
            lemma_leading_zero(digits@.skip(i as int));
            assert(digits@.skip(i as int).drop_first() =~= digits@.skip(i + 1));
        }
        i = i + 1;
    }
    let sig = slice_subrange(digits, i, digits.len());
    proof {
        assert(sig@ =~= digits@.skip(i as int));
        assert forall|j: int| 0 <= j < sig@.len() implies digit(#[trigger] sig@[j]) by {
            assert(digit(digits@[i + j]));
        }
        lemma_digits_bounds(sig@);
        lemma2_to64();
        lemma2_to64_rest();
        lemma_pow2_pos(1074);
    }
    let place: i128 = sig.len() as i128 + given;
    if sig.len() == 0 || place < -400 {
        proof {
            assert forall|k: int| #[trigger] agrees(given as int, k) implies scaled(n, k) == 0 by {
                if sig@.len() == 0 {
                    lemma_scaled_zero(k);
                } else {
                    lemma_too_small(n, k, sig@.len());
                }
            }
            lemma_pow2_adds(1024, 1074);
            lemma_pow2_pos(1024 + 1074);
            assert(0 * pow2(0) == 0);
        }
        return Real::Finite(Float { neg, m: 0, e: -1074 });
    }
    if place > 330 {
        proof {
            assert forall|k: int| #[trigger] agrees(given as int, k) implies scaled(n, k)
                >= limit() by {
                lemma_too_large(n, k, sig@.len());
            }
        }
        return Real::Infinite(neg);
    }
    let b = read_digits(sig);
    if given >= 0 {
        let top = to_units(times_ten(b, given as u128));
        let unit = Big::zero().times_plus(0, 1);
        let (m, j) = round_quotient(&top, &unit);
        assemble(neg, m, j, Ghost(scaled(n, given as int)))
    } else {
        let down = times_ten(Big::zero().times_plus(0, 1), (-given) as u128);
        let top = to_units(b);
        proof {
            lemma_ten_adds((-given) as nat, 0);
            assert(1 * ten((-given) as nat) == ten((-given) as nat));
        }
        let (m, j) = round_quotient(&top, &down);
        assemble(neg, m, j, Ghost(scaled(n, given as int)))
    }
}

/// Nothing stays nothing.
proof fn lemma_scaled_zero(k: int)
    ensures
        scaled(0, k) == 0,
{
    lemma2_to64_rest();
    if k >= 0 {
        assert(0 * ten(k as nat) == 0);
        assert(0 * one() == 0);
        assert(rounded_to(0, 1, 53) == nearest(0, 1));
    } else {
        let t = ten((-k) as nat);
        lemma_ten_adds((-k) as nat, 0);
        assert(0 * one() == 0);
        assert(0 < pow2(53) * t);
        lemma_fundamental_div_mod_converse(0, t as int, 0, 0);
    }
}

fn only_digits(s: &[char]) -> (r: bool)
    ensures
        r == all_digits(s@),
{
    for i in 0..s.len()
        invariant
            forall|j: int| 0 <= j < i ==> digit(#[trigger] s@[j]),
    {
        let c = s[i];
        if !('0' <= c && c <= '9') {
            assert(!digit(s@[i as int]));
            return false;
        }
    }
    true
}

fn without_sign(s: &[char]) -> (r: &[char])
    ensures
        r@ == unsigned(s@),
{
    if s.len() > 0 && (s[0] == '+' || s[0] == '-') {
        let t = slice_subrange(s, 1, s.len());
        assert(t@ =~= s@.drop_first());
        t
    } else {
        s
    }
}

/// Reads digits, of which only that they are many matters from some size on.
fn read_capped(s: &[char]) -> (r: i128)
    requires
        all_digits(s@),
    ensures
        0 <= r <= 0x800_0000_0000_0000_0000_0000_0000,
        r == digits_value(s@) || (r >= 0x200_0000_0000_0000_0000_0000 && digits_value(s@)
            >= 0x200_0000_0000_0000_0000_0000),
{
    let mut r: i128 = 0;
    assert(s@.take(0) =~= Seq::<char>::empty());
    for i in 0..s.len()
        invariant
            all_digits(s@),
            0 <= r <= 0x800_0000_0000_0000_0000_0000_0000,
            r == digits_value(s@.take(i as int)) || (r >= 0x200_0000_0000_0000_0000_0000
                && digits_value(s@.take(i as int)) >= 0x200_0000_0000_0000_0000_0000),
    {
        assert(s@.take(i + 1).drop_last() =~= s@.take(i as int));
        assert(digit(s@[i as int]));
        if r < 0x200_0000_0000_0000_0000_0000 {
            r = 10 * r + (s[i] as u8 - 48) as i128;
        }
    }
    assert(s@.take(s@.len() as int) =~= s@);
    r
}

fn read_exponent(s: &[char]) -> (r: Option<i128>)
    ensures
        match r {
            Some(e) => {
                &&& -0x800_0000_0000_0000_0000_0000_0000 <= e
                    <= 0x800_0000_0000_0000_0000_0000_0000
                &&& exponent(s@) matches Some(k) && {
                    ||| e == k
                    ||| e >= 0x200_0000_0000_0000_0000_0000 && k >= 0x200_0000_0000_0000_0000_0000
                    ||| e <= -0x200_0000_0000_0000_0000_0000 && k
                        <= -0x200_0000_0000_0000_0000_0000
                }
            },
            None => exponent(s@) is None,
        },
{
    if s.len() == 0 {
        return Some(0);
    }
    let t = slice_subrange(s, 1, s.len());
    assert(t@ =~= s@.drop_first());
    let d = without_sign(t);
    if d.len() == 0 || !only_digits(d) {
        return None;
    }
    let e = read_capped(d);
    if t[0] == '-' {
        Some(-e)
    } else {
        Some(e)
    }
}

fn read_mantissa(s: &[char]) -> (r: Option<(Vec<char>, usize)>)
    ensures
        match r {
            Some((d, n)) => mantissa(s@) == Some((d@, n as nat)) && all_digits(d@),
            None => mantissa(s@) is None,
        },
{
    let p = find(s, '.', '.');
    let mut all: Vec<char> = Vec::new();
    for i in 0..s.len()
        invariant
            p <= s@.len(),
            all@ == (if i <= p {
                s@.take(i as int)
            } else {
                s@.take(p as int) + s@.subrange(p + 1, i as int)
            }),
    {
        let ghost before = all@;
        if i != p {
            all.push(s[i]);
        }
        proof {
            if i < p {
                assert(all@ =~= s@.take(i + 1));
            } else if i == p {
                assert(all@ =~= s@.take(p as int) + s@.subrange(p + 1, i + 1));
            } else {
                assert(all@ =~= s@.take(p as int) + s@.subrange(p + 1, i + 1));
            }
        }
    }
    proof {
        if p < s@.len() {
            assert(s@.subrange(p + 1, s@.len() as int) =~= s@.skip(p + 1));
        } else {
            assert(all@ =~= s@.take(p as int) + Seq::<char>::empty());
        }
    }
    if all.len() == 0 || !only_digits(&all) {
        return None;
    }
    let decimals: usize = if p < s.len() {
        s.len() - p - 1
    } else {
        0
    };
    Some((all, decimals))
}

/// Reads a number: a sign, digits with a point, and an exponent, all but the digits optional; or an
/// infinity or not-a-number by its name.
pub fn parse_real(s: &[char]) -> (r: Option<Real>)
    ensures
        match r {
            Some(x) => real_number(s@) == Some(x@) && (x matches Real::Finite(v) ==> v.wf() && v.e
                <= 971),
            None => real_number(s@) is None,
        },
{
    let neg = s.len() > 0 && s[0] == '-';
    let t = without_sign(s);
    let p = find(t, 'e', 'E');
    let front = slice_subrange(t, 0, p);
    let back = slice_subrange(t, p, t.len());
    assert(front@ =~= t@.take(p as int));
    assert(back@ =~= t@.skip(p as int));
    if let (Some((d, decimals)), Some(e)) = (read_mantissa(front), read_exponent(back)) {
        let given: i128 = e - decimals as i128;
        let r = scale(neg, &d, given);
        proof {
            let k = exponent(back@)->0 - decimals;
            assert(agrees(given as int, k));
        }
        return Some(r);
    }
    let name = to_lower(t);
    if same(&name, "inf") || same(&name, "infinity") {
        Some(Real::Infinite(neg))
    } else if same(&name, "nan") {
        Some(Real::Undefined)
    } else {
        None
    }
}

} // verus!
