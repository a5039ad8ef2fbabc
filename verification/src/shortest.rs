//! The shortest decimal notation of a number that reads back as the same number.

use vstd::prelude::*;
use vstd::arithmetic::div_mod::{lemma_div_denominator, lemma_fundamental_div_mod_converse};
use vstd::arithmetic::power2::{
    lemma2_to64, lemma2_to64_rest, lemma_pow2_pos, lemma_pow2_strictly_increases,
    lemma_pow2_unfold, pow2,
};
use crate::big::Big;
use crate::binary64::{magnitude_of, one, Float};
use crate::decimals::{
    assemble, lemma_finite, lemma_ten_adds, lemma_ten_large, limit, round_quotient, scaled,
    times_ten, to_units, Real,
};
use crate::fixed::{padded, put_padded, ten};
use crate::number::{decimal, put_decimal};

verus! {

/// A magnitude counted in `10^k`, above the bar.
pub open spec fn top_at(v: nat, k: int) -> nat {
    if k >= 0 {
        v
    } else {
        v * ten((-k) as nat)
    }
}

/// A magnitude counted in `10^k`, below the bar.
pub open spec fn bottom_at(k: int) -> nat {
    if k >= 0 {
        one() * ten(k as nat)
    } else {
        one()
    }
}

/// The magnitude is less than `10^k`.
pub open spec fn below(v: nat, k: int) -> bool {
    top_at(v, k) < bottom_at(k)
}

/// The first power of ten, from `k` on, that the magnitude is less than.
pub open spec fn order_from(v: nat, k: int) -> int
    decreases 320 - k,
{
    if k >= 320 || below(v, k) {
        k
    } else {
        order_from(v, k + 1)
    }
}

/// The first power of ten that the magnitude is less than.
pub open spec fn order(v: nat) -> int {
    order_from(v, -330)
}

/// The multiple of `10^k` that reads back as the magnitude: the one below it or the one above it; of
/// two, the nearer one.
pub open spec fn readable(v: nat, k: int) -> Option<nat> {
    let q = top_at(v, k) / bottom_at(k);
    let r = top_at(v, k) % bottom_at(k);
    let down = scaled(q, k) == v;
    let up = scaled(q + 1, k) == v;
    if down && (!up || 2 * r < bottom_at(k)) {
        Some(q)
    } else if up {
        Some(q + 1)
    } else {
        None
    }
}

/// The digits of a magnitude, as few as read back as it, and the power of ten that they count. Of
/// `n` digits the first stands just below `10^p`; 17 digits always tell numbers apart.
pub open spec fn digits_from(v: nat, p: int, n: nat) -> (nat, int)
    decreases 17 - n,
{
    match readable(v, p - n) {
        Some(d) => (d, p - n),
        None => if n >= 17 {
            (top_at(v, p - n) / bottom_at(p - n), p - n)
        } else {
            digits_from(v, p, n + 1)
        },
    }
}

/// The decimals without the zeros at their end.
pub open spec fn stripped(d: nat, k: int) -> (nat, int)
    decreases -k,
{
    if k < 0 && d % 10 == 0 {
        stripped(d / 10, k + 1)
    } else {
        (d, k)
    }
}

/// `d * 10^k` without an exponent.
pub open spec fn plain(d: nat, k: int) -> Seq<char> {
    if k >= 0 {
        decimal(d) + Seq::new(k as nat, |i: int| '0')
    } else {
        decimal(d / ten((-k) as nat)) + seq!['.'] + padded(d, (-k) as nat)
    }
}

/// The shortest notation of a magnitude.
pub open spec fn shown_magnitude(v: nat) -> Seq<char> {
    if v == 0 {
        seq!['0']
    } else {
        let (d, k) = digits_from(v, order(v), 1);
        let (e, j) = stripped(d, k);
        plain(e, j)
    }
}

/// The shortest notation of a number.
pub open spec fn shown(v: int) -> Seq<char> {
    if v < 0 {
        seq!['-'] + shown_magnitude(magnitude_of(v) as nat)
    } else {
        shown_magnitude(v as nat)
    }
}

/// Counting in a power of ten that is `n` smaller makes `10^n` times as many.
proof fn lemma_shift(v: nat, k: int, n: nat)
    ensures
        top_at(v, k) * bottom_at(k + n) == top_at(v, k + n) * ten(n) * bottom_at(k),
        bottom_at(k) > 0,
        ten(n) > 0,
{
    let u = one();
    lemma_pow2_pos(1074);
    lemma_ten_adds(n, 0);
    let t = ten(n);
    if k >= 0 {
        let a = ten(k as nat);
        lemma_ten_adds(k as nat, n);
        assert(u * a > 0) by (nonlinear_arith)
            requires
                u > 0,
                a > 0,
        ;
        assert(v * (u * (a * t)) == v * t * (u * a)) by (nonlinear_arith);
    } else if k + n >= 0 {
        let a = ten((-k) as nat);
        let b = ten((k + n) as nat);
        lemma_ten_adds((-k) as nat, (k + n) as nat);
        assert((v * a) * (u * b) == v * (a * b) * u) by (nonlinear_arith);
    } else {
        let a = ten((-k - n) as nat);
        lemma_ten_adds((-k - n) as nat, n);
        assert((v * (a * t)) * u == (v * a) * t * u) by (nonlinear_arith);
    }
}

/// A magnitude below `10^p` is less than `10^n` times `10^(p - n)`.
proof fn lemma_digits_bound(v: nat, p: int, n: nat)
    requires
        below(v, p),
        n <= 17,
    ensures
        top_at(v, p - n) < pow2(57) * bottom_at(p - n),
{
    let k = p - n;
    lemma_shift(v, k, n);
    lemma_shift(v, p, 0);
    let (a, b, c, d, t) = (top_at(v, k), bottom_at(p), top_at(v, p), bottom_at(k), ten(n));
    assert(a < t * d) by (nonlinear_arith)
        requires
            a * b == c * t * d,
            c < b,
            t > 0,
            d > 0,
            b > 0,
    ;
    lemma_ten_adds(n, (17 - n) as nat);
    lemma_ten_adds((17 - n) as nat, 0);
    let s = ten((17 - n) as nat);
    assert(t <= t * s) by (nonlinear_arith)
        requires
            s >= 1,
    ;
    assert(ten(17) == 100_000_000_000_000_000) by {
        reveal_with_fuel(ten, 11);
        lemma_ten_adds(10, 7);
    }
    lemma2_to64_rest();
    assert(t * d <= pow2(57) * d) by (nonlinear_arith)
        requires
            t <= pow2(57),
    ;
}

/// Every finite number is below `10^320`.
proof fn lemma_order_found(v: nat)
    requires
        v < limit(),
    ensures
        below(v, 320),
{
    lemma_ten_large(32);
    lemma_pow2_strictly_increases(1024, 33 * 32);
    let (a, b, u) = (pow2(1024), ten(320), one());
    assert(a * u <= u * b) by (nonlinear_arith)
        requires
            a <= b,
    ;
}

/// The quotient of large numbers, when it has at most 57 bits, and whether the remainder is half the
/// divisor or more.
fn divide_small(n: &Big, d: &Big) -> (r: (u64, bool))
    requires
        d@ > 0,
        n@ < pow2(57) * d@,
    ensures
        r.0 == n@ / d@,
        r.1 == (2 * (n@ % d@) >= d@),
        r.0 < 0x200_0000_0000_0000,
{
    proof {
        lemma2_to64();
        lemma2_to64_rest();
    }
    // Doubled divisors, the largest of which is more than the dividend.
    let mut e = d.times_plus(1, 0);
    let mut i: u64 = 0;
    assert(1 * d@ == d@);
    while i < 57
        invariant
            i <= 57,
            e@ == pow2(i as nat) * d@,
        decreases 57 - i,
    {
        proof {
            lemma_pow2_unfold((i + 1) as nat);
            let p = pow2(i as nat);
            assert((p * d@) * 2 == (2 * p) * d@) by (nonlinear_arith);
        }
        e = e.times_plus(2, 0);
        i = i + 1;
    }
    // `rest / 2^i` is what is left of the dividend after the quotient's first bits.
    let mut rest = n.times_plus(1, 0);
    let mut q: u64 = 0;
    let mut j: u64 = 0;
    assert(n@ * 1 == n@);
    assert(0 * e@ == 0);
    while j < 57
        invariant
            j <= 57,
            d@ > 0,
            e@ == pow2(57) * d@,
            rest@ < e@,
            q < pow2(j as nat),
            n@ * pow2(j as nat) == q * e@ + rest@,
        decreases 57 - j,
    {
        proof {
            lemma2_to64();
            lemma2_to64_rest();
            lemma_pow2_unfold((j + 1) as nat);
            if j < 56 {
                lemma_pow2_strictly_increases((j + 1) as nat, 57);
            }
            let (a, p, b, c, x) = (n@, pow2(j as nat), q as nat, e@, rest@);
            assert(a * (2 * p) == (2 * b) * c + x * 2) by (nonlinear_arith)
                requires
                    a * p == b * c + x,
            ;
            assert((2 * b + 1) * c == (2 * b) * c + c) by (nonlinear_arith);
        }
        rest = rest.times_plus(2, 0);
        q = 2 * q;
        if !rest.less(&e) {
            rest = rest.minus(&e);
            q = q + 1;
        }
        j = j + 1;
    }
    proof {
        let (a, p, b, x, y) = (n@ as int, pow2(57) as int, q as int, rest@ as int, d@ as int);
        assert(p * (a - b * y) == x) by (nonlinear_arith)
            requires
                a * p == b * (p * y) + x,
        ;
        assert(0 <= a - b * y < y) by (nonlinear_arith)
            requires
                p * (a - b * y) == x,
                0 <= x < p * y,
                p > 0,
        ;
        assert(b * y == y * b) by (nonlinear_arith);
        lemma_fundamental_div_mod_converse(a, y, b, a - b * y);
        let rem = a - b * y;
        assert((x * 2 >= p * y) == (2 * rem >= y)) by (nonlinear_arith)
            requires
                p * rem == x,
                p > 0,
        ;
    }
    let up = !rest.times_plus(2, 0).less(&e);
    (q, up)
}

fn from_u64(q: u64) -> (r: Big)
    ensures
        r@ == q,
{
    let top = Big::zero().times_plus(0, (q / 0x1_0000_0000) as u32);
    let mid = top.times_plus(0x1_0000, ((q / 0x1_0000) % 0x1_0000) as u32);
    mid.times_plus(0x1_0000, (q % 0x1_0000) as u32)
}

/// Digits and a power of ten read back as a number.
fn reads_as(d: u64, k: i128, x: Float) -> (r: bool)
    requires
        x.wf(),
        !x.neg,
        x.e <= 971,
        -1000 <= k <= 1000,
    ensures
        r == (scaled(d as nat, k as int) == x.magnitude()),
{
    proof {
        lemma_pow2_pos(1074);
        lemma_ten_adds((if k < 0 {
            -k
        } else {
            k as int
        }) as nat, 0);
        lemma_finite(x);
    }
    let b = from_u64(d);
    let (m, j) = if k >= 0 {
        round_quotient(&to_units(times_ten(b, k as u128)), &from_u64(1))
    } else {
        let down = times_ten(from_u64(1), (-k) as u128);
        assert(1 * ten((-k) as nat) == ten((-k) as nat));
        round_quotient(&to_units(b), &down)
    };
    match assemble(false, m, j, Ghost(scaled(d as nat, k as int))) {
        Real::Finite(y) => y.equals(x),
        _ => false,
    }
}

/// The magnitude as a large number of units.
fn units_of(x: Float) -> (r: Big)
    requires
        x.wf(),
        x.e <= 971,
    ensures
        r@ == x.magnitude(),
{
    let mut r = from_u64(x.m);
    let mut i: i128 = -1074;
    proof {
        lemma2_to64();
        assert(x.m * 1 == x.m);
    }
    while i < x.e
        invariant
            -1074 <= i <= x.e <= 971,
            r@ == x.m as nat * pow2((i + 1074) as nat),
        decreases x.e - i,
    {
        proof {
            lemma_pow2_unfold((i + 1 + 1074) as nat);
            let (m, p) = (x.m as nat, pow2((i + 1074) as nat));
            assert((m * p) * 2 == m * (2 * p)) by (nonlinear_arith);
        }
        r = r.times_plus(2, 0);
        i = i + 1;
    }
    r
}

/// The first power of ten that a magnitude is less than.
fn find_order(v: &Big) -> (r: i128)
    requires
        v@ < limit(),
    ensures
        r == order(v@),
        -330 <= r <= 320,
        below(v@, r as int),
{
    let a = times_ten(v.times_plus(1, 0), 330);
    let mut b = to_units(from_u64(1));
    let mut p: i128 = -330;
    proof {
        assert(v@ * 1 == v@);
        assert(1 * one() == one());
        assert(one() * 1 == one());
        lemma_order_found(v@);
        lemma_shift(v@, -330, 0);
        lemma_order_step(v@, -330, a@, b@);
    }
    while p < 320 && !a.less(&b)
        invariant
            -330 <= p <= 320,
            v@ < limit(),
            below(v@, 320),
            a@ == v@ * ten(330),
            b@ == one() * ten((p + 330) as nat),
            (a@ < b@) == below(v@, p as int),
            order(v@) == order_from(v@, p as int),
        decreases 320 - p,
    {
        proof {
            let t = ten((p + 330) as nat);
            assert((one() * t) * 10 == one() * (10 * t)) by (nonlinear_arith);
            lemma_order_step(v@, p + 1, a@, one() * ten((p + 1 + 330) as nat));
        }
        b = b.times_plus(10, 0);
        p = p + 1;
    }
    p
}

/// Comparing with a power of ten, scaled up.
proof fn lemma_order_step(v: nat, p: int, a: nat, b: nat)
    requires
        p >= -330,
        a == v * ten(330),
        b == one() * ten((p + 330) as nat),
    ensures
        (a < b) == below(v, p),
{
    let n = (p + 330) as nat;
    lemma_shift(v, -330, n);
    lemma_shift(v, p, 0);
    lemma_pow2_pos(1074);
    let (c, d, u, t) = (top_at(v, p), bottom_at(p), one(), ten(n));
    assert((a < u * t) == (c < d)) by (nonlinear_arith)
        requires
            a * d == c * t * u,
            t > 0,
            u > 0,
            d > 0,
    ;
}

/// The multiple of `10^k` that reads back, and the one below the magnitude.
fn find_readable(v: &Big, x: Float, p: i128, n: i128) -> (r: (Option<u64>, u64))
    requires
        x.wf(),
        !x.neg,
        x.e <= 971,
        v@ == x.magnitude(),
        -330 <= p <= 320,
        below(v@, p as int),
        1 <= n <= 17,
    ensures
        r.1 == top_at(v@, p - n) / bottom_at(p - n),
        readable(v@, p - n) == (match r.0 {
            Some(d) => Some(d as nat),
            None => None,
        }),
        r.0 matches Some(d) ==> d <= 0x200_0000_0000_0000,
        r.1 <= 0x200_0000_0000_0000,
{
    let k: i128 = p - n;
    proof {
        lemma_digits_bound(v@, p as int, n as nat);
        lemma_shift(v@, k as int, 0);
        assert(v@ * 1 == v@);
    }
    let (q, up) = if k >= 0 {
        let unit = to_units(from_u64(1));
        let bottom = times_ten(unit, k as u128);
        assert(1 * one() == one());
        divide_small(v, &bottom)
    } else {
        let top = times_ten(v.times_plus(1, 0), (-k) as u128);
        let bottom = to_units(from_u64(1));
        assert(1 * one() == one());
        divide_small(&top, &bottom)
    };
    let low = reads_as(q, k, x);
    let high = reads_as(q + 1, k, x);
    let d = if low && (!high || !up) {
        Some(q)
    } else if high {
        Some(q + 1)
    } else {
        None
    };
    (d, q)
}

fn find_digits(x: Float) -> (r: (u64, i128))
    requires
        x.wf(),
        !x.neg,
        x.e <= 971,
    ensures
        (r.0 as nat, r.1 as int) == digits_from(x.magnitude(), order(x.magnitude()), 1),
        r.0 <= 0x200_0000_0000_0000,
        -347 <= r.1 <= 320,
{
    let v = units_of(x);
    proof {
        lemma_finite(x);
    }
    let p = find_order(&v);
    let mut n: i128 = 1;
    loop
        invariant
            x.wf(),
            !x.neg,
            x.e <= 971,
            v@ == x.magnitude(),
            -330 <= p <= 320,
            below(v@, p as int),
            p == order(v@),
            1 <= n <= 17,
            digits_from(v@, p as int, 1) == digits_from(v@, p as int, n as nat),
        decreases 17 - n,
    {
        let (found, low) = find_readable(&v, x, p, n);
        if let Some(d) = found {
            return (d, p - n);
        }
        if n >= 17 {
            return (low, p - n);
        }
        n = n + 1;
    }
}

fn strip_zeros(d: u64, k: i128) -> (r: (u64, i128))
    requires
        -347 <= k <= 320,
    ensures
        (r.0 as nat, r.1 as int) == stripped(d as nat, k as int),
        -347 <= r.1 <= 320,
{
    let mut d = d;
    let mut k = k;
    let ghost want = stripped(d as nat, k as int);
    while k < 0 && d % 10 == 0
        invariant
            -347 <= k <= 320,
            stripped(d as nat, k as int) == want,
        decreases -k,
    {
        d = d / 10;
        k = k + 1;
    }
    (d, k)
}

fn put_zeros(out: &mut String, k: u32)
    ensures
        final(out)@ == old(out)@ + Seq::new(k as nat, |i: int| '0'),
{
    let ghost before = out@;
    assert(out@ =~= before + Seq::new(0, |i: int| '0'));
    for j in 0..k
        invariant
            out@ == before + Seq::new(j as nat, |i: int| '0'),
    {
        out.push('0');
        assert(out@ =~= before + Seq::new((j + 1) as nat, |i: int| '0'));
    }
}

fn put_plain(out: &mut String, d: u64, k: i128)
    requires
        -347 <= k <= 320,
    ensures
        final(out)@ == old(out)@ + plain(d as nat, k as int),
{
    let ghost before = out@;
    if k >= 0 {
        put_decimal(out, d);
        put_zeros(out, k as u32);
        assert(out@ =~= before + plain(d as nat, k as int));
    } else {
        let f: u32 = (-k) as u32;
        let mut whole = d;
        assert(d as nat / 1 == d);
        for i in 0..f
            invariant
                whole == d as nat / ten(i as nat),
        {
            proof {
                lemma_ten_adds(i as nat, 0);
                lemma_div_denominator(d as int, ten(i as nat) as int, 10);
                let t = ten(i as nat);
                assert(t * 10 == 10 * t);
            }
            whole = whole / 10;
        }
        put_decimal(out, whole);
        out.push('.');
        put_padded(out, d, f);
        assert(out@ =~= before + plain(d as nat, k as int));
    }
}

/// Appends the shortest notation of a number.
pub fn put_shortest(out: &mut String, x: Float)
    requires
        x.wf(),
        x.e <= 971,
    ensures
        final(out)@ == old(out)@ + shown(x.value()),
{
    let ghost before = out@;
    if x.m == 0 {
        out.push('0');
        proof {
            let (m, p) = (x.m, pow2((x.e + 1074) as nat));
            assert(m * p == 0) by (nonlinear_arith)
                requires
                    m == 0,
            ;
        }
        assert(out@ =~= before + shown(x.value()));
        return;
    }
    proof {
        lemma_pow2_pos((x.e + 1074) as nat);
        let (m, p) = (x.m, pow2((x.e + 1074) as nat));
        assert(m * p > 0) by (nonlinear_arith)
            requires
                m > 0,
                p > 0,
        ;
    }
    if x.neg {
        out.push('-');
    }
    let y = Float { neg: false, ..x };
    let (d, k) = find_digits(y);
    let (e, j) = strip_zeros(d, k);
    put_plain(out, e, j);
    assert(out@ =~= before + shown(x.value()));
}

} // verus!
