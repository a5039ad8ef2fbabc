//! What the audio plan amounts to: how fast the audio plays, and by which filters.

use vstd::prelude::*;
use vstd::arithmetic::div_mod::lemma_fundamental_div_mod;
use vstd::arithmetic::power2::{
    lemma2_to64, lemma2_to64_rest, lemma_pow2_adds, lemma_pow2_pos, lemma_pow2_strictly_increases,
    pow2,
};
use crate::accuracy::{
    lemma_abs_product, lemma_one_is_large, lemma_product_error, lemma_quotient_error,
    lemma_sum_error,
};
use crate::audio::{
    after_fast, after_slow, audio_chain, billionth, changes, fast_stages, new_rate, slow_stages,
    speed_chain, tempo_chain, tempo_stages_make_the_speed, tempo_stages_suffice, too_fast, too_slow,
    Timing,
};
use crate::binary64::{
    difference, fraction, halves_are_exact, magnitude_of, one, product, quotient, rounded,
    rounding_error, Float,
};
use crate::config::AudioMode;
use crate::decimals::{limit, RealView};
use crate::fixed::fixed;
use crate::number::decimal;
use crate::reals::{fixed_real, lemma_whole_real, real_product, real_quotient, whole_real};
use crate::rounding::lemma_rounded_scale;
use crate::slices::lemma_quotient_close;
use crate::track::{half, two};

verus! {

/// Parts of a number that rounding can tell apart.
pub open spec fn parts() -> int {
    0x20_0000_0000_0000
}

/// A number is another one, but for so many parts in 2^53.
pub open spec fn near(x: int, y: int, k: int) -> bool {
    0x20_0000_0000_0000 * magnitude_of(x - y) <= k * y
}

pub proof fn lemma_near_both(x: int, y: int, z: int, a: int, b: int)
    requires
        near(x, y, a),
        near(y, z, b),
        0 <= a <= 1000,
        0 <= b <= 1000,
        z >= 0,
    ensures
        near(x, z, a + b + 1),
{
    let k = parts();
    let d = magnitude_of(y - z);
    assert(y <= z + d);
    assert(a * y <= a * z + a * d) by (nonlinear_arith)
        requires
            y <= z + d,
            a >= 0,
    ;
    assert(a * d <= 1000 * d) by (nonlinear_arith)
        requires
            a <= 1000,
            d >= 0,
    ;
    assert(b * z <= 1000 * z) by (nonlinear_arith)
        requires
            b <= 1000,
            z >= 0,
    ;
    assert(1000 * d <= z) by {
        assert(k * d <= 1000 * z);
    }
    assert((a + b + 1) * z == a * z + b * z + z) by (nonlinear_arith);
}

pub proof fn lemma_near_back(x: int, y: int, a: int)
    requires
        near(x, y, a),
        0 <= a <= 1000,
        y >= 0,
    ensures
        near(y, x, a + 1),
        x >= 0,
{
    let d = magnitude_of(x - y);
    assert(a * y <= 1000 * y) by (nonlinear_arith)
        requires
            a <= 1000,
            y >= 0,
    ;
    assert(a * y <= a * x + a * d) by (nonlinear_arith)
        requires
            y <= x + d,
            a >= 0,
    ;
    assert(a * d <= 1000 * d) by (nonlinear_arith)
        requires
            a <= 1000,
            d >= 0,
    ;
    assert(1000 * d <= x);
    assert((a + 1) * x == a * x + x) by (nonlinear_arith);
}

pub proof fn lemma_near_times(x: int, y: int, c: int, a: int)
    requires
        near(x, y, a),
        c >= 0,
    ensures
        near(x * c, y * c, a),
{
    let k = parts();
    let d = x - y;
    let m = magnitude_of(d);
    assert(x * c - y * c == d * c) by (nonlinear_arith)
        requires
            d == x - y,
    ;
    lemma_abs_product(d, c, m, c);
    assert(k * (m * c) <= a * (y * c)) by (nonlinear_arith)
        requires
            k * m <= a * y,
            c >= 0,
    ;
}

pub proof fn lemma_near_over(x: int, y: int, c: int, a: int)
    requires
        near(x * c, y * c, a),
        c > 0,
    ensures
        near(x, y, a),
{
    let k = parts();
    let d = x - y;
    let m = magnitude_of(d);
    assert(x * c - y * c == d * c) by (nonlinear_arith)
        requires
            d == x - y,
    ;
    lemma_abs_product(d, c, m, c);
    assert(k * m <= a * y) by (nonlinear_arith)
        requires
            k * (m * c) <= a * (y * c),
            c > 0,
    ;
}

/// A whole number as a number of the format.
pub proof fn lemma_near_whole(n: nat)
    ensures
        near(fraction(n, 1) as int, (n * one()) as int, 1),
        n >= 1 ==> fraction(n, 1) >= 1,
{
    lemma2_to64_rest();
    lemma_pow2_pos(1074);
    rounding_error(n * one());
    let u = one();
    if n >= 1 {
        assert(n * u >= u) by (nonlinear_arith)
            requires
                n >= 1,
                u > 0,
        ;
    }
}

/// A quotient that is not tiny.
pub proof fn lemma_near_quotient(a: int, b: int)
    requires
        a >= 0,
        b > 0,
        parts() * b <= a * one(),
    ensures
        near(quotient(a, b) * b, a * one(), 2),
        quotient(a, b) > 0,
{
    lemma_pow2_pos(1074);
    lemma_quotient_close(a, b);
    let q = quotient(a, b);
    let w = a * one();
    assert(2 * (q * b) >= w);
    assert(q > 0) by (nonlinear_arith)
        requires
            2 * (q * b) >= w,
            w > 0,
            b > 0,
    ;
}

/// A product that is not tiny.
pub proof fn lemma_near_product(a: int, b: int)
    requires
        a * b >= parts() * one(),
    ensures
        near(product(a, b) * one(), a * b, 2),
        product(a, b) > 0,
{
    let u = one() as int;
    lemma_pow2_pos(1074);
    lemma_product_error(a, b);
    let q = product(a, b);
    assert(q * u > 0);
    assert(q > 0) by (nonlinear_arith)
        requires
            q * u > 0,
            u > 0,
    ;
}

/// A range of rates in which no duration and no speed leaves the numbers of the format: from 2^-100
/// to 2^100 frames per second.
pub open spec fn ordinary(fps: int) -> bool {
    one() <= pow2(100) * fps && fps <= pow2(100) * one()
}

/// Numbers that are not so large that they count as infinite.
pub proof fn lemma_finite_amount(v: int)
    requires
        0 <= v <= pow2(600) * one(),
    ensures
        v < limit(),
{
    lemma_pow2_strictly_increases(600, 1024);
    lemma_pow2_pos(1074);
    let (a, b, u) = (pow2(600), pow2(1024), one());
    assert(a * u < b * u) by (nonlinear_arith)
        requires
            a < b,
            u > 0,
    ;
}

/// A quotient of numbers between known bounds.
pub proof fn lemma_ratio(a: int, b: int, x: int, y: int, z: int, w: int)
    requires
        a > 0,
        b > 0,
        x > 0 && y > 0 && z > 0 && w > 0,
        a <= x * one(),
        one() <= y * a,
        b <= z * one(),
        one() <= w * b,
        parts() * (z * y) <= one(),
        2 * (x * w) <= pow2(600),
    ensures
        ({
            let q = quotient(a, b);
            &&& real_quotient(RealView::Finite(a), RealView::Finite(b)) == RealView::Finite(q)
            &&& q > 0
            &&& near(q * b, a * one(), 2)
            &&& q <= (2 * (x * w)) * one()
            &&& one() <= (2 * (y * z)) * q
        }),
{
    let u = one() as int;
    let k = parts();
    lemma_pow2_pos(1074);
    assert(k * b <= a * u) by (nonlinear_arith)
        requires
            b <= z * u,
            u <= y * a,
            k * (z * y) <= u,
            k > 0,
            u > 0,
            y > 0,
            z > 0,
            a > 0,
            b > 0,
    {
        assert(k * b <= (k * z) * u);
        assert((k * z) * u <= (k * z) * (y * a));
        assert((k * z) * (y * a) == (k * (z * y)) * a);
        assert((k * (z * y)) * a <= u * a);
    }
    lemma_near_quotient(a, b);
    let q = quotient(a, b);
    let (qb, au) = (q * b, a * u);
    assert(qb <= 2 * au && au <= 2 * qb);
    assert(q <= 2 * (w * a)) by (nonlinear_arith)
        requires
            q * b <= 2 * (a * u),
            u <= w * b,
            q > 0,
            w > 0,
            b > 0,
            u > 0,
    {
        assert(q * u <= q * (w * b));
        assert(q * (w * b) == w * (q * b));
        assert(w * (q * b) <= w * (2 * (a * u)));
        assert(w * (2 * (a * u)) == (2 * (w * a)) * u);
    }
    assert(w * a <= (x * w) * u) by (nonlinear_arith)
        requires
            a <= x * u,
            w > 0,
    ;
    assert((2 * (x * w)) * u == 2 * ((x * w) * u)) by (nonlinear_arith);
    assert(a <= 2 * (q * z)) by (nonlinear_arith)
        requires
            a * u <= 2 * (q * b),
            b <= z * u,
            q > 0,
            u > 0,
    {
        assert(q * b <= q * (z * u));
        assert(q * (z * u) == (q * z) * u);
    }
    assert(y * a <= (2 * (y * z)) * q) by (nonlinear_arith)
        requires
            a <= 2 * (q * z),
            y > 0,
    ;
    let m = 2 * (x * w);
    let t = pow2(600) as int;
    assert(m * u <= t * u) by (nonlinear_arith)
        requires
            m <= t,
            u > 0,
    ;
    lemma_finite_amount(q);
}

/// The powers of two that bound durations and speeds.
pub proof fn lemma_bounds()
    ensures
        pow2(100) == 0x10_0000_0000_0000_0000_0000_0000,
        one() >= pow2(600),
        pow2(600) >= 0x1000_0000_0000_0000_0000_0000_0000_0000 * (
        0x1000_0000_0000_0000_0000_0000_0000_0000 * (0x1000_0000_0000_0000_0000_0000_0000_0000
            * 0x1000_0000_0000_0000_0000_0000_0000_0000)),
{
    lemma2_to64();
    lemma2_to64_rest();
    lemma_pow2_adds(50, 50);
    lemma_pow2_adds(62, 62);
    lemma_pow2_adds(124, 124);
    lemma_pow2_adds(248, 248);
    lemma_pow2_strictly_increases(496, 600);
    lemma_pow2_strictly_increases(600, 1074);
    let c = 0x1000_0000_0000_0000_0000_0000_0000_0000int;
    assert(pow2(124) == c);
    let d = pow2(248) as int;
    assert(d == c * c);
    assert(d * d == c * (c * (c * c))) by (nonlinear_arith)
        requires
            d == c * c,
    ;
}

/// The frames of the source, as a number of the format.
proof fn lemma_source(i: nat, n: nat)
    requires
        1 <= i <= u64::MAX,
        1 <= n <= u64::MAX,
    ensures
        ({
            let a = product(fraction(i, 1) as int, fraction(n, 1) as int);
            let y = (i * n) * one();
            &&& real_product(whole_real(i), whole_real(n)) == RealView::Finite(a)
            &&& a > 0
            &&& near(a, y as int, 6)
            &&& a <= (4 * 0xffff_ffff_ffff_ffff_ffff_ffff_ffff_ffff) * one()
            &&& one() <= 2 * a
        }),
{
    let u = one() as int;
    lemma_bounds();
    lemma_whole_real(i);
    lemma_whole_real(n);
    lemma_near_whole(i);
    lemma_near_whole(n);
    let (f, g) = (fraction(i, 1) as int, fraction(n, 1) as int);
    let (iu, nu) = (i * u, n * u);
    assert(iu >= u && nu >= u) by (nonlinear_arith)
        requires
            iu == i * u,
            nu == n * u,
            i >= 1,
            n >= 1,
            u > 0,
    ;
    assert(2 * f >= u && 2 * g >= u);
    assert(f * g >= parts() * u) by (nonlinear_arith)
        requires
            2 * f >= u,
            2 * g >= u,
            u >= 4 * parts(),
    ;
    lemma_near_product(f, g);
    lemma_near_times(f, iu, g, 1);
    lemma_near_times(g, nu, iu, 1);
    assert(g * iu == iu * g && nu * iu == iu * nu) by (nonlinear_arith);
    let a = product(f, g);
    let w = iu * nu;
    assert(w >= 0) by (nonlinear_arith)
        requires
            w == iu * nu,
            iu >= 0,
            nu >= 0,
    ;
    lemma_near_both(f * g, iu * g, w, 1, 1);
    lemma_near_both(a * u, f * g, w, 2, 3);
    let m = (i * n) as int;
    let y = m * u;
    assert(w == y * u) by (nonlinear_arith)
        requires
            w == iu * nu,
            iu == i * u,
            nu == n * u,
            m == i * n,
            y == m * u,
    ;
    lemma_near_over(a, y, u, 6);
    assert(1 <= m <= 0xffff_ffff_ffff_ffff_ffff_ffff_ffff_ffff) by (nonlinear_arith)
        requires
            m == i * n,
            1 <= i <= 0xffff_ffff_ffff_ffff,
            1 <= n <= 0xffff_ffff_ffff_ffff,
    ;
    assert(u <= y <= 0xffff_ffff_ffff_ffff_ffff_ffff_ffff_ffff * u) by (nonlinear_arith)
        requires
            y == m * u,
            1 <= m <= 0xffff_ffff_ffff_ffff_ffff_ffff_ffff_ffff,
            u > 0,
    ;
    assert(u <= 2 * a && a <= 2 * y);
    let c = 4 * 0xffff_ffff_ffff_ffff_ffff_ffff_ffff_ffffint;
    assert(a <= c * u) by (nonlinear_arith)
        requires
            a <= 2 * y,
            y <= 0xffff_ffff_ffff_ffff_ffff_ffff_ffff_ffff * u,
            c == 4 * 0xffff_ffff_ffff_ffff_ffff_ffff_ffff_ffff,
            u > 0,
    ;
    let t = pow2(600) as int;
    assert(c * u <= t * u) by (nonlinear_arith)
        requires
            c <= t,
            u > 0,
    ;
    lemma_finite_amount(a);
    assert(!whole_real(i).below() && !whole_real(n).below());
}

/// How long frames last.
pub proof fn lemma_duration(o: nat, g: int)
    requires
        1 <= o <= u64::MAX,
        ordinary(g),
    ensures
        ({
            let d = quotient(fraction(o, 1) as int, g);
            &&& real_quotient(whole_real(o), RealView::Finite(g)) == RealView::Finite(d)
            &&& d > 0
            &&& near(d * g, ((o * one()) * one()) as int, 4)
            &&& d <= (pow2(100) * 0x4_0000_0000_0000_0000) * one()
            &&& one() <= (4 * pow2(100)) * d
        }),
{
    let u = one() as int;
    let p = pow2(100) as int;
    lemma_bounds();
    lemma_whole_real(o);
    lemma_near_whole(o);
    let f = fraction(o, 1) as int;
    let ou = o * u;
    assert(u <= ou <= 0x1_0000_0000_0000_0000 * u) by (nonlinear_arith)
        requires
            ou == o * u,
            1 <= o <= 0x1_0000_0000_0000_0000,
            u > 0,
    ;
    assert(g > 0) by (nonlinear_arith)
        requires
            u <= p * g,
            u > 0,
            p > 0,
    ;
    lemma_ratio(f, g, 0x2_0000_0000_0000_0000, 2, p, p);
    let d = quotient(f, g);
    lemma_near_times(f, ou, u, 1);
    lemma_near_both(d * g, f * u, ou * u, 2, 1);
}

/// The audio plays as much faster as the source lasts longer than the output: with both frame counts
/// known, the speed times the output's frames and the source's rate is the source's frames times the
/// output's rate, but for rounding. The duration that the audio is cut to is that of the output's
/// frames at the output's rate.
pub proof fn the_speed_is_the_ratio_of_the_durations(i: nat, f: int, nth: nat, o: nat, g: int)
    requires
        1 <= i <= u64::MAX,
        1 <= nth <= u64::MAX,
        1 <= o <= u64::MAX,
        ordinary(f),
        ordinary(g),
    ensures
        ({
            let t = Timing {
                in_frames: Some(i),
                in_fps: RealView::Finite(f),
                nth,
                out_frames: Some(o),
                out_fps: RealView::Finite(g),
            };
            &&& t.speed() matches RealView::Finite(v) && v > 0 && near(
                (v * o) * f,
                ((i * nth) * g) * one(),
                40,
            )
            &&& t.duration() matches Some(RealView::Finite(d)) && d > 0 && near(
                d * g,
                ((o * one()) * one()) as int,
                4,
            )
        }),
{
    let u = one() as int;
    let p = pow2(100) as int;
    lemma_bounds();
    lemma_source(i, nth);
    lemma_duration(o, g);
    let a = product(fraction(i, 1) as int, fraction(nth, 1) as int);
    assert(f > 0 && g > 0) by (nonlinear_arith)
        requires
            u <= p * f,
            u <= p * g,
            u > 0,
            p > 0,
    ;
    lemma_ratio(a, f, 4 * 0xffff_ffff_ffff_ffff_ffff_ffff_ffff_ffffint, 2, p, p);
    let before = quotient(a, f);
    let after = quotient(fraction(o, 1) as int, g);
    lemma_ratio(
        before,
        after,
        2 * ((4 * 0xffff_ffff_ffff_ffff_ffff_ffff_ffff_ffff) * p),
        2 * (2 * p),
        p * 0x4_0000_0000_0000_0000,
        4 * p,
    );
    let v = quotient(before, after);
    lemma_speeds(v, before, after, a, i, nth, o, f, g);
}

/// The chain of quotients that makes a speed.
proof fn lemma_speeds(v: int, before: int, after: int, a: int, i: nat, n: nat, o: nat, f: int, g: int)
    requires
        v > 0 && before > 0 && after > 0 && a > 0 && f > 0 && g > 0,
        near(v * after, before * one(), 2),
        near(before * f, a * one(), 2),
        near(a, ((i * n) * one()) as int, 6),
        near(after * g, ((o * one()) * one()) as int, 4),
    ensures
        near((v * o) * f, ((i * n) * g) * one(), 40),
{
    let u = one() as int;
    lemma_pow2_pos(1074);
    let m = (i * n) as int;
    let mu = m * u;
    let ou = (o * one()) * u;
    assert(m >= 0 && mu >= 0 && ou >= 0) by (nonlinear_arith)
        requires
            m == i * n,
            mu == m * u,
            ou == (o * u) * u,
            u > 0,
    ;
    // what is before, times the source's rate
    lemma_near_times(a, mu, u, 6);
    assert(mu * u >= 0) by (nonlinear_arith)
        requires
            mu >= 0,
            u > 0,
    ;
    lemma_near_both(before * f, a * u, mu * u, 2, 6);
    // the speed, times both rates
    let fg = f * g;
    assert(fg >= 0) by (nonlinear_arith)
        requires
            fg == f * g,
            f > 0,
            g > 0,
    ;
    lemma_near_times(v * after, before * u, fg, 2);
    let left = (v * after) * fg;
    let right = (before * u) * fg;
    let ug = u * g;
    assert(ug >= 0) by (nonlinear_arith)
        requires
            ug == u * g,
            u > 0,
            g > 0,
    ;
    lemma_near_times(before * f, mu * u, ug, 9);
    assert((before * f) * ug == right) by (nonlinear_arith)
        requires
            ug == u * g,
            fg == f * g,
            right == (before * u) * fg,
    ;
    let want = (mu * u) * ug;
    assert(want >= 0) by (nonlinear_arith)
        requires
            want == (mu * u) * ug,
            mu * u >= 0,
            ug >= 0,
    ;
    lemma_near_both(left, right, want, 2, 9);
    let vf = v * f;
    assert(vf >= 0) by (nonlinear_arith)
        requires
            vf == v * f,
            v > 0,
            f > 0,
    ;
    lemma_near_times(after * g, ou, vf, 4);
    assert((after * g) * vf == left) by (nonlinear_arith)
        requires
            vf == v * f,
            fg == f * g,
            left == (v * after) * fg,
    ;
    let have = ou * vf;
    assert(have >= 0) by (nonlinear_arith)
        requires
            have == ou * vf,
            ou >= 0,
            vf >= 0,
    ;
    lemma_near_back(left, have, 4);
    lemma_near_both(have, left, want, 5, 12);
    let uu = u * u;
    let (x, y) = ((v * o) * f, (m * g) * u);
    assert(have == x * uu) by (nonlinear_arith)
        requires
            have == ou * vf,
            ou == (o * u) * u,
            vf == v * f,
            uu == u * u,
            x == (v * o) * f,
    ;
    assert(want == y * uu) by (nonlinear_arith)
        requires
            want == (mu * u) * ug,
            mu == m * u,
            ug == u * g,
            uu == u * u,
            y == (m * g) * u,
    ;
    assert(uu > 0) by (nonlinear_arith)
        requires
            uu == u * u,
            u > 0,
    ;
    lemma_near_over(x, y, uu, 18);
    assert(y >= 0) by (nonlinear_arith)
        requires
            y == (m * g) * u,
            m >= 0,
            g > 0,
            u > 0,
    ;
    assert(18 * y <= 40 * y);
}

/// With unknown frame counts the audio plays as much faster as the output's rate is higher than the
/// source's, and `nth` times as fast where only every `nth` frame is kept.
pub proof fn the_speed_follows_the_rates(i: Option<nat>, f: int, nth: nat, o: Option<nat>, g: int)
    requires
        i is None || o is None,
        1 <= nth <= u64::MAX,
        ordinary(f),
        ordinary(g),
    ensures
        ({
            let t = Timing {
                in_frames: i,
                in_fps: RealView::Finite(f),
                nth,
                out_frames: o,
                out_fps: RealView::Finite(g),
            };
            &&& t.speed() matches RealView::Finite(v) && v > 0 && near(
                v * f,
                (nth * g) * one(),
                10,
            )
            &&& t.duration() is None
        }),
{
    let u = one() as int;
    let p = pow2(100) as int;
    lemma_bounds();
    lemma_whole_real(nth);
    lemma_near_whole(nth);
    let n = fraction(nth, 1) as int;
    let nu = nth * u;
    assert(u <= nu <= 0x1_0000_0000_0000_0000 * u) by (nonlinear_arith)
        requires
            nu == nth * u,
            1 <= nth <= 0x1_0000_0000_0000_0000,
            u > 0,
    ;
    assert(f > 0 && g > 0) by (nonlinear_arith)
        requires
            u <= p * f,
            u <= p * g,
            u > 0,
            p > 0,
    ;
    assert(n * g >= parts() * u) by (nonlinear_arith)
        requires
            2 * n >= u,
            u <= p * g,
            u >= 2 * (parts() * p),
            g > 0,
            p > 0,
            u > 0,
    {
        assert((2 * n) * g >= u * g);
        assert(u * g >= (2 * (parts() * p)) * g);
        assert((2 * (parts() * p)) * g == 2 * (parts() * (p * g)));
    }
    lemma_near_product(n, g);
    let a = product(n, g);
    lemma_near_times(n, nu, g, 1);
    let ng = nth * g;
    assert(nu * g == ng * u) by (nonlinear_arith)
        requires
            nu == nth * u,
            ng == nth * g,
    ;
    assert(ng >= g) by (nonlinear_arith)
        requires
            ng == nth * g,
            nth >= 1,
            g > 0,
    ;
    assert(ng * u >= 0) by (nonlinear_arith)
        requires
            ng >= 0,
            u > 0,
    ;
    lemma_near_both(a * u, n * g, ng * u, 2, 1);
    lemma_near_over(a, ng, u, 4);
    assert(ng <= (0x1_0000_0000_0000_0000 * p) * u) by (nonlinear_arith)
        requires
            ng == nth * g,
            0 < nth <= 0x1_0000_0000_0000_0000,
            0 < g <= p * u,
    ;
    assert((0x2_0000_0000_0000_0000 * p) * u == 2 * ((0x1_0000_0000_0000_0000 * p) * u))
        by (nonlinear_arith);
    assert(a <= (0x2_0000_0000_0000_0000 * p) * u);
    assert(g <= 2 * a);
    assert(u <= (2 * p) * a) by (nonlinear_arith)
        requires
            u <= p * g,
            g <= 2 * a,
            p > 0,
    ;
    let (s, t) = (0x2_0000_0000_0000_0000 * p, pow2(600) as int);
    assert(s * u <= t * u) by (nonlinear_arith)
        requires
            s <= t,
            u > 0,
    ;
    lemma_finite_amount(a);
    lemma_ratio(a, f, s, 2 * p, p, p);
    let v = quotient(a, f);
    lemma_near_times(a, ng, u, 4);
    lemma_near_both(v * f, a * u, ng * u, 2, 4);
    let y = ng * u;
    assert(7 * y <= 10 * y);
}

/// How one billionth compares with one.
proof fn lemma_billionth()
    ensures
        999_999 * one() <= 1_000_000_000_000_000 * billionth() <= 1_000_001 * one(),
        one() >= 0x8000_0000_0000_0000_0000_0000_0000_0000,
{
    let u = one();
    lemma_one_is_large();
    assert(1 * u == u);
    lemma_quotient_error(u as int, 1_000_000_000);
}

/// A speed that differs from one by a billionth and a bit changes the audio; one that differs by less
/// than a billionth does not.
proof fn lemma_changes(v: int)
    ensures
        1_000_000_000_000 * magnitude_of(v - one()) >= 1001 * one() ==> changes(RealView::Finite(v)),
        1_000_000_000_000 * magnitude_of(v - one()) <= 999 * one() ==> !changes(RealView::Finite(v)),
{
    lemma_billionth();
    lemma_sum_error(v, one() as int);
}

/// A sample rate is `sr` times a speed: it is the nearest whole number, but for rounding, and at
/// least 1.
pub open spec fn plays_at(rate: nat, sr: nat, speed: int) -> bool {
    let exact = sr * speed;
    &&& rate >= 1
    &&& 2 * exact <= one() ==> rate == 1
    &&& 2 * exact >= one() && exact <= 0x8000_0000_0000_0000 * one() ==> 0x20_0000_0000_0000
        * magnitude_of(2 * (rate * one()) - 2 * exact) <= 0x20_0000_0000_0000 * one() + 2 * exact
    &&& exact >= 0x2_0000_0000_0000_0000 * one() ==> rate == u64::MAX
}

proof fn lemma_new_rate(sr: nat, v: int)
    requires
        1 <= sr <= u32::MAX,
        0 < v < limit(),
    ensures
        plays_at(new_rate(sr, RealView::Finite(v)), sr, v),
{
    let u = one() as int;
    lemma_pow2_pos(1074);
    let x = (sr * v) as nat;
    assert(x >= v) by (nonlinear_arith)
        requires
            x == sr * v,
            sr >= 1,
            v > 0,
    ;
    let su = (sr * one()) as int;
    assert(su * v == x * u) by (nonlinear_arith)
        requires
            su == sr * u,
            x == sr * v,
    ;
    assert(x * u >= 0) by (nonlinear_arith)
        requires
            x >= 0,
            u > 0,
    ;
    lemma_rounded_scale(x, 1, one(), 53);
    assert(1 * one() == one());
    lemma2_to64_rest();
    rounding_error(x);
    let r = product(su, v);
    assert(r == rounded(x, 1));
    assert(su > 0) by (nonlinear_arith)
        requires
            su == sr * u,
            sr >= 1,
            u > 0,
    ;
    let n = (2 * r + u) / (2 * u);
    lemma_fundamental_div_mod(2 * r + u, 2 * u);
    let nu = n * u;
    assert((2 * u) * n == 2 * nu) by (nonlinear_arith)
        requires
            nu == n * u,
    ;
    assert(2 * nu <= 2 * r + u < 2 * nu + 2 * u);
    lemma2_to64();
    lemma_pow2_strictly_increases(65, 1024);
    lemma_pow2_adds(64, 1);
    let big = pow2(1024) as int;
    assert(big * u >= 0x2_0000_0000_0000_0000 * u) by (nonlinear_arith)
        requires
            big >= 0x2_0000_0000_0000_0000,
            u > 0,
    ;
    assert(n >= 0) by (nonlinear_arith)
        requires
            2 * (n * u) + 2 * u > 0,
            u > 0,
    ;
    if x <= 0x8000_0000_0000_0000 * u {
        assert(n <= 0xffff_ffff_ffff_ffff) by (nonlinear_arith)
            requires
                2 * (n * u) <= 2 * r + u,
                2 * r <= 0x1_8000_0000_0000_0000 * u,
                u > 0,
        ;
    }
    if x >= 0x2_0000_0000_0000_0000 * u {
        assert(n >= 0xffff_ffff_ffff_ffff) by (nonlinear_arith)
            requires
                2 * r + u < 2 * (n * u) + 2 * u,
                r >= 0x1_8000_0000_0000_0000 * u,
                u > 0,
        ;
    }
    if 2 * x <= u {
        assert(n <= 1) by (nonlinear_arith)
            requires
                2 * (n * u) <= 2 * r + u,
                2 * r < 2 * u,
                u > 0,
        ;
    }
    if n == 0 {
        assert(nu == 0) by (nonlinear_arith)
            requires
                nu == n * u,
                n == 0,
        ;
    }
}

/// Tape-style speed: the audio is taken to have another sample rate, which is to its own as the speed
/// is to one, for slower speeds as well as for faster ones, and is converted back to its own.
pub proof fn tape_speed_scales_the_sample_rate(sr: nat, v: int)
    requires
        1 <= sr <= u32::MAX,
        0 < v < limit(),
        1_000_000_000_000 * magnitude_of(v - one()) >= 1001 * one(),
    ensures
        exists|rate: nat|
            {
                &&& #[trigger] plays_at(rate, sr, v)
                &&& speed_chain(AudioMode::Rate, RealView::Finite(v), sr) == seq![
                    "asetrate="@ + decimal(rate),
                    "aresample="@ + decimal(sr),
                ]
            },
{
    lemma_changes(v);
    lemma_new_rate(sr, v);
    let rate = new_rate(sr, RealView::Finite(v));
    assert(plays_at(rate, sr, v));
    assert(speed_chain(AudioMode::Rate, RealView::Finite(v), sr) =~= seq![
        "asetrate="@ + decimal(rate),
        "aresample="@ + decimal(sr),
    ]);
}

/// Filters that change the tempo: so many that double it, so many that halve it, and one for the rest,
/// which is between one half and two, but for two billionths, and may be left out only where it is
/// one. The doublings, the halvings and the rest multiply to the speed.
pub open spec fn makes_tempo(
    chain: Seq<Seq<char>>,
    speed: int,
    doubled: nat,
    halved: nat,
    rest: int,
) -> bool {
    let n = doubled + halved;
    &&& pow2(doubled) * rest == pow2(halved) * speed
    &&& 1_000_000_000 * (one() - 2 * rest) <= 4 * one()
    &&& 1_000_000_000 * (rest - 2 * one()) <= 2 * one()
    &&& n <= chain.len() <= n + 1
    &&& forall|k: int| 0 <= k < doubled ==> #[trigger] chain[k] == "atempo=2.0"@
    &&& forall|k: int| doubled <= k < n ==> #[trigger] chain[k] == "atempo=0.5"@
    &&& chain.len() == n + 1 ==> chain[n as int] == "atempo="@ + fixed(rest, 9)
    &&& chain.len() == n ==> 1_000_000_000_000 * magnitude_of(rest - one()) <= 1001 * one()
}

/// The tempo filters multiply to the speed.
pub proof fn tempo_filters_make_the_speed(speed: Float, sr: nat)
    requires
        speed.wf(),
        speed.value() > 0,
        1_000_000_000_000 * magnitude_of(speed.value() - one()) >= 1001 * one(),
    ensures
        exists|doubled: nat, halved: nat, rest: int| #[trigger]
            makes_tempo(
                speed_chain(AudioMode::Tempo, RealView::Finite(speed.value()), sr),
                speed.value(),
                doubled,
                halved,
                rest,
            ),
{
    let v = speed.value();
    lemma_changes(v);
    tempo_stages_make_the_speed(speed);
    tempo_stages_suffice(speed);
    let mid = after_fast(v);
    let rest = after_slow(mid);
    let (d, h) = (fast_stages(v), slow_stages(mid));
    let chain = tempo_chain(v);
    let (p, q) = (pow2(d), pow2(h));
    lemma_pow2_pos(d);
    lemma_pow2_pos(h);
    assert(rest > 0) by (nonlinear_arith)
        requires
            p * rest == q * v,
            q > 0,
            v > 0,
            p > 0,
    ;
    lemma_rest(rest);
    assert(speed_chain(AudioMode::Tempo, RealView::Finite(v), sr) == chain);
    assert(makes_tempo(chain, v, d, h, rest));
}

/// What is neither too fast nor too slow lies between one half and two, but for two billionths.
proof fn lemma_rest(t: int)
    requires
        t > 0,
        !too_fast(t),
        !too_slow(t),
    ensures
        1_000_000_000 * (one() - 2 * t) <= 4 * one(),
        1_000_000_000 * (t - 2 * one()) <= 2 * one(),
        magnitude_of(difference(t, one() as int)) <= billionth() ==> 1_000_000_000_000
            * magnitude_of(t - one()) <= 1001 * one(),
{
    let u = one() as int;
    lemma_billionth();
    let b = billionth();
    halves_are_exact(1);
    let h = pow2(1073) as int;
    assert(1 * h == h);
    assert(half() == h && u == 2 * h);
    lemma_sum_error(two(), b);
    lemma_sum_error(t, -two());
    lemma_sum_error(h, -b);
    lemma_sum_error(t, -h);
    lemma_sum_error(t, -u);
    lemma_sum_error(t, two());
    lemma_sum_error(t, h);
    lemma_sum_error(t, u);
    lemma_sum_error(h, b);
}

/// A speed of one, but for less than a billionth, needs no filter; nor does any where the audio keeps
/// its speed.
pub proof fn small_changes_are_left_out(mode: AudioMode, v: int, sr: nat)
    ensures
        1_000_000_000_000 * magnitude_of(v - one()) <= 999 * one() ==> speed_chain(
            mode,
            RealView::Finite(v),
            sr,
        ).len() == 0,
        forall|x: RealView| #[trigger] speed_chain(AudioMode::Keep, x, sr).len() == 0,
{
    lemma_changes(v);
}

/// Reversed audio is reversed first, and nothing else of the filters depends on that. Behind what
/// changes the speed, the audio is cut to the duration of the output, where that is known, and starts
/// at zero; filters that are asked for come last.
pub proof fn the_audio_is_reversed_paced_cut_and_filtered(
    mode: AudioMode,
    t: Timing,
    sr: nat,
    more: Option<Seq<char>>,
)
    ensures
        audio_chain(true, mode, t, sr, more) == seq!["areverse"@] + audio_chain(
            false,
            mode,
            t,
            sr,
            more,
        ),
        ({
            let chain = audio_chain(false, mode, t, sr, more);
            let paced = speed_chain(mode, t.speed(), sr);
            let n = paced.len() as int;
            let cut: int = if t.duration() is Some {
                1
            } else {
                0
            };
            &&& chain.len() >= n && chain.take(n) == paced
            &&& t.duration() matches Some(d) ==> chain[n] == "atrim=duration="@ + fixed_real(d, 6)
            &&& chain[n + cut] == "asetpts=PTS-STARTPTS"@
            &&& match more {
                Some(x) => chain.len() == n + cut + 2 && chain.last() == x,
                None => chain.len() == n + cut + 1,
            }
        }),
{
    let chain = audio_chain(false, mode, t, sr, more);
    let paced = speed_chain(mode, t.speed(), sr);
    assert(audio_chain(true, mode, t, sr, more) =~= seq!["areverse"@] + chain);
    assert(chain.take(paced.len() as int) =~= paced);
}

} // verus!
