//! The samples of a colour are those of BT.709: luma and colour differences, in full or in video
//! range, at any depth.

use vstd::prelude::*;
use vstd::arithmetic::div_mod::lemma_fundamental_div_mod;
use vstd::arithmetic::power2::{lemma2_to64, lemma_pow2_pos, pow2};
use crate::accuracy::{
    lemma_abs_product, lemma_one_is_large, lemma_product_error, lemma_quotient_error,
    lemma_sum_error,
};
use crate::binary64::{
    difference, fraction, half_away, magnitude_of, one, product, quotient, sum,
    whole_numbers_are_exact,
};
use crate::colour::{
    alpha_level, blue_difference, difference_level, level, luma, luma_level, red_difference, top,
    unit, whole, Colour,
};
use crate::pixfmt::{sample_bytes, FormatView, PlaneView};
use crate::rounding::{lemma_rounded_scale, rounding_is_monotonic};
use crate::slices::lemma_quotient_close;

verus! {

/// Parts of a number that rounding can tell apart.
spec fn parts() -> int {
    0x20_0000_0000_0000
}

/// A number stands for `n / d`, but for so many parts in 2^53.
spec fn stands_for(x: int, n: int, d: int, e: int) -> bool {
    d > 0 && parts() * magnitude_of(x * d - n * one()) <= e * (d * one())
}

/// A fraction that is written as one.
proof fn lemma_fraction(n: nat, d: nat)
    requires
        0 < d,
        n <= 2 * d,
    ensures
        stands_for(fraction(n, d) as int, n as int, d as int, 3),
{
    let u = one() as int;
    let k = parts();
    lemma_one_is_large();
    let v = n * u;
    assert(0 <= v <= 2 * (d * u)) by (nonlinear_arith)
        requires
            v == n * u,
            0 <= n <= 2 * d,
            u > 0,
    ;
    lemma_quotient_error(v, d);
    assert(k * d <= d * u) by (nonlinear_arith)
        requires
            k <= u,
            d > 0,
    ;
}

/// How large a number is that stands for one of at most `b`.
proof fn lemma_size(x: int, n: int, d: int, e: int, b: int)
    requires
        stands_for(x, n, d, e),
        0 <= e <= 0x1_0000_0000,
        b >= 1,
        magnitude_of(n) <= b * d,
    ensures
        magnitude_of(x) <= (b + 1) * one(),
{
    let u = one() as int;
    lemma_one_is_large();
    let du = d * u;
    let m = magnitude_of(x);
    lemma_abs_product(x, d, m, d);
    lemma_abs_product(n, u, magnitude_of(n), u);
    let nu = magnitude_of(n) * u;
    assert(nu <= b * du && du > 0) by (nonlinear_arith)
        requires
            nu == magnitude_of(n) * u,
            magnitude_of(n) <= b * d,
            du == d * u,
            d > 0,
            u > 0,
    ;
    assert(e * du <= 0x1_0000_0000 * du) by (nonlinear_arith)
        requires
            0 <= e <= 0x1_0000_0000,
            du > 0,
    ;
    assert(m * d <= b * du + du);
    assert(m <= (b + 1) * u) by (nonlinear_arith)
        requires
            m * d <= b * du + du,
            du == d * u,
            d > 0,
    ;
}

/// The same fraction with another denominator.
proof fn lemma_widened(x: int, n: int, d: int, e: int, c: int)
    requires
        stands_for(x, n, d, e),
        c > 0,
    ensures
        stands_for(x, n * c, d * c, e),
{
    let u = one() as int;
    let k = parts();
    let w = x * d - n * u;
    let m = magnitude_of(w);
    lemma_abs_product(w, c, m, c);
    assert(x * (d * c) - (n * c) * u == w * c) by (nonlinear_arith)
        requires
            w == x * d - n * u,
    ;
    assert(d * c > 0) by (nonlinear_arith)
        requires
            d > 0,
            c > 0,
    ;
    assert(k * (m * c) <= e * ((d * c) * u)) by (nonlinear_arith)
        requires
            k * m <= e * (d * u),
            c > 0,
    ;
}

/// A number and its negative.
proof fn lemma_opposite(x: int, n: int, d: int, e: int)
    requires
        stands_for(x, n, d, e),
    ensures
        stands_for(-x, -n, d, e),
{
    let u = one() as int;
    assert((-x) * d - (-n) * u == -(x * d - n * u)) by (nonlinear_arith);
}

/// A rounded sum.
proof fn lemma_sum_of(x: int, n: int, e: int, y: int, m: int, g: int, d: int, b: int)
    requires
        stands_for(x, n, d, e),
        stands_for(y, m, d, g),
        magnitude_of(x + y) <= b * one(),
    ensures
        stands_for(sum(x, y), n + m, d, e + g + b),
{
    let u = one() as int;
    let k = parts();
    lemma_sum_error(x, y);
    let s = sum(x, y);
    let w = s - (x + y);
    let mw = magnitude_of(w);
    lemma_abs_product(w, d, mw, d);
    let du = d * u;
    assert(k * (mw * d) <= b * du) by (nonlinear_arith)
        requires
            k * mw <= b * u,
            du == d * u,
            d > 0,
    ;
    assert(s * d - (n + m) * u == w * d + (x * d - n * u) + (y * d - m * u)) by (nonlinear_arith)
        requires
            w == s - (x + y),
    ;
    assert((e + g + b) * du == e * du + g * du + b * du) by (nonlinear_arith);
}

/// A rounded product of numbers up to three.
proof fn lemma_product_of(x: int, n: int, d: int, e: int, y: int, m: int, f: int, g: int)
    requires
        stands_for(x, n, d, e),
        stands_for(y, m, f, g),
        0 <= e,
        0 <= g,
        magnitude_of(x) <= 3 * one(),
        magnitude_of(y) <= 3 * one(),
        magnitude_of(m) <= 3 * f,
    ensures
        stands_for(product(x, y), n * m, d * f, 3 * e + 3 * g + 10),
{
    let u = one() as int;
    let k = parts();
    lemma_one_is_large();
    lemma_product_error(x, y);
    let p = product(x, y);
    let uu = u * u;
    let df = d * f;
    assert(df > 0 && uu > 0) by (nonlinear_arith)
        requires
            df == d * f,
            d > 0,
            f > 0,
            uu == u * u,
            u > 0,
    ;
    lemma_abs_product(x, y, 3 * u, 3 * u);
    assert((3 * u) * (3 * u) == 9 * uu) by (nonlinear_arith)
        requires
            uu == u * u,
    ;
    assert(k * u <= uu) by (nonlinear_arith)
        requires
            uu == u * u,
            k <= u,
            u > 0,
    ;
    let a = p * u - x * y;
    let ma = magnitude_of(a);
    assert(k * ma <= 10 * uu);
    let (s, t) = (x * d - n * u, y * f - m * u);
    let (ms, mt) = (magnitude_of(s), magnitude_of(t));
    let w = df * uu;
    // the product
    lemma_abs_product(a, df, ma, df);
    assert(k * (ma * df) <= 10 * w) by (nonlinear_arith)
        requires
            k * ma <= 10 * uu,
            w == df * uu,
            df > 0,
    ;
    // the second factor
    let xd = x * d;
    lemma_abs_product(x, d, 3 * u, d);
    lemma_abs_product(xd, t, (3 * u) * d, mt);
    assert(k * (((3 * u) * d) * mt) <= (3 * g) * w) by (nonlinear_arith)
        requires
            k * mt <= g * (f * u),
            w == df * uu,
            df == d * f,
            uu == u * u,
            u > 0,
            d > 0,
            mt >= 0,
    {
        let c = (3 * u) * d;
        assert(c > 0);
        assert(k * (c * mt) == c * (k * mt));
        assert(c * (k * mt) <= c * (g * (f * u)));
        assert(c * (g * (f * u)) == (3 * g) * ((d * f) * (u * u)));
    }
    // the first factor
    let mu = m * u;
    lemma_abs_product(m, u, 3 * f, u);
    lemma_abs_product(mu, s, (3 * f) * u, ms);
    assert(k * (((3 * f) * u) * ms) <= (3 * e) * w) by (nonlinear_arith)
        requires
            k * ms <= e * (d * u),
            w == df * uu,
            df == d * f,
            uu == u * u,
            u > 0,
            f > 0,
            ms >= 0,
    {
        let c = (3 * f) * u;
        assert(c > 0);
        assert(k * (c * ms) == c * (k * ms));
        assert(c * (k * ms) <= c * (e * (d * u)));
        assert(c * (e * (d * u)) == (3 * e) * ((d * f) * (u * u)));
    }
    let z = p * df - (n * m) * u;
    let mz = magnitude_of(z);
    let yf = y * f;
    assert(xd * yf == (x * y) * df) by (nonlinear_arith)
        requires
            xd == x * d,
            yf == y * f,
            df == d * f,
    ;
    assert(xd * t == xd * yf - xd * mu) by (nonlinear_arith)
        requires
            t == yf - mu,
    ;
    assert(mu * s == xd * mu - (n * u) * mu) by (nonlinear_arith)
        requires
            s == xd - n * u,
    ;
    assert((n * u) * mu == ((n * m) * u) * u) by (nonlinear_arith)
        requires
            mu == m * u,
    ;
    assert(a * df == (p * df) * u - (x * y) * df) by (nonlinear_arith)
        requires
            a == p * u - x * y,
    ;
    assert(z * u == (p * df) * u - ((n * m) * u) * u) by (nonlinear_arith)
        requires
            z == p * df - (n * m) * u,
    ;
    assert(z * u == a * df + xd * t + mu * s);
    lemma_abs_product(z, u, mz, u);
    let c = 3 * e + 3 * g + 10;
    assert(c * w == (3 * e) * w + (3 * g) * w + 10 * w) by (nonlinear_arith)
        requires
            c == 3 * e + 3 * g + 10,
    ;
    assert(k * (mz * u) <= c * w);
    assert(k * mz <= c * (df * u)) by (nonlinear_arith)
        requires
            k * (mz * u) <= c * w,
            w == df * uu,
            uu == u * u,
            u > 0,
    {
        assert(c * w == (c * (df * u)) * u);
        assert((k * mz) * u <= (c * (df * u)) * u);
    }
}

/// A number times a whole one.
proof fn lemma_times_whole(x: int, n: int, d: int, e: int, w: nat, b: int)
    requires
        stands_for(x, n, d, e),
        0 <= e,
        b >= 1,
        magnitude_of(x) <= b * one(),
        w >= 1,
    ensures
        stands_for(product(x, (w * one()) as int), n * w, d, w * (e + b + 1)),
        product((w * one()) as int, x) == product(x, (w * one()) as int),
{
    let u = one() as int;
    let k = parts();
    lemma_one_is_large();
    let wu = (w * one()) as int;
    assert(x * wu == wu * x) by (nonlinear_arith);
    lemma_product_error(x, wu);
    let p = product(x, wu);
    let g = p - x * w;
    let mg = magnitude_of(g);
    assert(p * u - x * wu == g * u) by (nonlinear_arith)
        requires
            g == p - x * w,
            wu == w * u,
    ;
    lemma_abs_product(g, u, mg, u);
    lemma_abs_product(x, wu, b * u, wu);
    let bw = b * w;
    assert((b * u) * wu == (bw * u) * u) by (nonlinear_arith)
        requires
            wu == w * u,
            bw == b * w,
    ;
    assert(bw >= 1) by (nonlinear_arith)
        requires
            bw == b * w,
            b >= 1,
            w >= 1,
    ;
    assert(k * mg <= bw * u + k) by (nonlinear_arith)
        requires
            k * (mg * u) <= (bw * u) * u + k * u,
            u > 0,
    ;
    let du = d * u;
    lemma_abs_product(g, d, mg, d);
    assert(k * (mg * d) <= (bw + 1) * du) by (nonlinear_arith)
        requires
            k * mg <= bw * u + k,
            k <= u,
            du == d * u,
            d > 0,
    {
        assert(k * mg <= (bw + 1) * u);
        assert(k * (mg * d) == (k * mg) * d);
        assert((k * mg) * d <= ((bw + 1) * u) * d);
    }
    let s = x * d - n * u;
    let ms = magnitude_of(s);
    lemma_abs_product(s, w as int, ms, w as int);
    assert(k * (ms * w) <= (e * w) * du) by (nonlinear_arith)
        requires
            k * ms <= e * (d * u),
            du == d * u,
            w >= 1,
    ;
    assert(p * d - (n * w) * u == g * d + s * w) by (nonlinear_arith)
        requires
            g == p - x * w,
            s == x * d - n * u,
    ;
    let c = w * (e + b + 1);
    assert(du > 0) by (nonlinear_arith)
        requires
            du == d * u,
            d > 0,
            u > 0,
    ;
    assert(c * du >= (bw + 1) * du + (e * w) * du) by (nonlinear_arith)
        requires
            c == w * (e + b + 1),
            bw == b * w,
            w >= 1,
            du > 0,
    {
        assert(c == w * e + w * b + w);
        assert(c >= (bw + 1) + e * w);
    }
}

/// A rounded quotient by a number from one to three.
proof fn lemma_quotient_of(x: int, n: int, d: int, e: int, y: int, m: int, f: int, g: int)
    requires
        stands_for(x, n, d, e),
        stands_for(y, m, f, g),
        0 <= e,
        0 <= g,
        magnitude_of(x) <= 3 * one(),
        one() <= y <= 3 * one(),
        f <= m,
    ensures
        stands_for(quotient(x, y), n * f, d * m, e + 4 * g + 4),
{
    let u = one() as int;
    let k = parts();
    lemma_one_is_large();
    lemma_quotient_close(x, y);
    let q = quotient(x, y);
    let a = q * y - x * u;
    let (ma, mx, mq) = (magnitude_of(a), magnitude_of(x), magnitude_of(q));
    let uu = u * u;
    assert(uu > 0 && k * (3 * u) <= uu && mx * u <= 3 * uu) by (nonlinear_arith)
        requires
            uu == u * u,
            3 * k <= u,
            u > 0,
            0 <= mx <= 3 * u,
    ;
    assert(k * ma <= 4 * uu);
    lemma_abs_product(x, u, mx, u);
    lemma_abs_product(q, y, mq, y);
    assert(mq * y <= 4 * uu);
    assert(mq <= 4 * u) by (nonlinear_arith)
        requires
            mq * y <= 4 * uu,
            uu == u * u,
            y >= u,
            u > 0,
            mq >= 0,
    {
        assert(mq * u <= mq * y);
        assert(mq * u <= (4 * u) * u);
    }
    let df = d * f;
    let w = df * uu;
    assert(df > 0) by (nonlinear_arith)
        requires
            df == d * f,
            d > 0,
            f > 0,
    ;
    lemma_abs_product(a, df, ma, df);
    assert(k * (ma * df) <= 4 * w) by (nonlinear_arith)
        requires
            k * ma <= 4 * uu,
            w == df * uu,
            df > 0,
    ;
    let (s, t) = (x * d - n * u, y * f - m * u);
    let (ms, mt) = (magnitude_of(s), magnitude_of(t));
    let qd = q * d;
    lemma_abs_product(q, d, 4 * u, d);
    lemma_abs_product(qd, t, (4 * u) * d, mt);
    assert(k * (((4 * u) * d) * mt) <= (4 * g) * w) by (nonlinear_arith)
        requires
            k * mt <= g * (f * u),
            w == df * uu,
            df == d * f,
            uu == u * u,
            u > 0,
            d > 0,
            mt >= 0,
    {
        let c = (4 * u) * d;
        assert(c > 0);
        assert(k * (c * mt) == c * (k * mt));
        assert(c * (k * mt) <= c * (g * (f * u)));
        assert(c * (g * (f * u)) == (4 * g) * ((d * f) * (u * u)));
    }
    let fu = f * u;
    assert(fu > 0) by (nonlinear_arith)
        requires
            fu == f * u,
            f > 0,
            u > 0,
    ;
    lemma_abs_product(fu, s, fu, ms);
    assert(k * (fu * ms) <= e * w) by (nonlinear_arith)
        requires
            k * ms <= e * (d * u),
            w == df * uu,
            df == d * f,
            uu == u * u,
            fu == f * u,
            fu > 0,
            ms >= 0,
    {
        assert(k * (fu * ms) == fu * (k * ms));
        assert(fu * (k * ms) <= fu * (e * (d * u)));
        assert(fu * (e * (d * u)) == e * ((d * f) * (u * u)));
    }
    let dm = d * m;
    let z = q * dm - (n * f) * u;
    let mz = magnitude_of(z);
    assert(a * df == (q * y) * df - (x * u) * df) by (nonlinear_arith)
        requires
            a == q * y - x * u,
    ;
    let (yf, mu) = (y * f, m * u);
    assert(qd * t == qd * yf - qd * mu) by (nonlinear_arith)
        requires
            t == yf - mu,
    ;
    assert(qd * yf == (q * y) * df) by (nonlinear_arith)
        requires
            qd == q * d,
            yf == y * f,
            df == d * f,
    ;
    assert(qd * mu == (q * dm) * u) by (nonlinear_arith)
        requires
            qd == q * d,
            mu == m * u,
            dm == d * m,
    ;
    assert(fu * s == (x * u) * df - ((n * f) * u) * u) by (nonlinear_arith)
        requires
            fu == f * u,
            s == x * d - n * u,
            df == d * f,
    ;
    assert(z * u == (q * dm) * u - ((n * f) * u) * u) by (nonlinear_arith)
        requires
            z == q * dm - (n * f) * u,
    ;
    assert(z * u == a * df - qd * t + fu * s);
    lemma_abs_product(z, u, mz, u);
    let c = e + 4 * g + 4;
    assert(c * w == e * w + (4 * g) * w + 4 * w) by (nonlinear_arith)
        requires
            c == e + 4 * g + 4,
    ;
    assert(k * (mz * u) <= c * w);
    assert(df <= dm && dm > 0) by (nonlinear_arith)
        requires
            df == d * f,
            dm == d * m,
            f <= m,
            d > 0,
            df > 0,
    ;
    assert(k * mz <= c * (dm * u)) by (nonlinear_arith)
        requires
            k * (mz * u) <= c * w,
            w == df * uu,
            uu == u * u,
            df <= dm,
            c >= 0,
            u > 0,
    {
        assert(c * w == (c * (df * u)) * u);
        assert((k * mz) * u <= (c * (df * u)) * u);
        assert(k * mz <= c * (df * u));
        assert(df * u <= dm * u);
        assert(c * (df * u) <= c * (dm * u));
    }
}

/// A sample is the level nearest to `n / d`, between zero and the largest one, but for rounding.
pub open spec fn stores(sample: nat, n: int, d: int, most: nat) -> bool {
    let exact = if n < 0 {
        0
    } else if n > most * d {
        most * d
    } else {
        n
    };
    1000 * magnitude_of(2 * (sample * d) - 2 * exact) <= 1001 * d
}

proof fn lemma_level(v: int, n: int, d: int, e: int, depth: nat)
    requires
        stands_for(v, n, d, e),
        0 <= e <= 0x1_0000_0000,
    ensures
        stores(level(v, depth), n, d, top(depth)),
{
    let u = one() as int;
    let k = parts();
    lemma_one_is_large();
    let h = half_away(v);
    let du = d * u;
    assert(du > 0) by (nonlinear_arith)
        requires
            du == d * u,
            d > 0,
            u > 0,
    ;
    let hu = h * u;
    assert(2 * magnitude_of(hu - v) <= u) by {
        if v < 0 {
            lemma_fundamental_div_mod(2 * (-v) + u, 2 * u);
            let g = (2 * (-v) + u) / (2 * u);
            assert(h == -g);
            assert((2 * u) * g == -(2 * hu)) by (nonlinear_arith)
                requires
                    hu == h * u,
                    h == -g,
            ;
        } else {
            lemma_fundamental_div_mod(2 * v + u, 2 * u);
            assert((2 * u) * h == 2 * hu) by (nonlinear_arith)
                requires
                    hu == h * u,
            ;
        }
    }
    let a = hu - v;
    let ma = magnitude_of(a);
    lemma_abs_product(a, d, ma, d);
    assert(2 * (ma * d) <= du) by (nonlinear_arith)
        requires
            2 * ma <= u,
            du == d * u,
            d > 0,
    ;
    let b = v * d - n * u;
    assert(e * du <= 0x1_0000_0000 * du) by (nonlinear_arith)
        requires
            0 <= e <= 0x1_0000_0000,
            du > 0,
    ;
    let g = h * d - n;
    let mg = magnitude_of(g);
    assert(g * u == a * d + b) by (nonlinear_arith)
        requires
            g == h * d - n,
            a == h * u - v,
            b == v * d - n * u,
    ;
    lemma_abs_product(g, u, mg, u);
    assert(2000 * (mg * u) <= 1001 * du);
    assert(2000 * mg <= 1001 * d) by (nonlinear_arith)
        requires
            2000 * (mg * u) <= 1001 * du,
            du == d * u,
            u > 0,
    ;
    // between the ends of the range
    let t = top(depth) as int;
    let s = level(v, depth) as int;
    let (hd, td, sd) = (h * d, t * d, s * d);
    assert(td >= 0 && (h < 0 ==> hd <= -d) && (h >= 0 ==> hd >= 0) && (h > t ==> hd >= td + d) && (h
        <= t ==> hd <= td)) by (nonlinear_arith)
        requires
            hd == h * d,
            td == t * d,
            t >= 0,
            d > 0,
    ;
    assert(0 * d == 0);
}

/// The luma of a colour, over 2550000: the weights of BT.709, over 10000, by the components.
pub open spec fn weighted(c: Colour) -> int {
    2126 * c.r + 7152 * c.g + 722 * c.b
}

proof fn lemma_luma(c: Colour)
    requires
        c.wf(),
    ensures
        stands_for(luma(c), weighted(c), 2_550_000, 150),
        magnitude_of(luma(c)) <= 2 * one(),
        0 <= weighted(c) <= 2_550_000,
{
    lemma_fraction(c.r as nat, 255);
    lemma_fraction(c.g as nat, 255);
    lemma_fraction(c.b as nat, 255);
    lemma_fraction(2126, 10000);
    lemma_fraction(7152, 10000);
    lemma_fraction(722, 10000);
    let (r, g, b) = (unit(c.r), unit(c.g), unit(c.b));
    lemma_size(r, c.r as int, 255, 3, 1);
    lemma_size(g, c.g as int, 255, 3, 1);
    lemma_size(b, c.b as int, 255, 3, 1);
    let (wr, wg, wb) = (
        fraction(2126, 10000) as int,
        fraction(7152, 10000) as int,
        fraction(722, 10000) as int,
    );
    lemma_size(wr, 2126, 10000, 3, 1);
    lemma_size(wg, 7152, 10000, 3, 1);
    lemma_size(wb, 722, 10000, 3, 1);
    lemma_product_of(wr, 2126, 10000, 3, r, c.r as int, 255, 3);
    lemma_product_of(wg, 7152, 10000, 3, g, c.g as int, 255, 3);
    lemma_product_of(wb, 722, 10000, 3, b, c.b as int, 255, 3);
    let (x, y, z) = (product(wr, r), product(wg, g), product(wb, b));
    let d = 2_550_000int;
    lemma_size(x, 2126 * c.r, d, 28, 1);
    lemma_size(y, 7152 * c.g, d, 28, 1);
    lemma_size(z, 722 * c.b, d, 28, 1);
    lemma_sum_of(x, 2126 * c.r, 28, y, 7152 * c.g, 28, d, 4);
    let s = sum(x, y);
    lemma_size(s, 2126 * c.r + 7152 * c.g, d, 60, 1);
    lemma_sum_of(s, 2126 * c.r + 7152 * c.g, 60, z, 722 * c.b, 28, d, 4);
    lemma_looser(luma(c), weighted(c), d, 92, 150);
    lemma_size(luma(c), weighted(c), d, 150, 1);
}

proof fn lemma_looser(x: int, n: int, d: int, e: int, f: int)
    requires
        stands_for(x, n, d, e),
        e <= f,
    ensures
        stands_for(x, n, d, f),
{
    let u = one() as int;
    lemma_pow2_pos(1074);
    assert(e * (d * u) <= f * (d * u)) by (nonlinear_arith)
        requires
            e <= f,
            d > 0,
            u > 0,
    ;
}

/// A colour difference: a component less the luma, over the scale of its kind.
proof fn lemma_difference(comp: u32, c: Colour, scale: nat, diff: int)
    requires
        c.wf(),
        comp <= 255,
        10000 <= scale <= 20000,
        diff == quotient(difference(unit(comp), luma(c)), fraction(scale, 10000) as int),
    ensures
        ({
            let n = (10000 * comp - weighted(c)) * 10000;
            let d = 2_550_000 * scale as int;
            &&& stands_for(diff, n, d, 200)
            &&& magnitude_of(diff) <= 2 * one()
            &&& magnitude_of(n) <= d
        }),
{
    let d = 2_550_000int;
    lemma_luma(c);
    lemma_fraction(comp as nat, 255);
    let x = unit(comp);
    lemma_widened(x, comp as int, 255, 3, 10000);
    lemma_size(x, comp as int, 255, 3, 1);
    lemma_opposite(luma(c), weighted(c), d, 150);
    let m = 10000 * comp - weighted(c);
    assert(comp * 10000 == 10000 * comp);
    lemma_sum_of(x, 10000 * comp, 3, -luma(c), -weighted(c), 150, d, 4);
    let s = difference(x, luma(c));
    assert(s == sum(x, -luma(c)));
    lemma_size(s, m, d, 157, 1);
    lemma_fraction(scale, 10000);
    let y = fraction(scale, 10000) as int;
    lemma_size(y, scale as int, 10000, 3, 2);
    lemma_at_least_one(y, scale);
    lemma_quotient_of(s, m, d, 157, y, scale as int, 10000, 3);
    let n = m * 10000;
    let w = d * scale;
    assert(magnitude_of(n) <= w) by (nonlinear_arith)
        requires
            n == m * 10000,
            w == d * scale,
            -d <= m <= d,
            scale >= 10000,
            d > 0,
    ;
    assert(1 * w == w);
    lemma_looser(diff, n, w, 173, 200);
    lemma_size(diff, n, w, 200, 1);
}

proof fn lemma_at_least_one(y: int, scale: nat)
    requires
        scale >= 10000,
        y == fraction(scale, 10000),
    ensures
        y >= one(),
{
    lemma_pow2_pos(1074);
    let u = one();
    assert(10000 * u <= scale * u) by (nonlinear_arith)
        requires
            scale >= 10000,
            u > 0,
    ;
    rounding_is_monotonic(10000 * u, scale * u, 10000, 53);
    lemma_rounded_scale(u, 1, 10000, 53);
    assert(u * 10000 == 10000 * u && 1 * 10000 == 10000);
    whole_numbers_are_exact(1);
    assert(1 * u == u);
}

proof fn lemma_depths(depth: nat)
    requires
        8 <= depth <= 16,
    ensures
        255 <= top(depth) <= 65535,
        1 <= pow2((depth - 8) as nat) <= 256,
        128 <= pow2((depth - 1) as nat) <= 32768,
{
    lemma2_to64();
}

/// A luma plane is filled with the luma of BT.709: of all levels in full range, else of the 219
/// levels from 16 on (in 8 bits).
pub proof fn the_luma_is_that_of_the_standard(c: Colour, depth: nat)
    requires
        c.wf(),
        8 <= depth <= 16,
    ensures
        stores(luma_level(c, depth, true), weighted(c) * top(depth), 2_550_000, top(depth)),
        stores(
            luma_level(c, depth, false),
            (16 * 2_550_000 + 219 * weighted(c)) * pow2((depth - 8) as nat),
            2_550_000,
            top(depth),
        ),
{
    let u = one() as int;
    let d = 2_550_000int;
    lemma_one_is_large();
    lemma_depths(depth);
    lemma_luma(c);
    let y = luma(c);
    lemma_times_whole(y, weighted(c), d, 150, top(depth), 2);
    lemma_level(
        product(y, whole(top(depth))),
        weighted(c) * top(depth),
        d,
        top(depth) * 153int,
        depth,
    );
    lemma_times_whole(y, weighted(c), d, 150, 219, 2);
    lemma_video(product(whole(219), y), weighted(c) * 219, d, 219 * 153int, 16, depth);
    assert(weighted(c) * 219 == 219 * weighted(c));
}

/// A number of video levels above the first one, in any depth.
proof fn lemma_video(x: int, n: int, d: int, e: int, first: nat, depth: nat)
    requires
        stands_for(x, n, d, e),
        0 <= e <= 100_000,
        magnitude_of(n) <= 224 * d,
        1 <= first <= 128,
        8 <= depth <= 16,
    ensures
        stores(
            level(
                product(sum(whole(first), x), whole(pow2((depth - 8) as nat))),
                depth,
            ),
            (first * d + n) * pow2((depth - 8) as nat),
            d,
            top(depth),
        ),
{
    let u = one() as int;
    lemma_one_is_large();
    lemma_depths(depth);
    lemma_size(x, n, d, e, 224);
    let f = whole(first);
    assert(f * d == (first * d) * u) by (nonlinear_arith)
        requires
            f == first * u,
    ;
    assert(stands_for(f, first * d, d, 0));
    assert(f <= 128 * u) by (nonlinear_arith)
        requires
            f == first * u,
            first <= 128,
            u > 0,
    ;
    lemma_sum_of(f, first * d, 0, x, n, e, d, 353);
    let s = sum(f, x);
    let m = first * d + n;
    assert(first * d <= 128 * d) by (nonlinear_arith)
        requires
            first <= 128,
            d > 0,
    ;
    lemma_size(s, m, d, e + 353, 352);
    let w = pow2((depth - 8) as nat);
    lemma_times_whole(s, m, d, e + 353, w, 353);
    let g = w * (e + 353 + 353 + 1);
    assert(g <= 256 * 200_000) by (nonlinear_arith)
        requires
            g == w * (e + 707),
            0 <= w <= 256,
            0 <= e + 707 <= 200_000,
    ;
    lemma_level(product(s, whole(w)), m * w, d, g, depth);
}

/// A chroma plane is filled with a colour difference of BT.709 around the middle level: over all
/// levels in full range, else over 224 of them (in 8 bits).
proof fn lemma_chroma(comp: u32, c: Colour, scale: nat, diff: int, depth: nat)
    requires
        c.wf(),
        comp <= 255,
        10000 <= scale <= 20000,
        8 <= depth <= 16,
        diff == quotient(difference(unit(comp), luma(c)), fraction(scale, 10000) as int),
    ensures
        ({
            let n = (10000 * comp - weighted(c)) * 10000;
            let d = 2_550_000 * scale as int;
            &&& stores(
                difference_level(diff, depth, true),
                pow2((depth - 1) as nat) * d + n * top(depth),
                d,
                top(depth),
            )
            &&& stores(
                difference_level(diff, depth, false),
                (128 * d + 224 * n) * pow2((depth - 8) as nat),
                d,
                top(depth),
            )
        }),
{
    let u = one() as int;
    let n = (10000 * comp - weighted(c)) * 10000;
    let d = 2_550_000 * scale as int;
    lemma_one_is_large();
    lemma_depths(depth);
    lemma_difference(comp, c, scale, diff);
    let t = top(depth);
    lemma_times_whole(diff, n, d, 200, t, 2);
    let x = product(diff, whole(t));
    let nt = n * t;
    let td = t * d;
    assert(magnitude_of(nt) <= td && td >= 0) by {
        lemma_abs_product(n, t as int, d, t as int);
        assert(d * t == t * d) by (nonlinear_arith);
    }
    lemma_size(x, nt, d, t * 203int, t as int);
    let mid = pow2((depth - 1) as nat);
    let f = whole(mid);
    assert(f * d == (mid * d) * u) by (nonlinear_arith)
        requires
            f == mid * u,
    ;
    assert(stands_for(f, mid * d, d, 0));
    assert(f <= 32768 * u && (t + 1) * u <= 65536 * u) by (nonlinear_arith)
        requires
            f == mid * u,
            mid <= 32768,
            t <= 65535,
            u > 0,
    ;
    lemma_sum_of(f, mid * d, 0, x, nt, t * 203int, d, 98304);
    lemma_level(sum(f, x), mid * d + nt, d, t * 203int + 98304, depth);
    lemma_times_whole(diff, n, d, 200, 224, 2);
    lemma_video(product(whole(224), diff), n * 224, d, 224 * 203int, 128, depth);
    assert(n * 224 == 224 * n);
}

/// The planes of blue and red differences are filled with those of BT.709: the component less the
/// luma, over 1.8556 for blue and 1.5748 for red, around the middle level.
pub proof fn the_colour_differences_are_those_of_the_standard(c: Colour, depth: nat)
    requires
        c.wf(),
        8 <= depth <= 16,
    ensures
        ({
            let blue = (10000 * c.b - weighted(c)) * 10000;
            let red = (10000 * c.r - weighted(c)) * 10000;
            let (db, dr) = (2_550_000 * 18556int, 2_550_000 * 15748int);
            let mid = pow2((depth - 1) as nat);
            let step = pow2((depth - 8) as nat);
            let (b, r) = (blue_difference(c), red_difference(c));
            let most = top(depth);
            &&& stores(difference_level(b, depth, true), mid * db + blue * most, db, most)
            &&& stores(difference_level(r, depth, true), mid * dr + red * most, dr, most)
            &&& stores(difference_level(b, depth, false), (128 * db + 224 * blue) * step, db, most)
            &&& stores(difference_level(r, depth, false), (128 * dr + 224 * red) * step, dr, most)
        }),
{
    lemma_chroma(c.b, c, 18556, blue_difference(c), depth);
    lemma_chroma(c.r, c, 15748, red_difference(c), depth);
}

/// An alpha plane is filled with the alpha component, over all levels.
pub proof fn the_alpha_is_the_component(c: Colour, depth: nat)
    requires
        c.wf(),
        8 <= depth <= 16,
    ensures
        stores(alpha_level(c, depth), c.a * top(depth), 255, top(depth)),
{
    lemma_one_is_large();
    lemma_depths(depth);
    lemma_fraction(c.a as nat, 255);
    lemma_size(unit(c.a), c.a as int, 255, 3, 1);
    lemma_times_whole(unit(c.a), c.a as int, 255, 3, top(depth), 2);
    lemma_level(
        product(unit(c.a), whole(top(depth))),
        c.a * top(depth),
        255,
        top(depth) * 6int,
        depth,
    );
}

/// Each plane of a format is filled with the samples of its own kind.
pub proof fn planes_are_filled_by_their_kind(f: FormatView, p: PlaneView, c: Colour, full: bool)
    ensures
        p.kind is Y ==> f.voxel(p, c, full) == sample_bytes(luma_level(c, f.depth, full), f.bytes),
        p.kind is Cb ==> f.voxel(p, c, full) == sample_bytes(
            difference_level(blue_difference(c), f.depth, full),
            f.bytes,
        ),
        p.kind is Cr ==> f.voxel(p, c, full) == sample_bytes(
            difference_level(red_difference(c), f.depth, full),
            f.bytes,
        ),
        p.kind is A ==> f.voxel(p, c, full) == sample_bytes(alpha_level(c, f.depth), f.bytes),
{
}

} // verus!
