//! How far a subsampled plane can be from the places of a plane with every pixel, whatever the
//! numbers are.

use vstd::prelude::*;
use vstd::arithmetic::power2::{
    lemma2_to64, lemma_pow2_pos, lemma_pow2_strictly_increases, lemma_pow2_unfold, pow2,
};
use crate::accuracy::{lemma_abs_product, lemma_one_is_large, lemma_product_error, lemma_sum_error};
use crate::binary64::{difference, halves_are_exact, magnitude_of, one, product, quotient, sum};
use crate::geometry::dot;
use crate::grain::{lemma_scaled_rounding, lemma_scaled_sum};
use crate::mapping::{plane_mapping, steps};
use crate::slices::lemma_quotient_close;
use crate::subsampling::{levels, pixel_at};
use crate::track::{half, half_side, TrackView};

verus! {

/// Parts of a number that rounding can tell apart.
pub open spec fn parts() -> int {
    0x20_0000_0000_0000
}

/// A small power of two, and how it compares with one.
pub proof fn lemma_step_size(s: nat)
    requires
        s <= 31,
    ensures
        1 <= pow2(s) <= 0x8000_0000,
        one() >= 0x8000_0000_0000_0000_0000_0000_0000_0000,
{
    lemma2_to64();
    lemma_one_is_large();
    lemma_pow2_pos(s);
    if s < 31 {
        lemma_pow2_strictly_increases(s, 31);
    }
}

/// A number divided by the step of a plane, in pixels again.
pub proof fn lemma_scaled_down(v: int, s: nat)
    requires
        s <= 31,
    ensures
        parts() * magnitude_of(pow2(s) * quotient(v, (pow2(s) * one()) as int) - v) <= magnitude_of(v)
            + parts() * pow2(s),
{
    let u = one() as int;
    let p = pow2(s) as int;
    let k = parts();
    lemma_step_size(s);
    let d = p * u;
    assert(d > 0) by (nonlinear_arith)
        requires
            d == p * u,
            p > 0,
            u > 0,
    ;
    lemma_quotient_close(v, d);
    let r = quotient(v, d);
    let e = p * r - v;
    assert(r * d - v * u == e * u) by (nonlinear_arith)
        requires
            d == p * u,
            e == p * r - v,
    ;
    let (m, n) = (magnitude_of(e), magnitude_of(v));
    lemma_abs_product(e, u, m, u);
    assert(k * m <= n + k * p) by (nonlinear_arith)
        requires
            k * (m * u) <= n * u + k * (p * u),
            u > 0,
    ;
}

/// Both ways to write a number of a plane in pixels.
proof fn lemma_two_scales(v: int, s: nat, q: int)
    requires
        s <= 31,
        magnitude_of(v) <= q,
        q >= one(),
    ensures
        parts() * magnitude_of(
            quotient(v, one() as int) - pow2(s) * quotient(v, (pow2(s) * one()) as int),
        ) <= 4 * q,
        magnitude_of(quotient(v, one() as int)) <= 2 * q,
        magnitude_of(pow2(s) * quotient(v, (pow2(s) * one()) as int)) <= 2 * q,
{
    lemma_step_size(s);
    lemma2_to64();
    lemma_scaled_down(v, s);
    lemma_scaled_down(v, 0);
    assert(1 * one() == one());
    let f = quotient(v, one() as int);
    assert(1 * f == f);
}

/// The drift of a window, against what it stands for.
pub proof fn lemma_drifted(vel: int, t: int, s: nat, q: int)
    requires
        s <= 31,
        q >= one(),
        magnitude_of(vel * t) <= q * one(),
        magnitude_of(t) <= 8 * q,
    ensures
        ({
            let v = quotient(vel, (pow2(s) * one()) as int);
            parts() * magnitude_of((pow2(s) * product(v, t)) * one() - vel * t) <= 6 * (q * one())
        }),
{
    let u = one() as int;
    let p = pow2(s) as int;
    let k = parts();
    lemma_step_size(s);
    lemma_scaled_down(vel, s);
    let v = quotient(vel, (pow2(s) * one()) as int);
    let w = product(v, t);
    lemma_product_error(v, t);
    let qu = q * u;
    // the rounded velocity
    let e = p * v - vel;
    let (me, mt, mv) = (magnitude_of(e), magnitude_of(t), magnitude_of(vel));
    lemma_abs_product(e, t, me, mt);
    lemma_abs_product(vel, t, mv, mt);
    let vt = mv * mt;
    assert(k * (me * mt) <= vt + k * (p * mt)) by (nonlinear_arith)
        requires
            k * me <= mv + k * p,
            vt == mv * mt,
            mt >= 0,
    ;
    assert(k * (p * mt) <= qu) by (nonlinear_arith)
        requires
            0 <= mt <= 8 * q,
            0 < p <= 0x8000_0000,
            k == 0x20_0000_0000_0000,
            qu == q * u,
            u >= 0x8000_0000_0000_0000_0000_0000_0000_0000,
            q > 0,
    ;
    let x = (p * v) * t;
    assert(x - vel * t == e * t) by (nonlinear_arith)
        requires
            x == (p * v) * t,
            e == p * v - vel,
    ;
    assert(k * magnitude_of(x - vel * t) <= 2 * qu);
    assert(magnitude_of(x) <= 2 * qu);
    // the rounded product
    let f = w * u - v * t;
    let (mf, n) = (magnitude_of(f), magnitude_of(v * t));
    lemma_abs_product(p, f, p, mf);
    lemma_abs_product(p, v * t, p, n);
    assert(p * (v * t) == x) by (nonlinear_arith)
        requires
            x == (p * v) * t,
    ;
    assert(k * (p * mf) <= p * n + k * (p * u)) by (nonlinear_arith)
        requires
            k * mf <= n + k * u,
            p > 0,
    ;
    assert(k * (p * u) <= qu) by (nonlinear_arith)
        requires
            0 < p <= 0x8000_0000,
            k == 0x20_0000_0000_0000,
            qu == q * u,
            q >= 0x8000_0000_0000_0000_0000_0000_0000_0000,
            u > 0,
    ;
    assert((p * w) * u - x == p * f) by (nonlinear_arith)
        requires
            f == w * u - v * t,
            p * (v * t) == x,
    ;
    assert(k * magnitude_of((p * w) * u - x) <= 3 * qu);
}

/// Two sums of numbers that are close to each other.
proof fn lemma_close_sums(a: int, b: int, c: int, d: int, e: int, f: int, m: int)
    requires
        parts() * magnitude_of(a - c) <= e,
        parts() * magnitude_of(b - d) <= f,
        magnitude_of(a + b) <= m,
        magnitude_of(c + d) <= m,
    ensures
        parts() * magnitude_of(sum(a, b) - sum(c, d)) <= e + f + 2 * m,
        parts() * magnitude_of(sum(a, b)) <= parts() * m + m,
        parts() * magnitude_of(sum(c, d)) <= parts() * m + m,
{
    lemma_sum_error(a, b);
    lemma_sum_error(c, d);
}

/// The centre of a window, in both kinds of planes.
proof fn lemma_centers(track: TrackView, t: int, a: int, s: nat, q: int)
    requires
        0 <= a < 2,
        s <= 31,
        q >= one(),
        magnitude_of(track.pos[a]) <= q,
        magnitude_of(track.vel[a] * t) <= q * one(),
        magnitude_of(t) <= 8 * q,
    ensures
        ({
            let d = (pow2(s) * one()) as int;
            let full = sum(
                quotient(track.pos[a], one() as int),
                product(quotient(track.vel[a], one() as int), t),
            );
            let sub = sum(quotient(track.pos[a], d), product(quotient(track.vel[a], d), t));
            &&& parts() * magnitude_of(full - pow2(s) * sub) <= 24 * q
            &&& magnitude_of(full) <= 5 * q
            &&& magnitude_of(pow2(s) * sub) <= 5 * q
        }),
{
    let u = one() as int;
    let p = pow2(s) as int;
    let k = parts();
    let d = (pow2(s) * one()) as int;
    lemma_step_size(s);
    lemma2_to64();
    assert(1 * one() == one());
    let (pos, vel) = (track.pos[a], track.vel[a]);
    lemma_two_scales(pos, s, q);
    lemma_drifted(vel, t, s, q);
    lemma_drifted(vel, t, 0, q);
    let (pf, ps) = (quotient(pos, u), quotient(pos, d));
    let (wf, ws) = (product(quotient(vel, u), t), product(quotient(vel, d), t));
    assert(1 * wf == wf);
    let x = p * ws;
    let (vt, qu) = (vel * t, q * u);
    lemma_taken_out(wf, x, vt, u, q);
    lemma_scaled_sum(ps, ws, s);
    assert(sum(p * ps, p * ws) == p * sum(ps, ws));
    lemma_close_sums(pf, wf, p * ps, x, 4 * q, 12 * q, 4 * q);
}

/// Units taken out of two numbers that are close to a third one.
proof fn lemma_taken_out(x: int, y: int, z: int, u: int, q: int)
    requires
        u > 0,
        q >= 0,
        magnitude_of(z) <= q * u,
        parts() * magnitude_of(x * u - z) <= 6 * (q * u),
        parts() * magnitude_of(y * u - z) <= 6 * (q * u),
    ensures
        parts() * magnitude_of(x - y) <= 12 * q,
        magnitude_of(x) <= 2 * q,
        magnitude_of(y) <= 2 * q,
{
    let k = parts();
    let e = x - y;
    assert(e * u == x * u - y * u) by (nonlinear_arith)
        requires
            e == x - y,
    ;
    let (m, mx, my) = (magnitude_of(e), magnitude_of(x), magnitude_of(y));
    lemma_abs_product(e, u, m, u);
    lemma_abs_product(x, u, mx, u);
    lemma_abs_product(y, u, my, u);
    let qu = q * u;
    assert(qu >= 0) by (nonlinear_arith)
        requires
            qu == q * u,
            q >= 0,
            u > 0,
    ;
    assert(k * (m * u) <= 12 * qu);
    assert(mx * u <= 2 * qu);
    assert(my * u <= 2 * qu);
    assert(k * m <= 12 * q && mx <= 2 * q && my <= 2 * q) by (nonlinear_arith)
        requires
            k * (m * u) <= 12 * (q * u),
            mx * u <= 2 * (q * u),
            my * u <= 2 * (q * u),
            u > 0,
    ;
}

/// The place of a voxel along an axis, in both kinds of planes.
proof fn lemma_places(x: int, d: nat, cf: int, cs: int, s: nat, q: int)
    requires
        s <= 31,
        q >= one(),
        magnitude_of(pixel_at(x, s)) <= q,
        half_side(d) <= q,
        half_side(d) >= 0,
        parts() * magnitude_of(cf - pow2(s) * cs) <= 24 * q,
        magnitude_of(cf) <= 5 * q,
        magnitude_of(pow2(s) * cs) <= 5 * q,
    ensures
        ({
            let full = sum(
                difference(
                    sum(pixel_at(x, s), half()),
                    quotient(half_side(d), one() as int),
                ),
                cf,
            );
            let sub = sum(
                difference(sum(x, half()), quotient(half_side(d), (pow2(s) * one()) as int)),
                cs,
            );
            &&& parts() * magnitude_of(full - pow2(s) * sub) <= 64 * q
            &&& magnitude_of(full) <= 12 * q
            &&& magnitude_of(pow2(s) * sub) <= 12 * q
        }),
{
    let p = pow2(s) as int;
    let h = pow2(1073) as int;
    lemma_step_size(s);
    lemma_half_value();
    assert(p * x + (p - 1) * h + h == p * (x + h)) by (nonlinear_arith);
    lemma_scaled_rounding(x + h, s);
    let m = sum(pixel_at(x, s), half());
    let n = sum(x, half());
    assert(m == p * n);
    lemma_sum_error(pixel_at(x, s), half());
    assert(magnitude_of(m) <= 3 * q);
    lemma_two_scales(half_side(d), s, q);
    let (c, e) = (
        quotient(half_side(d), one() as int),
        quotient(half_side(d), (pow2(s) * one()) as int),
    );
    lemma_scaled_sum(n, e, s);
    lemma_close_sums(m, -c, m, -(p * e), 0, 4 * q, 5 * q);
    let (df, ds) = (difference(m, c), difference(n, e));
    assert(difference(m, p * e) == p * ds);
    lemma_scaled_sum(ds, cs, s);
    lemma_close_sums(df, cf, p * ds, p * cs, 14 * q, 24 * q, 11 * q);
}

pub proof fn lemma_half_value()
    ensures
        half() == pow2(1073),
        0 <= 2 * half() <= one(),
{
    lemma2_to64();
    halves_are_exact(1);
    assert(1 * pow2(1073) == pow2(1073));
    lemma_pow2_unfold(1074);
    lemma_pow2_pos(1073);
}

/// An entry of the inverse rotation, against what it stands for.
pub proof fn lemma_entries(v: int, si: nat, sj: nat, b: int)
    requires
        si <= 31,
        sj <= 31,
        magnitude_of(v) <= b,
        b >= one(),
    ensures
        ({
            let e = quotient(product(v, (pow2(sj) * one()) as int), (pow2(si) * one()) as int);
            parts() * magnitude_of(pow2(si) * e - pow2(sj) * v) <= 6 * (pow2(sj) * b)
        }),
{
    let u = one() as int;
    let k = parts();
    let (p, r) = (pow2(si) as int, pow2(sj) as int);
    lemma_step_size(si);
    lemma_step_size(sj);
    let d = (pow2(sj) * one()) as int;
    let w = product(v, d);
    lemma_product_error(v, d);
    let f = w - r * v;
    assert(w * u - v * d == f * u) by (nonlinear_arith)
        requires
            d == r * u,
            f == w - r * v,
    ;
    let mf = magnitude_of(f);
    lemma_abs_product(f, u, mf, u);
    lemma_abs_product(v, d, b, d);
    lemma_abs_product(r, v, r, b);
    let rb = r * b;
    assert(k * mf <= rb + k) by (nonlinear_arith)
        requires
            k * (mf * u) <= b * d + k * u,
            d == r * u,
            rb == r * b,
            u > 0,
    ;
    assert(rb >= b) by (nonlinear_arith)
        requires
            rb == r * b,
            r >= 1,
            b >= 0,
    ;
    lemma_scaled_down(w, si);
}

/// A product of an entry and a coordinate, against what it stands for.
pub proof fn lemma_terms(v: int, e: int, x: int, y: int, si: nat, sj: nat, b: int, q: int)
    requires
        si <= 31,
        sj <= 31,
        b >= one(),
        q >= one(),
        magnitude_of(v) <= b,
        parts() * magnitude_of(pow2(si) * e - pow2(sj) * v) <= 6 * (pow2(sj) * b),
        parts() * magnitude_of(x - pow2(sj) * y) <= 64 * q,
        magnitude_of(pow2(sj) * y) <= 12 * q,
    ensures
        parts() * magnitude_of((pow2(si) * product(e, y)) * one() - v * x) <= 160 * (b * q),
{
    let u = one() as int;
    let k = parts();
    let (p, r) = (pow2(si) as int, pow2(sj) as int);
    lemma_step_size(si);
    lemma_step_size(sj);
    let bq = b * q;
    let my = magnitude_of(y);
    lemma_abs_product(r, y, r, my);
    // the entry
    let f = p * e - r * v;
    let mf = magnitude_of(f);
    lemma_abs_product(f, y, mf, my);
    assert(k * (mf * my) <= 72 * bq) by (nonlinear_arith)
        requires
            k * mf <= 6 * (r * b),
            r * my <= 12 * q,
            bq == b * q,
            my >= 0,
            b >= 0,
    ;
    let g = (p * e) * y;
    let z = v * (r * y);
    assert(g - z == f * y) by (nonlinear_arith)
        requires
            f == p * e - r * v,
            g == (p * e) * y,
            z == v * (r * y),
    ;
    // the coordinate
    let h = x - r * y;
    let mh = magnitude_of(h);
    lemma_abs_product(v, h, b, mh);
    assert(k * (b * mh) <= 64 * bq) by (nonlinear_arith)
        requires
            k * mh <= 64 * q,
            bq == b * q,
            b >= 0,
    ;
    assert(v * x - z == v * h) by (nonlinear_arith)
        requires
            h == x - r * y,
            z == v * (r * y),
    ;
    lemma_abs_product(v, r * y, b, 12 * q);
    assert(b * (12 * q) == 12 * bq) by (nonlinear_arith)
        requires
            bq == b * q,
    ;
    assert(magnitude_of(z) <= 12 * bq);
    assert(bq >= 0) by (nonlinear_arith)
        requires
            bq == b * q,
            b >= 0,
            q >= 0,
    ;
    assert(magnitude_of(g) <= 13 * bq);
    // the rounded product
    lemma_product_error(e, y);
    let w = product(e, y);
    let o = w * u - e * y;
    let (mo, n) = (magnitude_of(o), magnitude_of(e * y));
    lemma_abs_product(p, o, p, mo);
    lemma_abs_product(p, e * y, p, n);
    assert(p * (e * y) == g) by (nonlinear_arith)
        requires
            g == (p * e) * y,
    ;
    assert(k * (p * mo) <= p * n + k * (p * u)) by (nonlinear_arith)
        requires
            k * mo <= n + k * u,
            p > 0,
    ;
    assert(k * (p * u) <= bq) by (nonlinear_arith)
        requires
            0 < p <= 0x8000_0000,
            k == 0x20_0000_0000_0000,
            bq == b * q,
            b >= u,
            q >= 0x8000_0000_0000_0000_0000_0000_0000_0000,
            u > 0,
    ;
    assert((p * w) * u - g == p * o) by (nonlinear_arith)
        requires
            o == w * u - e * y,
            p * (e * y) == g,
    ;
    assert(k * magnitude_of((p * w) * u - g) <= 14 * bq);
}

/// Two sums of numbers that are close to each other, counted in units of units.
proof fn lemma_close_in_units(a: int, b: int, c: int, d: int, e: int, f: int, m: int, n: int)
    requires
        parts() * (magnitude_of(a - c) * one()) <= e,
        parts() * (magnitude_of(b - d) * one()) <= f,
        magnitude_of(a) * one() <= m,
        magnitude_of(c) * one() <= m,
        magnitude_of(b) * one() <= n,
        magnitude_of(d) * one() <= n,
    ensures
        parts() * (magnitude_of(sum(a, b) - sum(c, d)) * one()) <= e + f + 2 * (m + n),
        parts() * (magnitude_of(sum(a, b)) * one()) <= parts() * (m + n) + m + n,
        parts() * (magnitude_of(sum(c, d)) * one()) <= parts() * (m + n) + m + n,
{
    let u = one() as int;
    let k = parts();
    lemma_pow2_pos(1074);
    lemma_sum_error(a, b);
    lemma_sum_error(c, d);
    let (x, y) = (sum(a, b), sum(c, d));
    lemma_apart_sums(a, b, c, d, x, y);
    let (ma, mb, mc, md) = (magnitude_of(a), magnitude_of(b), magnitude_of(c), magnitude_of(d));
    let (o, w) = (magnitude_of(a - c), magnitude_of(b - d));
    lemma_times_units(k, u, magnitude_of(x - y), o + w, ma + mb + mc + md);
    lemma_times_units(k, u, magnitude_of(x), ma + mb, ma + mb);
    lemma_times_units(k, u, magnitude_of(y), mc + md, mc + md);
    assert((o + w) * u == o * u + w * u) by (nonlinear_arith);
    assert((ma + mb) * u == ma * u + mb * u) by (nonlinear_arith);
    assert((mc + md) * u == mc * u + md * u) by (nonlinear_arith);
    assert((ma + mb + mc + md) * u == ma * u + mb * u + mc * u + md * u) by (nonlinear_arith);
}

proof fn lemma_apart_sums(a: int, b: int, c: int, d: int, x: int, y: int)
    requires
        parts() * magnitude_of(x - (a + b)) <= magnitude_of(a + b),
        parts() * magnitude_of(y - (c + d)) <= magnitude_of(c + d),
    ensures
        parts() * magnitude_of(x - y) <= parts() * (magnitude_of(a - c) + magnitude_of(b - d)) + (
        magnitude_of(a) + magnitude_of(b) + magnitude_of(c) + magnitude_of(d)),
        parts() * magnitude_of(x) <= parts() * (magnitude_of(a) + magnitude_of(b)) + (magnitude_of(a)
            + magnitude_of(b)),
        parts() * magnitude_of(y) <= parts() * (magnitude_of(c) + magnitude_of(d)) + (magnitude_of(c)
            + magnitude_of(d)),
{
    let (e, f) = (x - (a + b), y - (c + d));
    assert(magnitude_of(x - y) <= magnitude_of(e) + magnitude_of(f) + magnitude_of(a - c)
        + magnitude_of(b - d));
    assert(magnitude_of(x) <= magnitude_of(e) + magnitude_of(a + b));
    assert(magnitude_of(y) <= magnitude_of(f) + magnitude_of(c + d));
}

proof fn lemma_times_units(k: int, u: int, x: int, y: int, z: int)
    requires
        k * x <= k * y + z,
        u > 0,
    ensures
        k * (x * u) <= k * (y * u) + z * u,
{
    assert(k * (x * u) <= k * (y * u) + z * u) by (nonlinear_arith)
        requires
            k * x <= k * y + z,
            u > 0,
    ;
}

/// Two numbers that are close to a third one, counted in units of units.
proof fn lemma_close_terms(x: int, y: int, z: int, r: int)
    requires
        r >= 0,
        magnitude_of(z) <= 12 * r,
        parts() * magnitude_of(x * one() - z) <= 160 * r,
        parts() * magnitude_of(y * one() - z) <= 160 * r,
    ensures
        parts() * (magnitude_of(x - y) * one()) <= 320 * r,
        magnitude_of(x) * one() <= 13 * r,
        magnitude_of(y) * one() <= 13 * r,
{
    let u = one() as int;
    lemma_pow2_pos(1074);
    let e = x - y;
    assert(e * u == x * u - y * u) by (nonlinear_arith)
        requires
            e == x - y,
    ;
    lemma_abs_product(e, u, magnitude_of(e), u);
    lemma_abs_product(x, u, magnitude_of(x), u);
    lemma_abs_product(y, u, magnitude_of(y), u);
}

/// One product, in both kinds of planes.
proof fn lemma_one_term(v: int, ef: int, es: int, x: int, y: int, si: nat, sj: nat, b: int, q: int)
    requires
        si <= 31,
        sj <= 31,
        b >= one(),
        q >= one(),
        magnitude_of(v) <= b,
        ef == quotient(product(v, one() as int), one() as int),
        es == quotient(product(v, (pow2(sj) * one()) as int), (pow2(si) * one()) as int),
        parts() * magnitude_of(x - pow2(sj) * y) <= 64 * q,
        magnitude_of(x) <= 12 * q,
        magnitude_of(pow2(sj) * y) <= 12 * q,
    ensures
        parts() * (magnitude_of(product(ef, x) - pow2(si) * product(es, y)) * one()) <= 320 * (b * q),
        magnitude_of(product(ef, x)) * one() <= 13 * (b * q),
        magnitude_of(pow2(si) * product(es, y)) * one() <= 13 * (b * q),
{
    let bq = b * q;
    lemma2_to64();
    assert(1 * one() == one());
    lemma_entries(v, si, sj, b);
    lemma_terms(v, es, x, y, si, sj, b, q);
    lemma_entries(v, 0, 0, b);
    assert(1 * x == x && 1 * b == b && 1 * v == v && 1 * ef == ef);
    lemma_terms(v, ef, x, x, 0, 0, b, q);
    let w = product(ef, x);
    assert(1 * w == w);
    lemma_abs_product(v, x, b, 12 * q);
    assert(b * (12 * q) == 12 * bq) by (nonlinear_arith)
        requires
            bq == b * q,
    ;
    assert(bq >= 0) by (nonlinear_arith)
        requires
            bq == b * q,
            b >= 0,
            q >= 0,
    ;
    lemma_close_terms(w, pow2(si) * product(es, y), v * x, bq);
}

/// The coordinate of a plane along an axis that it is not subsampled along, or is, scaled to pixels.
proof fn lemma_whole_row(
    a: Seq<int>,
    b: Seq<int>,
    cf: int,
    cs: int,
    s: nat,
    r: int,
)
    requires
        s <= 31,
        r >= 0,
        forall|j: int|
            0 <= j < 3 ==> {
                &&& parts() * (magnitude_of(#[trigger] a[j] - pow2(s) * b[j]) * one()) <= 320 * r
                &&& magnitude_of(a[j]) * one() <= 13 * r
                &&& magnitude_of(pow2(s) * b[j]) * one() <= 13 * r
            },
        parts() * (magnitude_of(cf - pow2(s) * cs) * one()) <= 4 * r,
        magnitude_of(cf) * one() <= 2 * r,
        magnitude_of(pow2(s) * cs) * one() <= 2 * r,
    ensures
        0x400_0000_0000 * (magnitude_of(
            sum(sum(sum(a[0], a[1]), a[2]), cf) - pow2(s) * sum(sum(sum(b[0], b[1]), b[2]), cs),
        ) * one()) <= r,
{
    let p = pow2(s) as int;
    let x = a[0];
    let y = a[1];
    let z = a[2];
    assert(parts() * (magnitude_of(a[0] - p * b[0]) * one()) <= 320 * r);
    assert(parts() * (magnitude_of(a[1] - p * b[1]) * one()) <= 320 * r);
    assert(parts() * (magnitude_of(a[2] - p * b[2]) * one()) <= 320 * r);
    lemma_scaled_sum(b[0], b[1], s);
    lemma_scaled_sum(sum(b[0], b[1]), b[2], s);
    lemma_scaled_sum(sum(sum(b[0], b[1]), b[2]), cs, s);
    lemma_close_in_units(x, y, p * b[0], p * b[1], 320 * r, 320 * r, 13 * r, 13 * r);
    let (m, n) = (sum(x, y), sum(p * b[0], p * b[1]));
    assert(magnitude_of(m) * one() <= 27 * r);
    assert(magnitude_of(n) * one() <= 27 * r);
    lemma_close_in_units(m, z, n, p * b[2], 692 * r, 320 * r, 27 * r, 13 * r);
    let (v, w) = (sum(m, z), sum(n, p * b[2]));
    assert(magnitude_of(v) * one() <= 41 * r);
    assert(magnitude_of(w) * one() <= 41 * r);
    lemma_close_in_units(v, cf, w, p * cs, 1092 * r, 4 * r, 41 * r, 2 * r);
}

/// Everything that a mapping starts from lies within `q`, counted in units.
pub open spec fn all_within(
    in_dims: Seq<nat>,
    out_dims: Seq<nat>,
    track: TrackView,
    x: int,
    y: int,
    z: int,
    q: int,
) -> bool {
    let t = difference(sum(z, half()), track.zc);
    &&& q >= one()
    &&& magnitude_of(x) <= q && magnitude_of(y) <= q && magnitude_of(z) <= q
    &&& half_side(in_dims[0]) <= q && half_side(in_dims[1]) <= q && half_side(in_dims[2]) <= q
    &&& half_side(out_dims[0]) <= q && half_side(out_dims[1]) <= q && half_side(out_dims[2]) <= q
    &&& magnitude_of(track.zc) <= q
    &&& magnitude_of(track.pos[0]) <= q && magnitude_of(track.pos[1]) <= q
    &&& magnitude_of(track.vel[0] * t) <= q * one() && magnitude_of(track.vel[1] * t) <= q * one()
}

/// A subsampled plane is sampled at the same places as the plane with every pixel, whatever the
/// numbers are: for a matrix with entries up to `b` and places, paths and sides up to `q`, the input
/// coordinates of a sample, in pixels, are those of the pixel at the centre of the sample, but for
/// one part of `b * q` in 2^42.
pub proof fn planes_sample_close_places(
    g: Seq<Seq<int>>,
    in_dims: Seq<nat>,
    out_dims: Seq<nat>,
    track: TrackView,
    sx: nat,
    sy: nat,
    x: int,
    y: int,
    z: int,
    i: int,
    b: int,
    q: int,
)
    requires
        in_dims.len() == 3,
        out_dims.len() == 3,
        sx <= 31,
        sy <= 31,
        0 <= i < 3,
        b >= one(),
        forall|k: int, j: int| 0 <= k < 3 && 0 <= j < 3 ==> magnitude_of(#[trigger] g[k][j]) <= b,
        all_within(in_dims, out_dims, track, pixel_at(x, sx), pixel_at(y, sy), z, q),
    ensures
        ({
            let full = plane_mapping(g, in_dims, out_dims, track, 0, 0);
            let sub = plane_mapping(g, in_dims, out_dims, track, sx, sy);
            0x400_0000_0000 * (magnitude_of(
                full.mapped(pixel_at(x, sx), pixel_at(y, sy), z)[i] - pow2(levels(sx, sy)[i])
                    * sub.mapped(x, y, z)[i],
            ) * one()) <= b * q
        }),
{
    let full = plane_mapping(g, in_dims, out_dims, track, 0, 0);
    let sub = plane_mapping(g, in_dims, out_dims, track, sx, sy);
    let l = levels(sx, sy);
    let r = b * q;
    lemma2_to64();
    assert(1 * one() == one());
    assert(pow2(0) == 1);
    lemma_all_places(g, in_dims, out_dims, track, sx, sy, x, y, z, q);
    let vf = full.placed(pixel_at(x, sx), pixel_at(y, sy), z);
    let vs = sub.placed(x, y, z);
    let (ef, es) = (full.inv[i], sub.inv[i]);
    let a = Seq::new(3, |j: int| product(ef[j], vf[j]));
    let c = Seq::new(3, |j: int| product(es[j], vs[j]));
    assert forall|j: int| 0 <= j < 3 implies {
        &&& parts() * (magnitude_of(#[trigger] a[j] - pow2(l[i]) * c[j]) * one()) <= 320 * r
        &&& magnitude_of(a[j]) * one() <= 13 * r
        &&& magnitude_of(pow2(l[i]) * c[j]) * one() <= 13 * r
    } by {
        assert(magnitude_of(g[j][i]) <= b);
        assert(steps(0, 0)[j] == one() && steps(0, 0)[i] == one());
        assert(steps(sx, sy)[j] == pow2(l[j]) * one());
        assert(steps(sx, sy)[i] == pow2(l[i]) * one());
        assert(parts() * magnitude_of(vf[j] - pow2(l[j]) * vs[j]) <= 64 * q);
        lemma_one_term(g[j][i], ef[j], es[j], vf[j], vs[j], l[i], l[j], b, q);
    }
    let (cf, cs) = (full.in_center[i], sub.in_center[i]);
    lemma_input_centers(in_dims[i], i, sx, sy, b, q);
    assert(r >= 0) by (nonlinear_arith)
        requires
            r == b * q,
            b >= 0,
            q >= 0,
    ;
    lemma_whole_row(a, c, cf, cs, l[i], r);
    assert(dot(ef, vf) == sum(sum(a[0], a[1]), a[2]));
    assert(dot(es, vs) == sum(sum(c[0], c[1]), c[2]));
}

/// The centre of the input, in both kinds of planes.
proof fn lemma_input_centers(d: nat, i: int, sx: nat, sy: nat, b: int, q: int)
    requires
        0 <= i < 3,
        sx <= 31,
        sy <= 31,
        b >= one(),
        q >= one(),
        half_side(d) <= q,
    ensures
        ({
            let s = levels(sx, sy)[i];
            let h = half_side(d);
            let cf = if i == 2 {
                h
            } else {
                quotient(h, one() as int)
            };
            let cs = if i == 2 {
                h
            } else {
                quotient(h, (pow2(s) * one()) as int)
            };
            &&& parts() * (magnitude_of(cf - pow2(s) * cs) * one()) <= 4 * (b * q)
            &&& magnitude_of(cf) * one() <= 2 * (b * q)
            &&& magnitude_of(pow2(s) * cs) * one() <= 2 * (b * q)
        }),
{
    let u = one() as int;
    let k = parts();
    let s = levels(sx, sy)[i];
    let h = half_side(d);
    lemma_one_is_large();
    lemma2_to64();
    lemma_side_sign(d);
    lemma_two_scales(h, s, q);
    assert(1 * h == h);
    let cf = if i == 2 {
        h
    } else {
        quotient(h, one() as int)
    };
    let cs = if i == 2 {
        h
    } else {
        quotient(h, (pow2(s) * one()) as int)
    };
    let (x, y, z) = (magnitude_of(cf - pow2(s) * cs), magnitude_of(cf), magnitude_of(pow2(s) * cs));
    assert(k * x <= 4 * q && y <= 2 * q && z <= 2 * q);
    assert(k * (x * u) <= 4 * (b * q) && y * u <= 2 * (b * q) && z * u <= 2 * (b * q))
        by (nonlinear_arith)
        requires
            k * x <= 4 * q,
            y <= 2 * q,
            z <= 2 * q,
            u <= b,
            u > 0,
            q >= 0,
            x >= 0,
            y >= 0,
            z >= 0,
            k > 0,
    ;
}

/// Half a side is not negative.
pub proof fn lemma_side_sign(d: nat)
    ensures
        half_side(d) >= 0,
{
    lemma_pow2_pos(1074);
}

/// The places of a voxel, in both kinds of planes.
proof fn lemma_all_places(
    g: Seq<Seq<int>>,
    in_dims: Seq<nat>,
    out_dims: Seq<nat>,
    track: TrackView,
    sx: nat,
    sy: nat,
    x: int,
    y: int,
    z: int,
    q: int,
)
    requires
        in_dims.len() == 3,
        out_dims.len() == 3,
        sx <= 31,
        sy <= 31,
        all_within(in_dims, out_dims, track, pixel_at(x, sx), pixel_at(y, sy), z, q),
    ensures
        ({
            let full = plane_mapping(g, in_dims, out_dims, track, 0, 0);
            let sub = plane_mapping(g, in_dims, out_dims, track, sx, sy);
            let vf = full.placed(pixel_at(x, sx), pixel_at(y, sy), z);
            let vs = sub.placed(x, y, z);
            let l = levels(sx, sy);
            forall|j: int|
                0 <= j < 3 ==> {
                    &&& parts() * magnitude_of(#[trigger] vf[j] - pow2(l[j]) * vs[j]) <= 64 * q
                    &&& magnitude_of(vf[j]) <= 12 * q
                    &&& magnitude_of(pow2(l[j]) * vs[j]) <= 12 * q
                }
        }),
{
    let full = plane_mapping(g, in_dims, out_dims, track, 0, 0);
    let sub = plane_mapping(g, in_dims, out_dims, track, sx, sy);
    let vf = full.placed(pixel_at(x, sx), pixel_at(y, sy), z);
    let vs = sub.placed(x, y, z);
    let l = levels(sx, sy);
    lemma2_to64();
    lemma_one_is_large();
    lemma_half_value();
    assert(1 * one() == one());
    let t = difference(sum(z, half()), track.zc);
    lemma_sum_error(z, half());
    lemma_sum_error(sum(z, half()), track.zc);
    assert(magnitude_of(t) <= 8 * q);
    lemma_centers(track, t, 0, sx, q);
    lemma_centers(track, t, 1, sy, q);
    lemma_side_sign(out_dims[0]);
    lemma_side_sign(out_dims[1]);
    lemma_side_sign(out_dims[2]);
    lemma_places(x, out_dims[0], full.track.center(z, 0), sub.track.center(z, 0), sx, q);
    lemma_places(y, out_dims[1], full.track.center(z, 1), sub.track.center(z, 1), sy, q);
    lemma_sum_error(sum(z, half()), half_side(out_dims[2]));
    assert(vf[2] == vs[2]);
    assert(1 * vs[2] == vs[2]);
    assert forall|j: int| 0 <= j < 3 implies {
        &&& parts() * magnitude_of(#[trigger] vf[j] - pow2(l[j]) * vs[j]) <= 64 * q
        &&& magnitude_of(vf[j]) <= 12 * q
        &&& magnitude_of(pow2(l[j]) * vs[j]) <= 12 * q
    } by {
        assert(j == 0 || j == 1 || j == 2);
    }
}

} // verus!
