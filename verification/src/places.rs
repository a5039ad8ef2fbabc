//! Where an output voxel comes from: the place that the rotation says, computed without rounding, and
//! how far the mapping can be from it.

use vstd::prelude::*;
use vstd::arithmetic::power2::{lemma2_to64, lemma2_to64_rest, lemma_pow2_pos, pow2};
use crate::accuracy::{lemma_abs_product, lemma_one_is_large, lemma_product_error, lemma_sum_error};
use crate::agreement::{
    all_within, lemma_drifted, lemma_entries, lemma_half_value, lemma_scaled_down, lemma_side_sign,
    lemma_step_size, lemma_terms, parts, planes_sample_close_places,
};
use crate::binary64::{
    difference, fraction, halves_are_exact, magnitude_of, one, product, quotient, rounding_error,
    sum, whole_numbers_are_exact,
};
use crate::geometry::dot;
use crate::mapping::{plane_mapping, steps};
use crate::render::along;
use crate::slices::lemma_quotient_close;
use crate::subsampling::{levels, pixel_at};
use crate::track::{half, half_side, two, TrackView};

verus! {

/// Twice the place of an output voxel, relative to the centre of the rotated volume, counted in units
/// of units: the centre of the voxel at `(x, y, z)`, less half the side of the output, and more the
/// place of the window at that time.
pub open spec fn rotated_place(
    out_dims: Seq<nat>,
    track: TrackView,
    x: int,
    y: int,
    z: int,
    j: int,
) -> int {
    let u = one() as int;
    let t = difference(sum(z, half()), track.zc);
    if j == 2 {
        (2 * z + u - out_dims[2] * u) * u
    } else {
        let at = if j == 0 {
            x
        } else {
            y
        };
        (2 * at + u - out_dims[j] * u) * u + 2 * (track.pos[j] * u) + 2 * (track.vel[j] * t)
    }
}

/// Twice the place in the input that an output voxel comes from, counted in units of units of units:
/// the rotation undone, by the columns of the matrix, around the centre of the input.
pub open spec fn source_place(
    g: Seq<Seq<int>>,
    in_dims: Seq<nat>,
    out_dims: Seq<nat>,
    track: TrackView,
    x: int,
    y: int,
    z: int,
    i: int,
) -> int {
    let u = one() as int;
    g[0][i] * rotated_place(out_dims, track, x, y, z, 0) + g[1][i] * rotated_place(
        out_dims,
        track,
        x,
        y,
        z,
        1,
    ) + g[2][i] * rotated_place(out_dims, track, x, y, z, 2) + ((in_dims[i] * u) * u) * u
}

/// Half a side is half the side, but for rounding.
pub proof fn lemma_half_sides(d: nat, q: int)
    requires
        half_side(d) <= q,
        q >= one(),
    ensures
        parts() * magnitude_of(2 * half_side(d) - d * one()) <= 8 * q,
        0 <= half_side(d),
        d * one() <= 3 * q,
{
    let u = one() as int;
    lemma_one_is_large();
    lemma_side_sign(d);
    lemma2_to64_rest();
    rounding_error(d * one());
    let f = fraction(d, 1) as int;
    let h = half_side(d);
    lemma_quotient_close(f, two());
    let t = 2 * h - f;
    assert(h * two() - f * u == t * u) by (nonlinear_arith)
        requires
            two() == 2 * u,
            t == 2 * h - f,
    ;
    let m = magnitude_of(t);
    lemma_abs_product(t, u, m, u);
    let k = parts();
    assert(k * m <= f + 2 * k) by (nonlinear_arith)
        requires
            k * (m * u) <= f * u + k * (2 * u),
            u > 0,
    ;
}

/// The drift of a window, in a plane with every pixel.
proof fn lemma_whole_drift(vel: int, t: int, q: int)
    requires
        q >= one(),
        magnitude_of(vel * t) <= q * one(),
        magnitude_of(t) <= 8 * q,
    ensures
        ({
            let w = product(quotient(vel, one() as int), t);
            &&& parts() * magnitude_of(w * one() - vel * t) <= 6 * (q * one())
            &&& magnitude_of(w) <= 2 * q
        }),
{
    let u = one() as int;
    lemma_one_is_large();
    lemma2_to64();
    assert(1 * one() == one());
    lemma_drifted(vel, t, 0, q);
    let w = product(quotient(vel, u), t);
    assert(1 * w == w);
    let m = magnitude_of(w);
    lemma_abs_product(w, u, m, u);
    let qu = q * u;
    assert(qu >= 0) by (nonlinear_arith)
        requires
            qu == q * u,
            q >= 0,
            u >= 0,
    ;
    assert(m * u <= 2 * qu);
    assert(m <= 2 * q) by (nonlinear_arith)
        requires
            m * u <= 2 * (q * u),
            u > 0,
    ;
}

/// A number divided by one.
proof fn lemma_over_one(v: int)
    ensures
        parts() * magnitude_of(quotient(v, one() as int) - v) <= magnitude_of(v) + parts(),
{
    lemma2_to64();
    assert(1 * one() == one());
    lemma_scaled_down(v, 0);
    let f = quotient(v, one() as int);
    assert(1 * f == f);
}

/// The centre of a voxel less half the side of the output, rounded.
proof fn lemma_centred(x: int, d: nat, q: int)
    requires
        q >= one(),
        magnitude_of(x) <= q,
        half_side(d) <= q,
    ensures
        ({
            let e = difference(sum(x, half()), quotient(half_side(d), one() as int));
            &&& parts() * magnitude_of(2 * e - (2 * x + one() - d * one())) <= 26 * q
            &&& magnitude_of(e) <= 6 * q
        }),
{
    lemma_one_is_large();
    lemma_half_value();
    halves_are_exact(1);
    lemma_half_sides(d, q);
    lemma_over_one(half_side(d));
    let h = half();
    assert(one() == 2 * h);
    let a = sum(x, h);
    lemma_sum_error(x, h);
    let c = quotient(half_side(d), one() as int);
    lemma_sum_error(a, c);
    lemma_taken(x, h, a, c, half_side(d), d * one() as int, difference(a, c), q);
}

proof fn lemma_taken(x: int, h: int, a: int, c: int, s: int, d: int, e: int, q: int)
    requires
        q >= 0x8000_0000_0000_0000_0000_0000_0000_0000,
        0 <= 2 * h <= q,
        magnitude_of(x) <= q,
        0 <= s <= q,
        parts() * magnitude_of(a - (x + h)) <= magnitude_of(x + h),
        parts() * magnitude_of(c - s) <= magnitude_of(s) + parts(),
        parts() * magnitude_of(2 * s - d) <= 8 * q,
        parts() * magnitude_of(e - (a - c)) <= magnitude_of(a - c),
    ensures
        parts() * magnitude_of(2 * e - (2 * x + 2 * h - d)) <= 26 * q,
        magnitude_of(e) <= 6 * q,
{
    let (f, g) = (a - (x + h), c - s);
    let w = e - (a - c);
    assert(parts() * magnitude_of(f) <= 2 * q);
    assert(parts() * magnitude_of(g) <= 2 * q);
    assert(magnitude_of(a - c) <= 5 * q);
    assert(2 * e - (2 * x + 2 * h - d) == 2 * w + 2 * f - 2 * g - (2 * s - d));
}

/// The sums that place a voxel, rounded, against the sum that they stand for.
proof fn lemma_placed_sums(x: int, d: nat, pos: int, w: int, q: int)
    requires
        q >= one(),
        magnitude_of(x) <= q,
        half_side(d) <= q,
        magnitude_of(pos) <= q,
        magnitude_of(w) <= 2 * q,
    ensures
        ({
            let n = sum(
                difference(sum(x, half()), quotient(half_side(d), one() as int)),
                sum(quotient(pos, one() as int), w),
            );
            &&& parts() * magnitude_of(2 * n - (2 * x + one() - d * one() + 2 * pos + 2 * w)) <= 64
                * q
            &&& magnitude_of(n) <= 12 * q
        }),
{
    lemma_one_is_large();
    lemma_centred(x, d, q);
    lemma_over_one(pos);
    let e = difference(sum(x, half()), quotient(half_side(d), one() as int));
    let f = quotient(pos, one() as int);
    lemma_sum_error(f, w);
    let m = sum(f, w);
    lemma_sum_error(e, m);
    let y = 2 * x + one() - d * one();
    lemma_added(e, m, y, 2 * pos + 2 * w, sum(e, m), q);
}

proof fn lemma_added(e: int, m: int, y: int, z: int, n: int, q: int)
    requires
        parts() * magnitude_of(2 * e - y) <= 26 * q,
        parts() * magnitude_of(2 * m - z) <= 14 * q,
        magnitude_of(e) <= 6 * q,
        magnitude_of(m) <= 5 * q,
        parts() * magnitude_of(n - (e + m)) <= magnitude_of(e + m),
        q >= 0,
    ensures
        parts() * magnitude_of(2 * n - (y + z)) <= 64 * q,
        magnitude_of(n) <= 12 * q,
{
}

/// The place of a voxel along the width or the height, against the exact one.
proof fn lemma_one_place(x: int, d: nat, pos: int, vel: int, t: int, q: int)
    requires
        q >= one(),
        magnitude_of(x) <= q,
        half_side(d) <= q,
        magnitude_of(pos) <= q,
        magnitude_of(vel * t) <= q * one(),
        magnitude_of(t) <= 8 * q,
    ensures
        ({
            let u = one() as int;
            let n = sum(
                difference(sum(x, half()), quotient(half_side(d), u)),
                sum(quotient(pos, u), product(quotient(vel, u), t)),
            );
            let exact = (2 * x + u - d * u) * u + 2 * (pos * u) + 2 * (vel * t);
            &&& parts() * magnitude_of(2 * (n * u) - exact) <= 76 * (q * u)
            &&& magnitude_of(n) <= 12 * q
        }),
{
    let u = one() as int;
    let k = parts();
    lemma_one_is_large();
    lemma_whole_drift(vel, t, q);
    let w = product(quotient(vel, u), t);
    lemma_placed_sums(x, d, pos, w, q);
    let n = sum(
        difference(sum(x, half()), quotient(half_side(d), u)),
        sum(quotient(pos, u), w),
    );
    let a = 2 * x + u - d * u;
    let s = 2 * n - (a + 2 * pos + 2 * w);
    let m = magnitude_of(s);
    lemma_abs_product(s, u, m, u);
    assert(s * u == 2 * (n * u) - (a * u + 2 * (pos * u) + 2 * (w * u))) by (nonlinear_arith)
        requires
            s == 2 * n - (a + 2 * pos + 2 * w),
    ;
    assert(k * (m * u) <= 64 * (q * u)) by (nonlinear_arith)
        requires
            k * m <= 64 * q,
            u > 0,
    ;
}

/// The time of a voxel, against the exact one.
proof fn lemma_time_place(z: int, d: nat, q: int)
    requires
        q >= one(),
        magnitude_of(z) <= q,
        half_side(d) <= q,
    ensures
        ({
            let u = one() as int;
            let n = difference(sum(z, half()), half_side(d));
            &&& parts() * magnitude_of(2 * (n * u) - (2 * z + u - d * u) * u) <= 76 * (q * u)
            &&& magnitude_of(n) <= 12 * q
        }),
{
    let u = one() as int;
    let k = parts();
    lemma_one_is_large();
    lemma_half_value();
    halves_are_exact(1);
    lemma_half_sides(d, q);
    let h = half();
    lemma_sum_error(z, h);
    let a = sum(z, h);
    lemma_sum_error(a, half_side(d));
    let n = difference(a, half_side(d));
    let e = 2 * z + u - d * u;
    let s = 2 * n - e;
    let m = magnitude_of(s);
    assert(k * m <= 64 * q);
    lemma_abs_product(s, u, m, u);
    assert(s * u == 2 * (n * u) - e * u) by (nonlinear_arith)
        requires
            s == 2 * n - e,
    ;
    assert(k * (m * u) <= 64 * (q * u)) by (nonlinear_arith)
        requires
            k * m <= 64 * q,
            u > 0,
    ;
    assert(q * u >= 0) by (nonlinear_arith)
        requires
            q >= 0,
            u > 0,
    ;
}

/// A product of an entry and a place, against the exact one.
proof fn lemma_exact_term(v: int, n: int, exact: int, b: int, q: int)
    requires
        b >= one(),
        q >= one(),
        magnitude_of(v) <= b,
        magnitude_of(n) <= 12 * q,
        parts() * magnitude_of(2 * (n * one()) - exact) <= 76 * (q * one()),
    ensures
        ({
            let u = one() as int;
            let a = product(quotient(product(v, u), u), n);
            &&& parts() * magnitude_of(((2 * a) * u) * u - v * exact) <= 400 * ((b * q) * u)
            &&& magnitude_of(a) * u <= 13 * (b * q)
        }),
{
    let u = one() as int;
    let k = parts();
    let r = b * q;
    lemma_one_is_large();
    lemma2_to64();
    assert(1 * one() == one());
    lemma_entries(v, 0, 0, b);
    let e = quotient(product(v, u), u);
    assert(1 * e == e && 1 * v == v && 1 * b == b && 1 * n == n);
    lemma_terms(v, e, n, n, 0, 0, b, q);
    let a = product(e, n);
    assert(1 * a == a);
    let s = a * u - v * n;
    assert(k * magnitude_of(s) <= 160 * r);
    // in units of units of units
    let ms = magnitude_of(s);
    lemma_abs_product(s, u, ms, u);
    assert(k * (ms * u) <= 160 * (r * u)) by (nonlinear_arith)
        requires
            k * ms <= 160 * r,
            u > 0,
    ;
    let d = 2 * (n * u) - exact;
    let md = magnitude_of(d);
    lemma_abs_product(v, d, b, md);
    assert(k * (b * md) <= 76 * (r * u)) by (nonlinear_arith)
        requires
            k * md <= 76 * (q * u),
            b > 0,
            r == b * q,
    ;
    assert(((2 * a) * u) * u - v * exact == 2 * (s * u) + v * d) by (nonlinear_arith)
        requires
            s == a * u - v * n,
            d == 2 * (n * u) - exact,
    ;
    // the size
    lemma_abs_product(v, n, b, 12 * q);
    assert(b * (12 * q) == 12 * r) by (nonlinear_arith)
        requires
            r == b * q,
    ;
    assert(r >= 0) by (nonlinear_arith)
        requires
            r == b * q,
            b >= 0,
            q >= 0,
    ;
    lemma_abs_product(a, u, magnitude_of(a), u);
    assert(r * u >= 0) by (nonlinear_arith)
        requires
            r >= 0,
            u > 0,
    ;
}

/// Four numbers added up in order.
proof fn lemma_four(a: int, b: int, c: int, d: int)
    ensures
        ({
            let s = sum(sum(sum(a, b), c), d);
            let m = magnitude_of(a) + magnitude_of(b) + magnitude_of(c) + magnitude_of(d);
            parts() * magnitude_of(s - (a + b + c + d)) <= 5 * m
        }),
{
    let e = sum(a, b);
    let f = sum(e, c);
    lemma_sum_error(a, b);
    lemma_sum_error(e, c);
    lemma_sum_error(f, d);
    lemma_four_errors(a, b, c, d, e, f, sum(f, d));
}

proof fn lemma_four_errors(a: int, b: int, c: int, d: int, e: int, f: int, s: int)
    requires
        parts() * magnitude_of(e - (a + b)) <= magnitude_of(a + b),
        parts() * magnitude_of(f - (e + c)) <= magnitude_of(e + c),
        parts() * magnitude_of(s - (f + d)) <= magnitude_of(f + d),
    ensures
        parts() * magnitude_of(s - (a + b + c + d)) <= 5 * (magnitude_of(a) + magnitude_of(b)
            + magnitude_of(c) + magnitude_of(d)),
{
    let (ma, mb, mc, md) = (magnitude_of(a), magnitude_of(b), magnitude_of(c), magnitude_of(d));
    lemma_stage(e, a, b, ma, mb);
    lemma_stage(f, e, c, magnitude_of(e), mc);
    lemma_stage(s, f, d, magnitude_of(f), md);
    lemma_three_errors(e - (a + b), f - (e + c), s - (f + d), ma + mb + mc + md);
}

/// A rounded sum is hardly larger than its terms.
proof fn lemma_stage(s: int, a: int, b: int, m: int, n: int)
    requires
        parts() * magnitude_of(s - (a + b)) <= magnitude_of(a + b),
        magnitude_of(a) <= m,
        magnitude_of(b) <= n,
    ensures
        parts() * magnitude_of(s - (a + b)) <= m + n,
        8 * magnitude_of(s) <= 9 * (m + n),
{
    assert(magnitude_of(a + b) <= m + n);
}

proof fn lemma_three_errors(x: int, y: int, z: int, m: int)
    requires
        parts() * magnitude_of(x) <= m,
        parts() * magnitude_of(y) <= 2 * m,
        parts() * magnitude_of(z) <= 2 * m,
    ensures
        parts() * magnitude_of(x + y + z) <= 5 * m,
{
}

/// The centre of the input, against the exact one.
proof fn lemma_centre_place(c: int, d: nat, q: int)
    requires
        q >= one(),
        half_side(d) <= q,
        c == half_side(d) || c == quotient(half_side(d), one() as int),
    ensures
        ({
            let u = one() as int;
            &&& parts() * magnitude_of(((2 * c) * u) * u - ((d * u) * u) * u) <= 12 * ((q * u) * u)
            &&& magnitude_of(c) <= 2 * q
        }),
{
    let u = one() as int;
    let k = parts();
    lemma_one_is_large();
    lemma_half_sides(d, q);
    lemma_over_one(half_side(d));
    let w = d * u;
    let e = 2 * c - w;
    let m = magnitude_of(e);
    assert(k * m <= 12 * q);
    let uu = u * u;
    assert(uu > 0) by (nonlinear_arith)
        requires
            uu == u * u,
            u > 0,
    ;
    lemma_abs_product(e, uu, m, uu);
    assert(e * uu == ((2 * c) * u) * u - (w * u) * u) by (nonlinear_arith)
        requires
            e == 2 * c - w,
            uu == u * u,
    ;
    assert(k * (m * uu) <= 12 * ((q * u) * u)) by (nonlinear_arith)
        requires
            k * m <= 12 * q,
            uu == u * u,
            uu > 0,
    ;
}

/// One coordinate, from the products and the centre, against the exact one.
proof fn lemma_source_sum(
    a: int,
    b: int,
    c: int,
    d: int,
    x: int,
    y: int,
    z: int,
    w: int,
    r: int,
    u: int,
)
    requires
        u > 0,
        r >= 0,
        u == one(),
        parts() * magnitude_of(((2 * a) * u) * u - x) <= 400 * (r * u),
        parts() * magnitude_of(((2 * b) * u) * u - y) <= 400 * (r * u),
        parts() * magnitude_of(((2 * c) * u) * u - z) <= 400 * (r * u),
        parts() * magnitude_of(((2 * d) * u) * u - w) <= 12 * (r * u),
        magnitude_of(a) * u <= 13 * r,
        magnitude_of(b) * u <= 13 * r,
        magnitude_of(c) * u <= 13 * r,
        magnitude_of(d) * u <= 2 * r,
    ensures
        0x400_0000_0000 * magnitude_of(
            ((2 * sum(sum(sum(a, b), c), d)) * u) * u - (x + y + z + w),
        ) <= r * u,
        magnitude_of(sum(sum(sum(a, b), c), d)) * u <= 82 * r,
{
    let k = parts();
    lemma_four(a, b, c, d);
    let s = sum(sum(sum(a, b), c), d);
    let (ma, mb, mc, md) = (magnitude_of(a), magnitude_of(b), magnitude_of(c), magnitude_of(d));
    let m = ma + mb + mc + md;
    let e = s - (a + b + c + d);
    let me = magnitude_of(e);
    let ms = magnitude_of(s);
    assert(ms <= 2 * m);
    let uu = u * u;
    assert(uu > 0) by (nonlinear_arith)
        requires
            uu == u * u,
            u > 0,
    ;
    lemma_abs_product(e, uu, me, uu);
    assert(m * u <= 41 * r) by (nonlinear_arith)
        requires
            m == ma + mb + mc + md,
            ma * u <= 13 * r,
            mb * u <= 13 * r,
            mc * u <= 13 * r,
            md * u <= 2 * r,
    ;
    assert(ms * u <= 82 * r) by (nonlinear_arith)
        requires
            0 <= ms <= 2 * m,
            m * u <= 41 * r,
            u > 0,
    ;
    assert(k * (me * uu) <= 205 * (r * u)) by (nonlinear_arith)
        requires
            k * me <= 5 * m,
            m * u <= 41 * r,
            uu == u * u,
            u > 0,
    {
        assert(k * (me * uu) == (k * me) * uu);
        assert((k * me) * uu <= (5 * m) * uu);
        assert((5 * m) * uu == 5 * ((m * u) * u));
        assert((m * u) * u <= (41 * r) * u);
    }
    assert(((2 * s) * u) * u == ((2 * a) * u) * u + ((2 * b) * u) * u + ((2 * c) * u) * u + ((2 * d)
        * u) * u + 2 * (e * uu)) by (nonlinear_arith)
        requires
            e == s - (a + b + c + d),
            uu == u * u,
    ;
    lemma_five_errors(
        ((2 * a) * u) * u - x,
        ((2 * b) * u) * u - y,
        ((2 * c) * u) * u - z,
        ((2 * d) * u) * u - w,
        e * uu,
        r * u,
    );
}

proof fn lemma_five_errors(a: int, b: int, c: int, d: int, e: int, r: int)
    requires
        parts() * magnitude_of(a) <= 400 * r,
        parts() * magnitude_of(b) <= 400 * r,
        parts() * magnitude_of(c) <= 400 * r,
        parts() * magnitude_of(d) <= 12 * r,
        parts() * magnitude_of(e) <= 205 * r,
    ensures
        0x400_0000_0000 * magnitude_of(a + b + c + d + 2 * e) <= r,
{
}

proof fn lemma_mapped(
    g: Seq<Seq<int>>,
    in_dims: Seq<nat>,
    out_dims: Seq<nat>,
    track: TrackView,
    x: int,
    y: int,
    z: int,
    i: int,
    b: int,
    q: int,
)
    requires
        in_dims.len() == 3,
        out_dims.len() == 3,
        0 <= i < 3,
        b >= one(),
        forall|k: int, j: int| 0 <= k < 3 && 0 <= j < 3 ==> magnitude_of(#[trigger] g[k][j]) <= b,
        all_within(in_dims, out_dims, track, x, y, z, q),
    ensures
        ({
            let at = plane_mapping(g, in_dims, out_dims, track, 0, 0).mapped(x, y, z)[i];
            0x400_0000_0000 * magnitude_of(
                ((2 * at) * one()) * one() - source_place(
                    g,
                    in_dims,
                    out_dims,
                    track,
                    x,
                    y,
                    z,
                    i,
                ),
            ) <= (b * q) * one() && magnitude_of(at) * one() <= 82 * (b * q)
        }),
{
    let full = plane_mapping(g, in_dims, out_dims, track, 0, 0);
    let u = one() as int;
    let r = b * q;
    lemma2_to64();
    lemma_one_is_large();
    lemma_half_value();
    assert(1 * one() == one());
    let t = difference(sum(z, half()), track.zc);
    lemma_sum_error(z, half());
    lemma_sum_error(sum(z, half()), track.zc);
    assert(magnitude_of(t) <= 8 * q);
    let n = full.placed(x, y, z);
    lemma_one_place(x, out_dims[0], track.pos[0], track.vel[0], t, q);
    lemma_one_place(y, out_dims[1], track.pos[1], track.vel[1], t, q);
    lemma_time_place(z, out_dims[2], q);
    assert(steps(0, 0) =~= seq![u, u, u]);
    let ex = rotated_place(out_dims, track, x, y, z, 0);
    let ey = rotated_place(out_dims, track, x, y, z, 1);
    let ez = rotated_place(out_dims, track, x, y, z, 2);
    assert(magnitude_of(g[0][i]) <= b && magnitude_of(g[1][i]) <= b && magnitude_of(g[2][i]) <= b);
    lemma_exact_term(g[0][i], n[0], ex, b, q);
    lemma_exact_term(g[1][i], n[1], ey, b, q);
    lemma_exact_term(g[2][i], n[2], ez, b, q);
    let c = full.in_center[i];
    lemma_centre_place(c, in_dims[i], q);
    assert(r >= 0 && (q * u) * u <= r * u && magnitude_of(c) * u <= 2 * r) by (nonlinear_arith)
        requires
            r == b * q,
            b >= u,
            q >= 0,
            u > 0,
            0 <= magnitude_of(c) <= 2 * q,
    {
        assert(q * u <= r);
        assert(magnitude_of(c) * u <= (2 * q) * u);
    }
    let row = full.inv[i];
    let (pa, pb, pc) = (product(row[0], n[0]), product(row[1], n[1]), product(row[2], n[2]));
    lemma_source_sum(
        pa,
        pb,
        pc,
        c,
        g[0][i] * ex,
        g[1][i] * ey,
        g[2][i] * ez,
        ((in_dims[i] * u) * u) * u,
        r,
        u,
    );
    assert(dot(row, n) == sum(sum(pa, pb), pc));
}

/// The mapping undoes the rotation: an output voxel comes from the place that the inverse rotation
/// around both centres takes it to, with the window where its path says, but for one part of `b * q`
/// in 2^42, for a matrix with entries up to `b` and places, paths and sides up to `q`.
pub proof fn the_mapping_undoes_the_rotation(
    g: Seq<Seq<int>>,
    in_dims: Seq<nat>,
    out_dims: Seq<nat>,
    track: TrackView,
    x: int,
    y: int,
    z: int,
    i: int,
    b: int,
    q: int,
)
    requires
        in_dims.len() == 3,
        out_dims.len() == 3,
        0 <= i < 3,
        b >= one(),
        forall|k: int, j: int| 0 <= k < 3 && 0 <= j < 3 ==> magnitude_of(#[trigger] g[k][j]) <= b,
        all_within(in_dims, out_dims, track, x, y, z, q),
    ensures
        ({
            let at = plane_mapping(g, in_dims, out_dims, track, 0, 0).mapped(x, y, z)[i];
            0x400_0000_0000 * magnitude_of(
                ((2 * at) * one()) * one() - source_place(
                    g,
                    in_dims,
                    out_dims,
                    track,
                    x,
                    y,
                    z,
                    i,
                ),
            ) <= (b * q) * one()
        }),
{
    lemma_mapped(g, in_dims, out_dims, track, x, y, z, i, b, q);
}

/// The source of the first voxel of a row, and of one farther on.
proof fn lemma_row_step(
    g: Seq<Seq<int>>,
    in_dims: Seq<nat>,
    out_dims: Seq<nat>,
    track: TrackView,
    a: int,
    c: int,
    y: int,
    z: int,
    i: int,
)
    ensures
        source_place(g, in_dims, out_dims, track, c, y, z, i) - source_place(
            g,
            in_dims,
            out_dims,
            track,
            a,
            y,
            z,
            i,
        ) == g[0][i] * ((2 * (c - a)) * one()),
{
    let u = one() as int;
    let v = g[0][i];
    let (m, n) = (
        rotated_place(out_dims, track, c, y, z, 0),
        rotated_place(out_dims, track, a, y, z, 0),
    );
    let w = u - out_dims[0] * u;
    assert((2 * c + w) * u - (2 * a + w) * u == (2 * (c - a)) * u) by (nonlinear_arith);
    assert(2 * c + u - out_dims[0] * u == 2 * c + w);
    assert(m - n == (2 * (c - a)) * u);
    assert(v * m - v * n == v * (m - n)) by (nonlinear_arith);
}

/// A place in a row, along the exact line from its first voxel.
pub open spec fn on_line(q: int, dq: int, x: nat) -> int {
    q + x * dq
}

/// The line of a row, and the rounded places on it.
proof fn lemma_along(q: int, dq: int, x: nat)
    requires
        x < 0x20_0000_0000_0000,
    ensures
        parts() * magnitude_of(along(q, dq, x) - on_line(q, dq, x)) <= magnitude_of(q) + 4
            * magnitude_of(x * dq) + 4 * parts(),
{
    let u = one() as int;
    let k = parts();
    lemma_one_is_large();
    whole_numbers_are_exact(x);
    let f = (x * one()) as int;
    let w = product(f, dq);
    lemma_product_error(f, dq);
    let v = x * dq;
    assert(f * dq == v * u) by (nonlinear_arith)
        requires
            f == x * u,
            v == x * dq,
    ;
    let e = w - v;
    assert(w * u - f * dq == e * u) by (nonlinear_arith)
        requires
            e == w - v,
            f * dq == v * u,
    ;
    let (m, n) = (magnitude_of(e), magnitude_of(v));
    lemma_abs_product(e, u, m, u);
    lemma_abs_product(v, u, n, u);
    assert(k * m <= n + k) by (nonlinear_arith)
        requires
            k * (m * u) <= n * u + k * u,
            u > 0,
    ;
    lemma_sum_error(q, w);
    lemma_along_errors(q, w, v, sum(q, w));
}

proof fn lemma_along_errors(q: int, w: int, v: int, s: int)
    requires
        parts() * magnitude_of(w - v) <= magnitude_of(v) + parts(),
        parts() * magnitude_of(s - (q + w)) <= magnitude_of(q + w),
    ensures
        parts() * magnitude_of(s - (q + v)) <= magnitude_of(q) + 4 * magnitude_of(v) + 4 * parts(),
{
    assert(magnitude_of(q + w) <= magnitude_of(q) + magnitude_of(v) + magnitude_of(w - v));
}

/// The places of a row of a plane, in pixels, against the exact ones.
pub proof fn lemma_row_place(
    g: Seq<Seq<int>>,
    in_dims: Seq<nat>,
    out_dims: Seq<nat>,
    track: TrackView,
    sx: nat,
    sy: nat,
    x: nat,
    y: int,
    z: int,
    i: int,
    b: int,
    q: int,
)
    requires
        in_dims.len() == 3,
        out_dims.len() == 3,
        sx <= 31,
        sy <= 31,
        0 <= i < 3,
        x < 0x20_0000_0000_0000,
        b >= one(),
        forall|k: int, j: int| 0 <= k < 3 && 0 <= j < 3 ==> magnitude_of(#[trigger] g[k][j]) <= b,
        all_within(
            in_dims,
            out_dims,
            track,
            pixel_at((x * one()) as int, sx),
            pixel_at(y, sy),
            z,
            q,
        ),
    ensures
        ({
            let u = one() as int;
            let m = plane_mapping(g, in_dims, out_dims, track, sx, sy);
            let p = pow2(levels(sx, sy)[i]);
            let (q0, dq) = (m.mapped(0, y, z)[i], m.step_x()[i]);
            let want = source_place(
                g,
                in_dims,
                out_dims,
                track,
                pixel_at((x * one()) as int, sx),
                pixel_at(y, sy),
                z,
                i,
            );
            &&& 0x80_0000_0000 * magnitude_of(((2 * (p * on_line(q0, dq, x))) * u) * u - want) <= (b
                * q) * u
            &&& 0x80_0000_0000 * magnitude_of(((2 * (p * along(q0, dq, x))) * u) * u - want) <= (b
                * q) * u
            &&& magnitude_of(p * q0) * u <= 83 * (b * q)
            &&& magnitude_of(p * dq) <= 2 * (pow2(sx) * b)
        }),
{
    let u = one() as int;
    let k = parts();
    let r = b * q;
    let m = plane_mapping(g, in_dims, out_dims, track, sx, sy);
    let full = plane_mapping(g, in_dims, out_dims, track, 0, 0);
    let l = levels(sx, sy)[i];
    let p = pow2(l) as int;
    let s = pow2(sx) as int;
    let h = pow2(1073) as int;
    let (q0, dq) = (m.mapped(0, y, z)[i], m.step_x()[i]);
    let xu = (x * one()) as int;
    let (start, here) = (pixel_at(0, sx), pixel_at(xu, sx));
    lemma_step_size(sx);
    lemma_step_size(l);
    lemma_pow2_pos(1073);
    assert(s * 0 == 0);
    let sxu = s * xu;
    assert(sxu >= 0 && (s - 1) * h >= 0) by (nonlinear_arith)
        requires
            sxu == s * xu,
            s >= 1,
            xu >= 0,
            h >= 0,
    ;
    assert(here - start == sxu);
    assert(0 <= start <= here);
    let yp = pixel_at(y, sy);
    assert(all_within(in_dims, out_dims, track, start, yp, z, q));
    planes_sample_close_places(g, in_dims, out_dims, track, sx, sy, 0, y, z, i, b, q);
    lemma_mapped(g, in_dims, out_dims, track, start, yp, z, i, b, q);
    let f0 = full.mapped(start, yp, z)[i];
    let t0 = source_place(g, in_dims, out_dims, track, start, yp, z, i);
    let want = source_place(g, in_dims, out_dims, track, here, yp, z, i);
    lemma_row_step(g, in_dims, out_dims, track, start, here, yp, z, i);
    let v = g[0][i];
    assert(magnitude_of(g[0][i]) <= b);
    assert(steps(sx, sy)[0] == pow2(sx) * one());
    lemma2_to64();
    assert(1 * one() == one());
    assert(steps(sx, sy)[i] == pow2(l) * one());
    assert(dq == quotient(product(v, (pow2(sx) * one()) as int), (pow2(l) * one()) as int));
    lemma_entries(v, l, sx, b);
    lemma_along(q0, dq, x);
    lemma_row_numbers(q0, dq, f0, t0, want, v, x as int, s, p, sxu, b, q, along(q0, dq, x));
}

/// The arithmetic of a row, in plain numbers.
proof fn lemma_row_numbers(
    q0: int,
    dq: int,
    f0: int,
    t0: int,
    want: int,
    v: int,
    x: int,
    s: int,
    p: int,
    sxu: int,
    b: int,
    q: int,
    a: int,
)
    requires
        x >= 0,
        1 <= p <= 0x8000_0000,
        s >= 1,
        b >= one(),
        q >= one(),
        magnitude_of(v) <= b,
        sxu == s * (x * one()),
        sxu <= q,
        0x400_0000_0000 * (magnitude_of(f0 - p * q0) * one()) <= b * q,
        0x400_0000_0000 * magnitude_of(((2 * f0) * one()) * one() - t0) <= (b * q) * one(),
        magnitude_of(f0) * one() <= 82 * (b * q),
        want - t0 == v * ((2 * sxu) * one()),
        parts() * magnitude_of(p * dq - s * v) <= 6 * (s * b),
        parts() * magnitude_of(a - (q0 + x * dq)) <= magnitude_of(q0) + 4 * magnitude_of(x * dq) + 4
            * parts(),
    ensures
        ({
            let u = one() as int;
            &&& 0x80_0000_0000 * magnitude_of(((2 * (p * (q0 + x * dq))) * u) * u - want) <= (b * q)
                * u
            &&& 0x80_0000_0000 * magnitude_of(((2 * (p * a)) * u) * u - want) <= (b * q) * u
            &&& magnitude_of(p * q0) * u <= 83 * (b * q)
            &&& magnitude_of(p * dq) <= 2 * (s * b)
        }),
{
    let u = one() as int;
    let k = parts();
    let r = b * q;
    let ru = r * u;
    lemma_one_is_large();
    let uu = u * u;
    assert(r >= u * q && r >= 0 && ru >= 0 && uu > 0) by (nonlinear_arith)
        requires
            r == b * q,
            ru == r * u,
            uu == u * u,
            b >= u,
            q >= 0,
            u > 0,
    ;
    // the first voxel
    let d0 = f0 - p * q0;
    let m0 = magnitude_of(d0);
    lemma_abs_product(d0, uu, m0, uu);
    assert(0x400_0000_0000 * (m0 * uu) <= ru) by (nonlinear_arith)
        requires
            0x400_0000_0000 * (m0 * u) <= r,
            uu == u * u,
            ru == r * u,
            u > 0,
    ;
    let pq = p * q0;
    assert(((2 * pq) * u) * u == ((2 * f0) * u) * u - 2 * (d0 * uu)) by (nonlinear_arith)
        requires
            d0 == f0 - pq,
            uu == u * u,
    ;
    assert(0x400_0000_0000 * magnitude_of(((2 * pq) * u) * u - t0) <= 3 * ru);
    let mpq = magnitude_of(pq);
    assert(mpq * u <= 83 * r) by (nonlinear_arith)
        requires
            mpq <= magnitude_of(f0) + m0,
            magnitude_of(f0) * u <= 82 * r,
            0x400_0000_0000 * (m0 * u) <= r,
            m0 >= 0,
            u > 0,
            r >= 0,
    ;
    // the step
    let e = p * dq - s * v;
    let me = magnitude_of(e);
    let sb = s * b;
    lemma_abs_product(s, v, s, b);
    assert(sb >= 0) by (nonlinear_arith)
        requires
            sb == s * b,
            s >= 1,
            b >= 0,
    ;
    assert(magnitude_of(p * dq) <= 2 * sb);
    let c = (x * u) * u;
    assert(c >= 0) by (nonlinear_arith)
        requires
            c == (x * u) * u,
            x >= 0,
            u > 0,
    ;
    lemma_abs_product(e, c, me, c);
    assert(k * (me * c) <= 6 * ru) by (nonlinear_arith)
        requires
            k * me <= 6 * (s * b),
            c == (x * u) * u,
            sxu == s * (x * u),
            sxu <= q,
            r == b * q,
            ru == r * u,
            b >= 0,
            u > 0,
            c >= 0,
    {
        assert(k * (me * c) == (k * me) * c);
        assert((k * me) * c <= (6 * (s * b)) * c);
        assert((6 * (s * b)) * c == 6 * ((b * sxu) * u));
        assert(b * sxu <= b * q);
        assert((b * sxu) * u <= (b * q) * u);
    }
    let y = x * dq;
    let py = p * y;
    let vs = v * ((2 * sxu) * u);
    let (pd, sv) = (p * dq, s * v);
    assert(py == x * pd) by (nonlinear_arith)
        requires
            py == p * y,
            y == x * dq,
            pd == p * dq,
    ;
    assert(((2 * py) * u) * u == 2 * (pd * c)) by (nonlinear_arith)
        requires
            py == x * pd,
            c == (x * u) * u,
    ;
    assert(vs == 2 * (sv * c)) by (nonlinear_arith)
        requires
            sxu == s * (x * u),
            vs == v * ((2 * sxu) * u),
            sv == s * v,
            c == (x * u) * u,
    ;
    assert(e * c == pd * c - sv * c) by (nonlinear_arith)
        requires
            e == pd - sv,
    ;
    let line = q0 + y;
    let pl = p * line;
    assert(((2 * pl) * u) * u == ((2 * pq) * u) * u + ((2 * py) * u) * u) by (nonlinear_arith)
        requires
            pl == p * line,
            line == q0 + y,
            pq == p * q0,
            py == p * y,
    ;
    let el = ((2 * pl) * u) * u - want;
    assert(el == (((2 * pq) * u) * u - t0) + 2 * (e * c));
    assert(0x100_0000_0000 * magnitude_of(el) <= ru);
    // the rounded place
    let mpy = magnitude_of(py);
    let mpd = magnitude_of(p * dq);
    lemma_abs_product(x, p * dq, x, mpd);
    assert(mpy * u <= 2 * r) by (nonlinear_arith)
        requires
            mpy <= x * mpd,
            0 <= mpd <= 2 * (s * b),
            sxu == s * (x * u),
            sxu <= q,
            r == b * q,
            b >= 0,
            u > 0,
            x >= 0,
    {
        assert(x * mpd <= x * (2 * (s * b)));
        assert((x * (2 * (s * b))) * u == 2 * (b * sxu));
        assert(b * sxu <= b * q);
        assert(mpy * u <= (x * (2 * (s * b))) * u);
    }
    let w = a - line;
    let mw = magnitude_of(w);
    let (mq, my) = (magnitude_of(q0), magnitude_of(y));
    lemma_abs_product(p, q0, p, mq);
    lemma_abs_product(p, y, p, my);
    lemma_abs_product(p, w, p, mw);
    let pw = p * w;
    let mpw = p * mw;
    assert(k * mpw <= mpq + 4 * mpy + 4 * (k * p)) by (nonlinear_arith)
        requires
            k * mw <= mq + 4 * my + 4 * k,
            mpq == p * mq,
            mpy == p * my,
            mpw == p * mw,
            p >= 1,
    ;
    lemma_abs_product(pw, uu, mpw, uu);
    assert(k * (mpw * uu) <= 92 * ru) by (nonlinear_arith)
        requires
            k * mpw <= mpq + 4 * mpy + 4 * (k * p),
            mpq * u <= 83 * r,
            mpy * u <= 2 * r,
            0 < p <= 0x8000_0000,
            k == 0x20_0000_0000_0000,
            u >= 0x8000_0000_0000_0000_0000_0000_0000_0000,
            q >= u,
            r >= u * q,
            uu == u * u,
            ru == r * u,
    {
        assert(4 * (k * p) <= u);
        assert(u * u <= u * q);
        assert((4 * (k * p)) * u <= r);
        assert((k * mpw) * u <= (mpq + 4 * mpy + 4 * (k * p)) * u);
        assert((mpq + 4 * mpy + 4 * (k * p)) * u == mpq * u + 4 * (mpy * u) + (4 * (k * p)) * u);
        assert((k * mpw) * u <= 92 * r);
        assert(k * (mpw * uu) == ((k * mpw) * u) * u);
    }
    assert(((2 * (p * a)) * u) * u == ((2 * pl) * u) * u + 2 * (pw * uu)) by (nonlinear_arith)
        requires
            w == a - line,
            pw == p * w,
            pl == p * line,
            uu == u * u,
    ;
    let ea = ((2 * (p * a)) * u) * u - want;
    assert(ea == el + 2 * (pw * uu));
    assert(0x80_0000_0000 * magnitude_of(ea) <= ru);
}

} // verus!
