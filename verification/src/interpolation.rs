//! Trilinear interpolation: a rendered sample is the blend of the eight voxels around its place, each
//! by its share along the three axes.

use vstd::prelude::*;
use vstd::arithmetic::div_mod::lemma_fundamental_div_mod;
use vstd::arithmetic::power2::{lemma2_to64, lemma_pow2_adds, lemma_pow2_pos, pow2};
use crate::accuracy::{lemma_abs_product, lemma_one_is_large, lemma_sum_error};
use crate::binary32::{complement32, narrowed, narrowing_keeps_one, product32, sum32, unity};
use crate::binary64::{difference, fractions_stay_below_one, magnitude_of, one};
use crate::blending::{
    lemma_blended, lemma_blended_sample, lemma_rounded32, lemma_unity_is_large, lemma_weights,
    weighed, weights_add_up_to_one,
};
use crate::render::{
    along, cell, row_touched, sample_at, tap_x, tap_y, tap_z, taps, weights, RendererView, TapView,
};
use crate::sampling::{lemma_lies_in, lies_in, voxel_bytes};
use crate::track::half;
use crate::volume::{half32, nearest_sample};

verus! {

/// The sample of a channel in some bytes, the lower byte first.
pub open spec fn channel(b: Seq<u8>, c: int, bytes: nat) -> int {
    if bytes == 1 {
        b[c] as int
    } else {
        b[2 * c] + 256 * b[2 * c + 1]
    }
}

/// The sample of a voxel, or that of the fill outside the volume.
pub open spec fn voxel_sample(
    r: RendererView,
    vol: Seq<Seq<u8>>,
    p: int,
    c: int,
    x: int,
    y: int,
    z: int,
) -> int {
    let d = r.geoms[p].in_dims;
    if 0 <= x < d[0] && 0 <= y < d[1] && 0 <= z < d[2] {
        channel(voxel_bytes(r, vol, p, x, y, z), c, r.format.bytes)
    } else {
        channel(r.fill[p], c, r.format.bytes)
    }
}

/// What lies between two numbers, so far from the first one; a whole step counts `one()`.
pub open spec fn mixed(a: int, b: int, t: int) -> int {
    (one() - t) * a + t * b
}

/// The voxels `(x, y, z)` and `(x + 1, y, z)`, mixed.
pub open spec fn mixed_row(
    r: RendererView,
    vol: Seq<Seq<u8>>,
    p: int,
    c: int,
    x: int,
    y: int,
    z: int,
    t: int,
) -> int {
    mixed(voxel_sample(r, vol, p, c, x, y, z), voxel_sample(r, vol, p, c, x + 1, y, z), t)
}

/// The rows `y` and `y + 1`, mixed.
pub open spec fn mixed_frame(
    r: RendererView,
    vol: Seq<Seq<u8>>,
    p: int,
    c: int,
    x: int,
    y: int,
    z: int,
    t: int,
    s: int,
) -> int {
    mixed(mixed_row(r, vol, p, c, x, y, z, t), mixed_row(r, vol, p, c, x, y + 1, z, t), s)
}

/// A weight is a share of another one, but for rounding.
spec fn is_share(part: int, whole: int, share: int) -> bool {
    0x20_0000 * magnitude_of(part * one() - whole * share) <= whole * one() + 0x20_0000 * one()
}

/// The weights of a coordinate are its shares.
proof fn lemma_shares(q: int, k: int)
    requires
        lies_in(q, k),
    ensures
        ({
            let t = q - k * one();
            let (a, b) = weights(q);
            let u = one() as int;
            &&& 0 <= t < one()
            &&& 0x40_0000 * magnitude_of(a * u - unity() * (u - t)) <= unity() * u
            &&& 0x40_0000 * magnitude_of(b * u - unity() * t) <= unity() * u
            &&& a <= 2 * unity() && b <= unity()
        }),
{
    let u = one() as int;
    let w = unity() as int;
    lemma_one_is_large();
    lemma_unity_is_large();
    lemma_lies_in(q, k);
    assert((k + 1) * u == k * u + u) by (nonlinear_arith);
    let t = q - k * u;
    fractions_stay_below_one(q);
    let f = difference(q, k * u) as nat;
    lemma_sum_error(q, k * u);
    narrowing_keeps_one(f);
    let d = pow2(925);
    lemma_pow2_pos(925);
    lemma_pow2_adds(149, 925);
    assert(u == w * d);
    let b = narrowed(f);
    lemma_rounded32(f, d);
    let e = b * d - f;
    let me = magnitude_of(e);
    assert(0x100_0000 * d <= u) by (nonlinear_arith)
        requires
            u == w * d,
            w >= 0x100_0000,
            d > 0,
    ;
    assert(0x100_0000 * me <= u);
    let g = e + (f - t);
    assert(0x80_0000 * magnitude_of(g) <= u);
    assert(b * u - w * t == w * g) by (nonlinear_arith)
        requires
            u == w * d,
            g == b * d - t,
    ;
    let mg = magnitude_of(g);
    lemma_abs_product(w, g, w, mg);
    let wu = w * u;
    assert(0x80_0000 * (w * mg) <= wu) by (nonlinear_arith)
        requires
            0x80_0000 * mg <= u,
            wu == w * u,
            w > 0,
    ;
    lemma_rounded32((w - b) as nat, 1);
    let a = complement32(b);
    let h = a - (w - b);
    let mh = magnitude_of(h);
    assert(0x100_0000 * mh <= w);
    lemma_abs_product(h, u, mh, u);
    assert(0x100_0000 * (mh * u) <= wu) by (nonlinear_arith)
        requires
            0x100_0000 * mh <= w,
            wu == w * u,
            u > 0,
    ;
    assert(a * u - w * (u - t) == h * u - (b * u - w * t)) by (nonlinear_arith)
        requires
            h == a - (w - b),
    ;
}

/// A part of a weight by a weight of a coordinate is its share of it.
proof fn lemma_part(w: nat, a: nat, s: int)
    requires
        0 <= s <= one(),
        a <= 2 * unity(),
        0x40_0000 * magnitude_of(a * one() - unity() * s) <= unity() * one(),
    ensures
        is_share(product32(w, a) as int, w as int, s),
{
    let u = one() as int;
    let v = unity() as int;
    lemma_one_is_large();
    lemma_unity_is_large();
    lemma_rounded32(w * a, unity());
    let x = product32(w, a) as int;
    let wa = (w * a) as int;
    let e = x * v - wa;
    let me = magnitude_of(e);
    let wv = w * v;
    assert(wa <= 2 * wv) by (nonlinear_arith)
        requires
            wa == w * a,
            wv == w * v,
            a <= 2 * v,
    ;
    assert(0x80_0000 * me <= wv + 0x80_0000 * v);
    let g = a * u - v * s;
    let mg = magnitude_of(g);
    lemma_abs_product(w as int, g, w as int, mg);
    lemma_abs_product(e, u, me, u);
    let d = x * u - w * s;
    let md = magnitude_of(d);
    assert(d * v == e * u + w * g) by (nonlinear_arith)
        requires
            d == x * u - w * s,
            e == x * v - wa,
            wa == w * a,
            g == a * u - v * s,
    ;
    lemma_abs_product(d, v, md, v);
    assert(md * v <= me * u + w * mg);
    let wu = w * u;
    assert(0x20_0000 * (md * v) <= (wu + 0x20_0000 * u) * v) by (nonlinear_arith)
        requires
            md * v <= me * u + w * mg,
            0x80_0000 * me <= wv + 0x80_0000 * v,
            0x40_0000 * mg <= v * u,
            wv == w * v,
            wu == w * u,
            w >= 0,
            u > 0,
            v > 0,
            me >= 0,
            mg >= 0,
    {
        assert(0x80_0000 * (me * u) <= (wv + 0x80_0000 * v) * u);
        assert((wv + 0x80_0000 * v) * u == wu * v + 0x80_0000 * (v * u));
        assert(0x40_0000 * (w * mg) <= w * (v * u));
        assert(w * (v * u) == wu * v);
        assert((wu + 0x20_0000 * u) * v == wu * v + 0x20_0000 * (v * u));
        assert(wu * v >= 0);
    }
    assert(0x20_0000 * md <= wu + 0x20_0000 * u) by (nonlinear_arith)
        requires
            0x20_0000 * (md * v) <= (wu + 0x20_0000 * u) * v,
            v > 0,
    ;
}

#[verifier::rlimit(40)]
proof fn lemma_weighed_of_both(
    r: RendererView,
    vol: Seq<Seq<u8>>,
    p: int,
    s: Seq<TapView>,
    t: Seq<TapView>,
    c: int,
)
    ensures
        weighed(r, vol, p, s + t, c) == weighed(r, vol, p, s, c) + weighed(r, vol, p, t, c),
    decreases t.len(),
{
    if t.len() == 0 {
        assert(s + t =~= s);
    } else {
        assert((s + t).drop_last() =~= s + t.drop_last());
        lemma_weighed_of_both(r, vol, p, s, t.drop_last(), c);
    }
}

/// The bytes of a pixel hold a channel where it is looked for.
proof fn lemma_channel(b: Seq<u8>, c: int, bytes: nat)
    requires
        1 <= bytes <= 2,
    ensures
        sample_at(b, c * bytes, bytes) == channel(b, c, bytes),
        0 <= channel(b, c, bytes) <= 65535,
        bytes == 1 ==> channel(b, c, bytes) <= 255,
{
    if bytes == 2 {
        assert(c * bytes == 2 * c);
    } else {
        assert(c * bytes == c);
    }
}

/// A voxel in a row, weighted.
#[verifier::rlimit(40)]
proof fn lemma_weighed_x(
    r: RendererView,
    vol: Seq<Seq<u8>>,
    p: int,
    c: int,
    x: int,
    y: int,
    z: int,
    w: nat,
)
    requires
        r.wf(),
        0 <= p < r.format.planes.len(),
        0 <= z < r.geoms[p].in_dims[2],
    ensures
        weighed(r, vol, p, tap_x(x, y, z, w, r.geoms[p].in_dims), c) == w * voxel_sample(
            r,
            vol,
            p,
            c,
            x,
            y,
            z,
        ),
        0 <= voxel_sample(r, vol, p, c, x, y, z) <= 65535,
{
    reveal_with_fuel(weighed, 2);
    let d = r.geoms[p].in_dims;
    let t = tap_x(x, y, z, w, d);
    assert(r.in_planes[p].w == d[0]);
    lemma_channel(voxel_bytes(r, vol, p, x, y, z), c, r.format.bytes);
    lemma_channel(r.fill[p], c, r.format.bytes);
    if w != 0 {
        assert(t.drop_last() =~= Seq::<TapView>::empty());
        assert(weighed(r, vol, p, t, c) == w * r.tap_sample(vol, p, t[0], c));
    } else {
        let s = voxel_sample(r, vol, p, c, x, y, z);
        assert(0 * s == 0);
    }
}

/// Two numbers by weights that are shares of a weight: near the mix of them by that weight.
proof fn lemma_mix(m: int, n: int, w: int, a: int, b: int, t: int, most: int)
    requires
        0 <= t <= one(),
        w >= 0,
        0 <= a <= most,
        0 <= b <= most,
        is_share(m, w, one() - t),
        is_share(n, w, t),
    ensures
        0x20_0000 * magnitude_of((m * a + n * b) * one() - w * mixed(a, b, t)) <= (2 * most) * (w
            * one() + 0x20_0000 * one()),
        0 <= mixed(a, b, t) <= most * one(),
{
    let u = one() as int;
    let s = u - t;
    let (d, e) = (m * u - w * s, n * u - w * t);
    let (md, me) = (magnitude_of(d), magnitude_of(e));
    let k = w * u + 0x20_0000 * u;
    lemma_abs_product(d, a, md, a);
    lemma_abs_product(e, b, me, b);
    assert(d * a == (m * a) * u - w * (s * a)) by (nonlinear_arith)
        requires
            d == m * u - w * s,
    ;
    assert(e * b == (n * b) * u - w * (t * b)) by (nonlinear_arith)
        requires
            e == n * u - w * t,
    ;
    let (ma, nb, sa, tb) = (m * a, n * b, s * a, t * b);
    assert((ma + nb) * u == ma * u + nb * u) by (nonlinear_arith);
    assert(w * (sa + tb) == w * sa + w * tb) by (nonlinear_arith);
    assert(0x20_0000 * (md * a) <= most * k && 0x20_0000 * (me * b) <= most * k)
        by (nonlinear_arith)
        requires
            0x20_0000 * md <= k,
            0x20_0000 * me <= k,
            0 <= a <= most,
            0 <= b <= most,
            md >= 0,
            me >= 0,
    {
        assert(0x20_0000 * (md * a) <= k * a);
        assert(k * a <= k * most);
        assert(0x20_0000 * (me * b) <= k * b);
        assert(k * b <= k * most);
    }
    assert((2 * most) * k == 2 * (most * k)) by (nonlinear_arith);
    assert(0 <= s * a + t * b <= most * u) by (nonlinear_arith)
        requires
            s == u - t,
            0 <= t <= u,
            0 <= a <= most,
            0 <= b <= most,
    {
        assert(s * a <= s * most && t * b <= t * most);
        assert(s * most + t * most == most * u);
        assert(s * a >= 0 && t * b >= 0);
    }
}

/// Two voxels of a row, weighted, against their mix.
#[verifier::rlimit(40)]
proof fn lemma_weighed_y(
    r: RendererView,
    vol: Seq<Seq<u8>>,
    p: int,
    c: int,
    x: int,
    y: int,
    z: int,
    w: nat,
    q: int,
    k: int,
)
    requires
        r.wf(),
        0 <= p < r.format.planes.len(),
        0 <= z < r.geoms[p].in_dims[2],
        lies_in(q, k),
    ensures
        ({
            let t = q - k * one();
            let n = weighed(r, vol, p, tap_y(x, y, z, w, weights(q), r.geoms[p].in_dims), c);
            let row = mixed_row(r, vol, p, c, x, y, z, t);
            &&& 0x20_0000 * magnitude_of(n * one() - w * row) <= (2 * 65535) * (w * one()
                + 0x20_0000 * one())
            &&& 0 <= row <= 65535 * one()
        }),
{
    let d = r.geoms[p].in_dims;
    let (a, b) = weights(q);
    let t = q - k * one();
    lemma_shares(q, k);
    let (f, g) = (product32(w, a), product32(w, b));
    lemma_part(w, a, one() - t);
    lemma_part(w, b, t);
    lemma_weighed_x(r, vol, p, c, x, y, z, f);
    lemma_weighed_x(r, vol, p, c, x + 1, y, z, g);
    let (s0, s1) = (
        voxel_sample(r, vol, p, c, x, y, z),
        voxel_sample(r, vol, p, c, x + 1, y, z),
    );
    lemma_mix(f as int, g as int, w as int, s0, s1, t, 65535);
    if w != 0 {
        lemma_weighed_of_both(r, vol, p, tap_x(x, y, z, f, d), tap_x(x + 1, y, z, g, d), c);
    } else {
        assert(tap_y(x, y, z, w, weights(q), d).len() == 0);
        let row = mixed_row(r, vol, p, c, x, y, z, t);
        assert(0 * row == 0);
        lemma_one_is_large();
        assert(0 * one() == 0);
    }
}

/// How much two shares of a weight are together.
proof fn lemma_both_shares(m: int, n: int, w: int, t: int)
    requires
        0 <= t <= one(),
        w >= 0,
        is_share(m, w, one() - t),
        is_share(n, w, t),
    ensures
        0x10_0000 * ((m + n) * one()) <= 0x10_0001 * (w * one()) + 0x20_0000 * one(),
{
    let u = one() as int;
    assert((m + n) * u == m * u + n * u) by (nonlinear_arith);
    assert(w * (u - t) + w * t == w * u) by (nonlinear_arith);
}

/// Outside the volume everything is the fill.
#[verifier::rlimit(40)]
proof fn lemma_all_fill(
    r: RendererView,
    vol: Seq<Seq<u8>>,
    p: int,
    c: int,
    x: int,
    y: int,
    z: int,
    t: int,
    s: int,
)
    requires
        !(0 <= z < r.geoms[p].in_dims[2]),
    ensures
        mixed_frame(r, vol, p, c, x, y, z, t, s) == (channel(r.fill[p], c, r.format.bytes) * one())
            * one(),
{
    let u = one() as int;
    let f = channel(r.fill[p], c, r.format.bytes);
    assert(mixed(f, f, t) == f * u) by (nonlinear_arith)
        requires
            mixed(f, f, t) == (u - t) * f + t * f,
    ;
    let g = f * u;
    assert(mixed(g, g, s) == g * u) by (nonlinear_arith)
        requires
            mixed(g, g, s) == (u - s) * g + s * g,
    ;
}

/// The voxels of a frame, weighted, against their mix.
#[verifier::rlimit(40)]
proof fn lemma_weighed_z(
    r: RendererView,
    vol: Seq<Seq<u8>>,
    p: int,
    c: int,
    x: int,
    y: int,
    z: int,
    w: nat,
    q: int,
    k: int,
    v: int,
    l: int,
)
    requires
        r.wf(),
        0 <= p < r.format.planes.len(),
        lies_in(q, k),
        lies_in(v, l),
    ensures
        ({
            let (t, s) = (q - k * one(), v - l * one());
            let n = weighed(
                r,
                vol,
                p,
                tap_z(x, y, z, w, weights(q), weights(v), r.geoms[p].in_dims),
                c,
            );
            let frame = mixed_frame(r, vol, p, c, x, y, z, t, s);
            let uu = one() * one();
            &&& 0x20_0000 * magnitude_of(n * uu - w * frame) <= (2 * 65535) * ((3 * w + 0x80_0000)
                * uu)
            &&& 0 <= frame <= 65535 * uu
        }),
{
    let d = r.geoms[p].in_dims;
    let u = one() as int;
    let uu = u * u;
    let wx = weights(q);
    let (a, b) = weights(v);
    let (t, s) = (q - k * u, v - l * u);
    lemma_one_is_large();
    let taps_here = tap_z(x, y, z, w, wx, weights(v), d);
    let n = weighed(r, vol, p, taps_here, c);
    lemma_shares(q, k);
    lemma_shares(v, l);
    assert(uu > 0) by (nonlinear_arith)
        requires
            uu == u * u,
            u > 0,
    ;
    if !(0 <= z < d[2]) {
        lemma_all_fill(r, vol, p, c, x, y, z, t, s);
        lemma_channel(r.fill[p], c, r.format.bytes);
        let f = channel(r.fill[p], c, r.format.bytes);
        reveal_with_fuel(weighed, 2);
        if w != 0 {
            assert(taps_here.drop_last() =~= Seq::<TapView>::empty());
            assert(taps_here[0] == TapView { weight: w, voxel: None });
            assert(n == w * r.tap_sample(vol, p, taps_here[0], c));
        } else {
            assert(0 * f == 0);
            assert(taps_here.len() == 0);
        }
        assert(n == w * f);
        let frame = (f * u) * u;
        assert(n * uu == w * frame && 0 <= frame <= 65535 * uu) by (nonlinear_arith)
            requires
                n == w * f,
                frame == (f * u) * u,
                uu == u * u,
                0 <= f <= 65535,
                uu > 0,
        ;
        assert((3 * w + 0x80_0000) * uu >= 0) by (nonlinear_arith)
            requires
                w >= 0,
                uu > 0,
        ;
    } else {
        let (f, g) = (product32(w, a), product32(w, b));
        lemma_part(w, a, u - s);
        lemma_part(w, b, s);
        lemma_weighed_y(r, vol, p, c, x, y, z, f, q, k);
        lemma_weighed_y(r, vol, p, c, x, y + 1, z, g, q, k);
        let (x0, x1) = (
            mixed_row(r, vol, p, c, x, y, z, t),
            mixed_row(r, vol, p, c, x, y + 1, z, t),
        );
        lemma_mix(f as int, g as int, w as int, x0, x1, s, 65535 * u);
        lemma_both_shares(f as int, g as int, w as int, s);
        let (t0, t1) = (tap_y(x, y, z, f, wx, d), tap_y(x, y + 1, z, g, wx, d));
        let (n0, n1) = (weighed(r, vol, p, t0, c), weighed(r, vol, p, t1, c));
        if w != 0 {
            lemma_weighed_of_both(r, vol, p, t0, t1, c);
            assert(n == n0 + n1);
        } else {
            assert(taps_here.len() == 0);
            lemma_no_weight(a);
            lemma_no_weight(b);
            assert(n == n0 + n1);
        }
        lemma_frame_numbers(n0 as int, n1 as int, f as int, g as int, w as int, x0, x1, mixed(x0, x1, s), u);
    }
}

/// No part of no weight is any.
proof fn lemma_no_weight(a: nat)
    ensures
        product32(0, a) == 0,
{
    lemma_unity_is_large();
    lemma2_to64();
    assert(0 * a == 0);
    let v = unity();
    assert(pow2(24) * v > 0) by (nonlinear_arith)
        requires
            pow2(24) > 0,
            v > 0,
    ;
    assert(0nat / v == 0) by (nonlinear_arith)
        requires
            v > 0,
    ;
    lemma_fundamental_div_mod(0, v as int);
}

/// The arithmetic of a frame, in plain numbers.
proof fn lemma_frame_numbers(
    n0: int,
    n1: int,
    f: int,
    g: int,
    w: int,
    x0: int,
    x1: int,
    y: int,
    u: int,
)
    requires
        u > 0,
        w >= 0,
        f >= 0,
        g >= 0,
        0x20_0000 * magnitude_of(n0 * u - f * x0) <= (2 * 65535) * (f * u + 0x20_0000 * u),
        0x20_0000 * magnitude_of(n1 * u - g * x1) <= (2 * 65535) * (g * u + 0x20_0000 * u),
        0x20_0000 * magnitude_of((f * x0 + g * x1) * u - w * y) <= (2 * (65535 * u)) * (w * u
            + 0x20_0000 * u),
        0x10_0000 * ((f + g) * u) <= 0x10_0001 * (w * u) + 0x20_0000 * u,
        0 <= y <= (65535 * u) * u,
    ensures
        0x20_0000 * magnitude_of((n0 + n1) * (u * u) - w * y) <= (2 * 65535) * ((3 * w + 0x80_0000)
            * (u * u)),
        0 <= y <= 65535 * (u * u),
{
    let uu = u * u;
    let (d0, d1) = (n0 * u - f * x0, n1 * u - g * x1);
    let e = (f * x0 + g * x1) * u - w * y;
    let (m0, m1) = (magnitude_of(d0), magnitude_of(d1));
    lemma_abs_product(d0, u, m0, u);
    lemma_abs_product(d1, u, m1, u);
    let (fx, gx) = (f * x0, g * x1);
    assert((n0 + n1) * uu - w * y == d0 * u + d1 * u + e) by (nonlinear_arith)
        requires
            uu == u * u,
            d0 == n0 * u - fx,
            d1 == n1 * u - gx,
            e == (fx + gx) * u - w * y,
    ;
    let (fu, gu, wu) = (f * u, g * u, w * u);
    let h = fu + gu + 0x40_0000 * u;
    assert(0x20_0000 * (m0 * u) + 0x20_0000 * (m1 * u) <= (2 * 65535) * (h * u)) by (nonlinear_arith)
        requires
            0x20_0000 * m0 <= (2 * 65535) * (fu + 0x20_0000 * u),
            0x20_0000 * m1 <= (2 * 65535) * (gu + 0x20_0000 * u),
            h == fu + gu + 0x40_0000 * u,
            u > 0,
    ;
    assert((f + g) * u == fu + gu) by (nonlinear_arith)
        requires
            fu == f * u,
            gu == g * u,
    ;
    assert(wu >= 0) by (nonlinear_arith)
        requires
            wu == w * u,
            w >= 0,
            u > 0,
    ;
    assert(h <= 2 * wu + 0x50_0000 * u);
    let i = wu + 0x20_0000 * u;
    assert((2 * (65535 * u)) * i == (2 * 65535) * (i * u)) by (nonlinear_arith);
    assert(h * u + i * u <= (3 * w + 0x80_0000) * uu) by (nonlinear_arith)
        requires
            h <= 2 * wu + 0x50_0000 * u,
            i == wu + 0x20_0000 * u,
            wu == w * u,
            uu == u * u,
            u > 0,
    {
        assert((h + i) * u <= (3 * wu + 0x70_0000 * u) * u);
        assert((3 * wu + 0x70_0000 * u) * u == (3 * w + 0x70_0000) * uu);
        assert((h + i) * u == h * u + i * u);
        assert(uu >= 0);
        assert((3 * w + 0x70_0000) * uu <= (3 * w + 0x80_0000) * uu);
    }
    assert((65535 * u) * u == 65535 * uu) by (nonlinear_arith)
        requires
            uu == u * u,
    ;
}

/// The eight voxels around a place, weighted, against their mix.
#[verifier::rlimit(40)]
proof fn lemma_weighed_all(
    r: RendererView,
    vol: Seq<Seq<u8>>,
    p: int,
    c: int,
    h: Seq<int>,
    k: Seq<int>,
)
    requires
        r.wf(),
        0 <= p < r.format.planes.len(),
        lies_in(h[0], k[0]),
        lies_in(h[1], k[1]),
        lies_in(h[2], k[2]),
        i64::MIN <= k[0] <= i64::MAX,
        i64::MIN <= k[1] <= i64::MAX,
        i64::MIN <= k[2] <= i64::MAX,
    ensures
        ({
            let n = weighed(r, vol, p, taps(h, r.geoms[p].in_dims), c);
            let mix = trilinear(r, vol, p, c, h, k);
            let w = (one() * one()) * one();
            &&& 4 * magnitude_of(n * w - unity() * mix) <= unity() * w
            &&& 0 <= mix <= 65535 * w
        }),
{
    let d = r.geoms[p].in_dims;
    let u = one() as int;
    let v = unity() as int;
    lemma_one_is_large();
    lemma_unity_is_large();
    lemma_lies_in(h[0], k[0]);
    lemma_lies_in(h[1], k[1]);
    lemma_lies_in(h[2], k[2]);
    let (t, s, o) = (h[0] - k[0] * u, h[1] - k[1] * u, h[2] - k[2] * u);
    let (a, b) = weights(h[2]);
    lemma_shares(h[2], k[2]);
    lemma_weights(h[2]);
    let (wx, wy) = (weights(h[0]), weights(h[1]));
    let (x, y, z) = (k[0], k[1], k[2]);
    lemma_weighed_z(r, vol, p, c, x, y, z, a, h[0], k[0], h[1], k[1]);
    lemma_weighed_z(r, vol, p, c, x, y, z + 1, b, h[0], k[0], h[1], k[1]);
    let (y0, y1) = (
        mixed_frame(r, vol, p, c, x, y, z, t, s),
        mixed_frame(r, vol, p, c, x, y, z + 1, t, s),
    );
    let (t0, t1) = (tap_z(x, y, z, a, wx, wy, d), tap_z(x, y, z + 1, b, wx, wy, d));
    lemma_weighed_of_both(r, vol, p, t0, t1, c);
    let (n0, n1) = (weighed(r, vol, p, t0, c) as int, weighed(r, vol, p, t1, c) as int);
    let uu = u * u;
    let vu = v * u;
    assert(uu > 0) by (nonlinear_arith)
        requires
            uu == u * u,
            u > 0,
    ;
    assert(vu >= 0) by (nonlinear_arith)
        requires
            vu == v * u,
            v > 0,
            u > 0,
    ;
    lemma_mix(a as int, b as int, v, y0, y1, o, 65535 * uu);
    lemma_volume_numbers(n0, n1, a as int, b as int, y0, y1, mixed(y0, y1, o), uu, u, v);
}

/// The arithmetic of a volume, in plain numbers.
proof fn lemma_volume_numbers(
    n0: int,
    n1: int,
    a: int,
    b: int,
    y0: int,
    y1: int,
    mix: int,
    uu: int,
    u: int,
    v: int,
)
    requires
        u > 0,
        uu > 0,
        v >= 0x1_0000_0000_0000_0000,
        a >= 0,
        b >= 0,
        0x100_0000 * magnitude_of(a + b - v) <= v,
        0x20_0000 * magnitude_of(n0 * uu - a * y0) <= (2 * 65535) * ((3 * a + 0x80_0000) * uu),
        0x20_0000 * magnitude_of(n1 * uu - b * y1) <= (2 * 65535) * ((3 * b + 0x80_0000) * uu),
        0x20_0000 * magnitude_of((a * y0 + b * y1) * u - v * mix) <= (2 * (65535 * uu)) * (v * u
            + 0x20_0000 * u),
        0 <= mix <= (65535 * uu) * u,
    ensures
        4 * magnitude_of((n0 + n1) * (uu * u) - v * mix) <= v * (uu * u),
        0 <= mix <= 65535 * (uu * u),
{
    let w = uu * u;
    let (d0, d1) = (n0 * uu - a * y0, n1 * uu - b * y1);
    let (ay, by) = (a * y0, b * y1);
    let e = (ay + by) * u - v * mix;
    let (m0, m1) = (magnitude_of(d0), magnitude_of(d1));
    lemma_abs_product(d0, u, m0, u);
    lemma_abs_product(d1, u, m1, u);
    assert((n0 + n1) * w - v * mix == d0 * u + d1 * u + e) by (nonlinear_arith)
        requires
            w == uu * u,
            d0 == n0 * uu - ay,
            d1 == n1 * uu - by,
            e == (ay + by) * u - v * mix,
    ;
    assert(w > 0) by (nonlinear_arith)
        requires
            w == uu * u,
            uu > 0,
            u > 0,
    ;
    let h = 3 * a + 3 * b + 0x100_0000;
    assert(0x20_0000 * (m0 * u) + 0x20_0000 * (m1 * u) <= (2 * 65535) * (h * w)) by (nonlinear_arith)
        requires
            0x20_0000 * m0 <= (2 * 65535) * ((3 * a + 0x80_0000) * uu),
            0x20_0000 * m1 <= (2 * 65535) * ((3 * b + 0x80_0000) * uu),
            h == 3 * a + 3 * b + 0x100_0000,
            w == uu * u,
            u > 0,
    {
        let (f, g) = ((3 * a + 0x80_0000) * uu, (3 * b + 0x80_0000) * uu);
        assert(0x20_0000 * (m0 * u) <= ((2 * 65535) * f) * u);
        assert(0x20_0000 * (m1 * u) <= ((2 * 65535) * g) * u);
        assert(((2 * 65535) * f) * u + ((2 * 65535) * g) * u == (2 * 65535) * ((f + g) * u));
        assert(f + g == h * uu);
        assert((h * uu) * u == h * w);
    }
    let i = v + 0x20_0000;
    assert((2 * (65535 * uu)) * (v * u + 0x20_0000 * u) == (2 * 65535) * (i * w)) by (nonlinear_arith)
        requires
            i == v + 0x20_0000,
            w == uu * u,
    ;
    let j = h + i;
    assert(1_000_000 * j <= 4_000_001 * v);
    assert(h * w + i * w == j * w) by (nonlinear_arith)
        requires
            j == h + i,
    ;
    let vw = v * w;
    assert(1_000_000 * (j * w) <= 4_000_001 * vw) by (nonlinear_arith)
        requires
            1_000_000 * j <= 4_000_001 * v,
            vw == v * w,
            w > 0,
    ;
    assert(vw > 0) by (nonlinear_arith)
        requires
            vw == v * w,
            v > 0,
            w > 0,
    ;
    assert((65535 * uu) * u == 65535 * w) by (nonlinear_arith)
        requires
            w == uu * u,
    ;
}

/// The mix of the eight voxels around a place, which lies in cell `k`: along each axis by how far into
/// the cell the place lies.
pub open spec fn trilinear(
    r: RendererView,
    vol: Seq<Seq<u8>>,
    p: int,
    c: int,
    h: Seq<int>,
    k: Seq<int>,
) -> int {
    let (t, s, o) = (h[0] - k[0] * one(), h[1] - k[1] * one(), h[2] - k[2] * one());
    mixed(
        mixed_frame(r, vol, p, c, k[0], k[1], k[2], t, s),
        mixed_frame(r, vol, p, c, k[0], k[1], k[2] + 1, t, s),
        o,
    )
}

/// A number near another one is stored as a sample near that.
proof fn lemma_stored_near(b: nat, n: int, mix: int, w: int, top: nat)
    requires
        w > 0,
        top <= 65535,
        8 * magnitude_of(b - n) <= unity(),
        4 * magnitude_of(n * w - unity() * mix) <= unity() * w,
        0 <= mix <= top * w,
    ensures
        magnitude_of(nearest_sample(b, top) * w - mix) < w,
{
    let v = unity() as int;
    lemma_unity_is_large();
    lemma_rounded32(b + half32(), 1);
    let s = sum32(b, half32()) as int;
    let i = s / v;
    lemma_fundamental_div_mod(s, v);
    let iv = i * v;
    assert(v * i == iv) by (nonlinear_arith)
        requires
            iv == i * v,
    ;
    assert(iv <= s < iv + v);
    // the number is not larger than the samples
    let (nw, vm) = (n * w, v * mix);
    let vw = v * w;
    assert(vm <= 65535 * vw) by (nonlinear_arith)
        requires
            vm == v * mix,
            vw == v * w,
            mix <= top * w,
            top <= 65535,
            v > 0,
            w > 0,
    {
        assert(v * mix <= v * (top * w));
        assert(v * (top * w) == top * vw);
        assert(top * vw <= 65535 * vw);
    }
    assert(4 * nw <= 4 * vm + vw);
    assert(n <= 65536 * v) by {
        if n > 65536 * v {
            assert(nw >= 65536 * vw) by (nonlinear_arith)
                requires
                    nw == n * w,
                    n > 65536 * v,
                    vw == v * w,
                    w > 0,
            ;
            assert(vw > 0) by (nonlinear_arith)
                requires
                    vw == v * w,
                    v > 0,
                    w > 0,
            ;
        }
    }
    assert(b <= 65537 * v);
    let e = s - (b + half32());
    assert(128 * magnitude_of(e) <= v);
    let d = iv - n;
    assert(128 * magnitude_of(d) <= 81 * v);
    let dw = d * w;
    let md = magnitude_of(d);
    lemma_abs_product(d, w, md, w);
    assert(iv * w - nw == dw) by (nonlinear_arith)
        requires
            d == iv - n,
            nw == n * w,
            dw == d * w,
    ;
    assert(128 * (md * w) <= 81 * vw) by (nonlinear_arith)
        requires
            128 * md <= 81 * v,
            vw == v * w,
            w > 0,
    ;
    assert(vw > 0) by (nonlinear_arith)
        requires
            vw == v * w,
            v > 0,
            w > 0,
    ;
    let g = i * w - mix;
    assert(g * v == iv * w - vm) by (nonlinear_arith)
        requires
            g == i * w - mix,
            iv == i * v,
            vm == v * mix,
    ;
    assert(magnitude_of(g * v) < vw);
    let mg = magnitude_of(g);
    lemma_abs_product(g, v, mg, v);
    assert(mg < w) by (nonlinear_arith)
        requires
            mg * v < v * w,
            v > 0,
    ;
    assert(i <= top) by (nonlinear_arith)
        requires
            i * w - mix < w,
            mix <= top * w,
            w > 0,
    ;
}

/// With trilinear interpolation a pixel that is sampled is the mix of the eight voxels around its
/// place, less than one step of a sample away from it: the place lies half a voxel before that of the
/// sample, in cell `k`, and each voxel counts by its share along the three axes. The fill stands in
/// for voxels outside the volume.
#[verifier::rlimit(40)]
pub proof fn trilinear_pixels_mix_the_voxels_around_them(
    r: RendererView,
    vol: Seq<Seq<u8>>,
    p: int,
    x: nat,
    y: nat,
    z: nat,
    c: int,
    h: Seq<int>,
    k: Seq<int>,
)
    requires
        r.wf(),
        r.interp is Trilinear,
        0 <= p < r.format.planes.len(),
        0 <= c < r.format.planes[p].channels,
        h.len() == 3,
        k.len() == 3,
        forall|i: int|
            0 <= i < 3 ==> {
                &&& #[trigger] h[i] == difference(
                    along(r.row_start(p, y, z)[i], r.geoms[p].step_x()[i], x),
                    half(),
                )
                &&& lies_in(h[i], k[i])
                &&& i64::MIN <= k[i] <= i64::MAX
            },
        row_touched(r.geoms[p], r.row_start(p, y, z), r.geoms[p].step_x(), half()) matches Some(
            (x0, x1),
        ) && x0 <= x < x1,
    ensures
        ({
            let w = (one() * one()) * one();
            magnitude_of(
                channel(r.pixel(vol, p, x, y, z), c, r.format.bytes) * w - trilinear(
                    r,
                    vol,
                    p,
                    c,
                    h,
                    k,
                ),
            ) < w
        }),
{
    let d = r.geoms[p].in_dims;
    let q0 = r.row_start(p, y, z);
    let dq = r.geoms[p].step_x();
    let q = seq![along(q0[0], dq[0], x), along(q0[1], dq[1], x), along(q0[2], dq[2], x)];
    let near = seq![
        difference(q[0], half()),
        difference(q[1], half()),
        difference(q[2], half()),
    ];
    assert(h[0] == near[0] && h[1] == near[1] && h[2] == near[2]);
    assert(h =~= near);
    let t = taps(h, d);
    let n = r.format.planes[p].channels;
    let b = r.format.bytes;
    let top: nat = if b == 1 {
        255
    } else {
        65535
    };
    assert(r.pixel(vol, p, x, y, z) == r.blended_bytes(vol, p, t, n));
    lemma_blended_sample(r, vol, p, t, n, c, top);
    lemma_channel(r.blended_bytes(vol, p, t, n), c, b);
    lemma_weighed_all(r, vol, p, c, h, k);
    weights_add_up_to_one(h, d);
    lemma_unity_is_large();
    assert forall|i: int| 0 <= i < t.len() implies 0 <= #[trigger] r.tap_sample(vol, p, t[i], c)
        <= 65535 by {
        lemma_channel(r.voxel_or_fill(vol, p, t[i].voxel), c, b);
    }
    lemma_blended(r, vol, p, t, c);
    let v = unity();
    let m = t.len();
    assert(m * v <= 8 * v) by (nonlinear_arith)
        requires
            m <= 8,
    ;
    let u = one();
    let w = (u * u) * u;
    lemma_pow2_pos(1074);
    assert(w > 0) by (nonlinear_arith)
        requires
            w == (u * u) * u,
            u > 0,
    ;
    let mix = trilinear(r, vol, p, c, h, k);
    if b == 1 {
        lemma_small_mix(r, vol, p, c, h, k);
    }
    lemma_stored_near(
        r.blended(vol, p, t, c),
        weighed(r, vol, p, t, c) as int,
        mix,
        w as int,
        top,
    );
}

/// A mix of samples of one byte is no larger than those.
#[verifier::rlimit(40)]
proof fn lemma_small_mix(
    r: RendererView,
    vol: Seq<Seq<u8>>,
    p: int,
    c: int,
    h: Seq<int>,
    k: Seq<int>,
)
    requires
        r.format.bytes == 1,
        lies_in(h[0], k[0]),
        lies_in(h[1], k[1]),
        lies_in(h[2], k[2]),
    ensures
        trilinear(r, vol, p, c, h, k) <= 255 * ((one() * one()) * one()),
{
    let u = one() as int;
    let (t, s, o) = (h[0] - k[0] * u, h[1] - k[1] * u, h[2] - k[2] * u);
    lemma_shares(h[0], k[0]);
    lemma_shares(h[1], k[1]);
    lemma_shares(h[2], k[2]);
    let (x, y, z) = (k[0], k[1], k[2]);
    lemma_small_frame(r, vol, p, c, x, y, z, t, s);
    lemma_small_frame(r, vol, p, c, x, y, z + 1, t, s);
    let uu = u * u;
    lemma_mixed_between(
        mixed_frame(r, vol, p, c, x, y, z, t, s),
        mixed_frame(r, vol, p, c, x, y, z + 1, t, s),
        o,
        255 * uu,
    );
    assert((255 * uu) * u == 255 * (uu * u)) by (nonlinear_arith);
}

#[verifier::rlimit(40)]
proof fn lemma_small_frame(
    r: RendererView,
    vol: Seq<Seq<u8>>,
    p: int,
    c: int,
    x: int,
    y: int,
    z: int,
    t: int,
    s: int,
)
    requires
        r.format.bytes == 1,
        0 <= t <= one(),
        0 <= s <= one(),
    ensures
        mixed_frame(r, vol, p, c, x, y, z, t, s) <= 255 * (one() * one()),
{
    let u = one() as int;
    lemma_mixed_between(
        voxel_sample(r, vol, p, c, x, y, z),
        voxel_sample(r, vol, p, c, x + 1, y, z),
        t,
        255,
    );
    lemma_mixed_between(
        voxel_sample(r, vol, p, c, x, y + 1, z),
        voxel_sample(r, vol, p, c, x + 1, y + 1, z),
        t,
        255,
    );
    lemma_mixed_between(
        mixed_row(r, vol, p, c, x, y, z, t),
        mixed_row(r, vol, p, c, x, y + 1, z, t),
        s,
        255 * u,
    );
    assert((255 * u) * u == 255 * (u * u)) by (nonlinear_arith);
}

proof fn lemma_mixed_between(a: int, b: int, t: int, most: int)
    requires
        0 <= t <= one(),
        a <= most,
        b <= most,
    ensures
        mixed(a, b, t) <= most * one(),
{
    let u = one() as int;
    let s = u - t;
    assert(s * a <= s * most && t * b <= t * most) by (nonlinear_arith)
        requires
            s >= 0,
            t >= 0,
            a <= most,
            b <= most,
    ;
    assert(s * most + t * most == most * u) by (nonlinear_arith)
        requires
            s == u - t,
    ;
}

} // verus!
