//! The planes of a frame belong together: a subsampled plane is sampled at the same places as a plane
//! with every pixel.

use vstd::prelude::*;
use vstd::arithmetic::power2::{lemma2_to64, lemma_pow2_adds, lemma_pow2_pos, pow2};
use crate::binary64::{
    difference, fraction, halves_are_exact, one, product, quotient, sum,
};
use crate::geometry::dot;
use crate::grain::{
    grained, grains, lemma_finer, lemma_grained_rounding, lemma_grained_sum, lemma_grains,
    lemma_is_grained, lemma_product, lemma_quotient, lemma_scaled_product, lemma_scaled_rounding,
    lemma_scaled_sum,
};
use crate::mapping::{plane_mapping, steps};
use crate::rounding::rounding_is_idempotent;
use crate::track::{half, half_side, TrackView};

verus! {

/// A multiple of 2^-200: no matrix of a rotation, no path of a window and no coordinate of a voxel is
/// any finer.
pub open spec fn plain(v: int) -> bool {
    grained(v, 874)
}

/// Every entry is a multiple of 2^-200.
pub open spec fn plain_matrix(g: Seq<Seq<int>>) -> bool {
    forall|i: int, j: int| 0 <= i < 3 && 0 <= j < 3 ==> plain(#[trigger] g[i][j])
}

/// Every number of a path is a multiple of 2^-200.
pub open spec fn plain_track(t: TrackView) -> bool {
    &&& plain(t.pos[0]) && plain(t.pos[1])
    &&& plain(t.vel[0]) && plain(t.vel[1])
    &&& plain(t.zc)
}

/// The powers of two by which a plane is subsampled along each axis.
pub open spec fn levels(sx: nat, sy: nat) -> Seq<nat> {
    seq![sx, sy, 0]
}

/// The pixel at the centre of a sample: where the sample `x` of a plane that is subsampled by `2^s`
/// lies in the frame.
pub open spec fn pixel_at(x: int, s: nat) -> int {
    pow2(s) * x + (pow2(s) - 1) * pow2(1073)
}

/// Half a side is a multiple of one half.
pub proof fn lemma_half_side(d: nat)
    ensures
        grained(half_side(d), 1073),
{
    let u = one() as int;
    lemma_pow2_pos(1074);
    let n = d as int;
    lemma_is_grained(n, 1074);
    lemma_grained_rounding(n * u, 1074);
    assert(n * u >= 0) by (nonlinear_arith)
        requires
            n >= 0,
            u > 0,
    ;
    lemma2_to64();
    assert(pow2(1) == 2);
    lemma_quotient(fraction(d, 1) as int, 1074, 1);
}

/// Numbers of a plane, scaled to pixels: dividing by the step of the plane and by one differ by the
/// step.
proof fn lemma_step(a: int, k: nat, s: nat)
    requires
        grained(a, k),
        s <= k,
    ensures
        quotient(a, one() as int) == pow2(s) * quotient(a, (pow2(s) * one()) as int),
        grained(quotient(a, (pow2(s) * one()) as int), (k - s) as nat),
{
    lemma2_to64();
    lemma_quotient(a, k, s);
    lemma_quotient(a, k, 0);
    assert(1 * one() == one());
    let q = quotient(a, one() as int);
    assert(1 * q == q);
}

/// An entry of the inverse rotation, in both kinds of planes.
proof fn lemma_entry(v: int, si: nat, sj: nat)
    requires
        plain(v),
        si <= 31,
        sj <= 31,
    ensures
        ({
            let full = quotient(product(v, one() as int), one() as int);
            let sub = quotient(
                product(v, (pow2(sj) * one()) as int),
                (pow2(si) * one()) as int,
            );
            &&& pow2(sj) * full == pow2(si) * sub
            &&& grained(full, 843)
            &&& grained(sub, 843)
        }),
{
    let u = one() as int;
    lemma2_to64();
    lemma_is_grained(1, 1074);
    assert(1 * u == u);
    lemma_product(v, u, 874, 1074);
    lemma_scaled_product(v, u, 874, 1074, sj);
    let w = product(v, u);
    lemma_quotient(w, 874, 0);
    let full = quotient(w, u);
    assert(1 * full == full);
    let x = pow2(sj) * w;
    lemma_grained_shift(w, 874, sj);
    lemma_finer(x, (874 + sj) as nat, 874);
    lemma_quotient(x, 874, si);
    lemma_scaled_rounding(w, sj);
    lemma_finer(full, 874, 843);
    lemma_finer(quotient(x, (pow2(si) * one()) as int), (874 - si) as nat, 843);
}

/// A scaled number has a coarser grain.
proof fn lemma_grained_shift(v: int, k: nat, s: nat)
    requires
        grained(v, k),
    ensures
        grained(pow2(s) * v, k + s),
{
    lemma_grains(v, k);
    let g = grains(v, k);
    lemma_pow2_adds(k, s);
    let (a, b) = (pow2(k) as int, pow2(s) as int);
    assert(b * (g * a) == g * (a * b)) by (nonlinear_arith);
    lemma_is_grained(g, k + s);
}

/// The centre of a window, in both kinds of planes.
proof fn lemma_center(full: TrackView, sub: TrackView, track: TrackView, z: int, a: int, s: nat)
    requires
        0 <= a < 2,
        plain_track(track),
        plain(z),
        s <= 31,
        full.pos[a] == quotient(track.pos[a], one() as int),
        full.vel[a] == quotient(track.vel[a], one() as int),
        full.zc == track.zc,
        sub.pos[a] == quotient(track.pos[a], (pow2(s) * one()) as int),
        sub.vel[a] == quotient(track.vel[a], (pow2(s) * one()) as int),
        sub.zc == track.zc,
    ensures
        full.center(z, a) == pow2(s) * sub.center(z, a),
        grained(sub.center(z, a), 643),
{
    let t = difference(sum(z, half()), track.zc);
    lemma_half();
    lemma_finer(half(), 1073, 874);
    lemma_grained_sum(z, half(), 874);
    lemma_grained_sum(sum(z, half()), track.zc, 874);
    lemma_step(track.pos[a], 874, s);
    lemma_step(track.vel[a], 874, s);
    let (p, v) = (sub.pos[a], sub.vel[a]);
    lemma_scaled_product(v, t, (874 - s) as nat, 874, s);
    lemma_product(v, t, (874 - s) as nat, 874);
    lemma_scaled_sum(p, product(v, t), s);
    lemma_finer(p, (874 - s) as nat, 643);
    lemma_finer(product(v, t), (674 - s) as nat, 643);
    lemma_grained_sum(p, product(v, t), 643);
}

proof fn lemma_half()
    ensures
        half() == pow2(1073),
        grained(half(), 1073),
{
    lemma2_to64();
    halves_are_exact(1);
    assert(1 * pow2(1073) == pow2(1073));
    lemma_is_grained(1, 1073);
}

/// The place of a voxel along an axis, in both kinds of planes.
proof fn lemma_place(x: int, d: nat, cf: int, cs: int, s: nat)
    requires
        plain(x),
        s <= 31,
        cf == pow2(s) * cs,
        grained(cs, 643),
    ensures
        ({
            let full = sum(
                difference(
                    sum(pixel_at(x, s), half()),
                    quotient(half_side(d), one() as int),
                ),
                cf,
            );
            let sub = sum(
                difference(sum(x, half()), quotient(half_side(d), (pow2(s) * one()) as int)),
                cs,
            );
            &&& full == pow2(s) * sub
            &&& grained(sub, 643)
        }),
{
    let p = pow2(s) as int;
    let h = pow2(1073) as int;
    lemma_half();
    assert(p * x + (p - 1) * h + h == p * (x + h)) by (nonlinear_arith);
    lemma_scaled_rounding(x + h, s);
    lemma_half_side(d);
    lemma_step(half_side(d), 1073, s);
    let c = quotient(half_side(d), (pow2(s) * one()) as int);
    let m = sum(x, half());
    lemma_scaled_sum(m, c, s);
    lemma_scaled_sum(difference(m, c), cs, s);
    lemma_finer(half(), 1073, 643);
    lemma_finer(x, 874, 643);
    lemma_grained_sum(x, half(), 643);
    lemma_finer(c, (1073 - s) as nat, 643);
    lemma_grained_sum(m, c, 643);
    lemma_grained_sum(difference(m, c), cs, 643);
}

/// A product of an entry and a coordinate, in both kinds of planes.
proof fn lemma_term(ef: int, es: int, vf: int, vs: int, si: nat, sj: nat)
    requires
        grained(ef, 843),
        grained(es, 843),
        grained(vs, 643),
        pow2(sj) * ef == pow2(si) * es,
        vf == pow2(sj) * vs,
    ensures
        product(ef, vf) == pow2(si) * product(es, vs),
{
    lemma_scaled_product(ef, vs, 843, 643, sj);
    lemma_scaled_product(es, vs, 843, 643, si);
}

/// A coordinate of the input, in both kinds of planes.
proof fn lemma_row(
    ef: Seq<int>,
    es: Seq<int>,
    vf: Seq<int>,
    vs: Seq<int>,
    d: nat,
    i: int,
    l: Seq<nat>,
)
    requires
        0 <= i < 3,
        l.len() == 3,
        l[i] <= 31,
        forall|j: int|
            0 <= j < 3 ==> {
                &&& pow2(#[trigger] l[j]) * ef[j] == pow2(l[i]) * es[j]
                &&& grained(ef[j], 843)
                &&& grained(es[j], 843)
                &&& vf[j] == pow2(l[j]) * vs[j]
                &&& grained(vs[j], 643)
            },
    ensures
        sum(dot(ef, vf), quotient(half_side(d), one() as int)) == pow2(l[i]) * sum(
            dot(es, vs),
            quotient(half_side(d), (pow2(l[i]) * one()) as int),
        ),
{
    let s = l[i];
    assert(pow2(l[0]) * ef[0] == pow2(s) * es[0]);
    assert(pow2(l[1]) * ef[1] == pow2(s) * es[1]);
    assert(pow2(l[2]) * ef[2] == pow2(s) * es[2]);
    lemma_term(ef[0], es[0], vf[0], vs[0], s, l[0]);
    lemma_term(ef[1], es[1], vf[1], vs[1], s, l[1]);
    lemma_term(ef[2], es[2], vf[2], vs[2], s, l[2]);
    let (a, b, c) = (product(es[0], vs[0]), product(es[1], vs[1]), product(es[2], vs[2]));
    lemma_scaled_sum(a, b, s);
    lemma_scaled_sum(sum(a, b), c, s);
    lemma_half_side(d);
    lemma_step(half_side(d), 1073, s);
    lemma_scaled_sum(dot(es, vs), quotient(half_side(d), (pow2(s) * one()) as int), s);
}

/// A subsampled plane is sampled at the same places as the plane with every pixel: the input
/// coordinates of a sample, in pixels, are those of the pixel at the centre of the sample. This holds
/// for frames of any size and for windows that move.
pub proof fn planes_sample_the_same_places(
    g: Seq<Seq<int>>,
    in_dims: Seq<nat>,
    out_dims: Seq<nat>,
    track: TrackView,
    sx: nat,
    sy: nat,
    x: int,
    y: int,
    z: int,
    i: int,
)
    requires
        in_dims.len() == 3,
        out_dims.len() == 3,
        plain_matrix(g),
        plain_track(track),
        sx <= 31,
        sy <= 31,
        plain(x),
        plain(y),
        plain(z),
        0 <= i < 3,
    ensures
        ({
            let full = plane_mapping(g, in_dims, out_dims, track, 0, 0);
            let sub = plane_mapping(g, in_dims, out_dims, track, sx, sy);
            full.mapped(pixel_at(x, sx), pixel_at(y, sy), z)[i] == pow2(levels(sx, sy)[i])
                * sub.mapped(x, y, z)[i]
        }),
{
    let full = plane_mapping(g, in_dims, out_dims, track, 0, 0);
    let sub = plane_mapping(g, in_dims, out_dims, track, sx, sy);
    let l = levels(sx, sy);
    let u = one() as int;
    lemma2_to64();
    assert(1 * one() == one());
    assert(pow2(0) == 1);
    lemma_center(full.track, sub.track, track, z, 0, sx);
    lemma_center(full.track, sub.track, track, z, 1, sy);
    lemma_place(x, out_dims[0], full.track.center(z, 0), sub.track.center(z, 0), sx);
    lemma_place(y, out_dims[1], full.track.center(z, 1), sub.track.center(z, 1), sy);
    let vf = full.placed(pixel_at(x, sx), pixel_at(y, sy), z);
    let vs = sub.placed(x, y, z);
    assert(grained(vs[2], 643) && vf[2] == pow2(0) * vs[2]) by {
        lemma_half();
        lemma_finer(half(), 1073, 643);
        lemma_finer(z, 874, 643);
        lemma_grained_sum(z, half(), 643);
        lemma_half_side(out_dims[2]);
        lemma_finer(half_side(out_dims[2]), 1073, 643);
        lemma_grained_sum(sum(z, half()), half_side(out_dims[2]), 643);
        assert(1 * vs[2] == vs[2]);
    }
    let (ef, es) = (full.inv[i], sub.inv[i]);
    assert forall|j: int| 0 <= j < 3 implies {
        &&& pow2(#[trigger] l[j]) * ef[j] == pow2(l[i]) * es[j]
        &&& grained(ef[j], 843)
        &&& grained(es[j], 843)
        &&& vf[j] == pow2(l[j]) * vs[j]
        &&& grained(vs[j], 643)
    } by {
        assert(plain(g[j][i]));
        lemma_entry(g[j][i], l[i], l[j]);
        assert(steps(0, 0)[j] == u && steps(0, 0)[i] == u);
        assert(steps(sx, sy)[j] == pow2(l[j]) * one());
        assert(steps(sx, sy)[i] == pow2(l[i]) * one());
    }
    lemma_row(ef, es, vf, vs, in_dims[i], i, l);
    if i == 2 {
        lemma_half_side_exact(in_dims[2]);
    }
}

/// Half a side is a number of the format.
proof fn lemma_half_side_exact(d: nat)
    ensures
        quotient(half_side(d), one() as int) == half_side(d),
{
    let u = one() as int;
    lemma_pow2_pos(1074);
    let f = fraction(d, 1);
    assert(f * u >= 0) by (nonlinear_arith)
        requires
            f >= 0,
            u > 0,
    ;
    rounding_is_idempotent((f * u) as nat, (2 * u) as nat, 53);
    lemma2_to64();
    lemma_half_side(d);
    lemma_quotient(half_side(d), 1073, 0);
    assert(1 * one() == one());
    let q = quotient(half_side(d), u);
    assert(1 * q == q);
}

} // verus!
