//! What a rendered pixel shows: which pixels of a row are sampled, and which voxel or which blend of
//! voxels each of them is.

use vstd::prelude::*;
use vstd::arithmetic::div_mod::{lemma_fundamental_div_mod, lemma_fundamental_div_mod_converse};
use vstd::arithmetic::power2::{lemma2_to64, lemma_pow2_pos, pow2};
use crate::accuracy::{lemma_abs_product, lemma_one_is_large, lemma_quotient_error, lemma_sum_error};
use crate::agreement::{all_within, lemma_half_value, parts};
use crate::binary64::{
    ceiling_of, difference, floor_of, fraction, magnitude_of, one, quotient, sum,
    whole_numbers_are_exact,
};
use crate::mapping::{plane_mapping, GeometryView};
use crate::places::{lemma_half_sides, lemma_row_place, on_line, source_place};
use crate::render::{along, met, met_all, row_touched, RendererView};
use crate::slices::lemma_quotient_close;
use crate::subsampling::{levels, pixel_at};
use crate::track::{half, TrackView};
use crate::volume::Interp;

verus! {

/// Where a row crosses a plane: before voxel `x` when it is beyond the plane there.
proof fn lemma_cross(lim: int, q: int, dq: int, x: int, r: int, e: int)
    requires
        dq != 0,
        r >= one(),
        magnitude_of(lim) <= r,
        magnitude_of(q) <= r,
        magnitude_of(dq) <= r,
        0x1_0000_0000_0000 * e >= r,
    ensures
        ({
            let t = quotient(difference(lim, q), dq);
            let at = q + x * dq;
            &&& at >= lim + e && dq > 0 ==> t < x * one()
            &&& at >= lim + e && dq < 0 ==> t > x * one()
            &&& at <= lim - e && dq > 0 ==> t > x * one()
            &&& at <= lim - e && dq < 0 ==> t < x * one()
        }),
{
    let u = one() as int;
    let k = parts();
    lemma_one_is_large();
    let d = difference(lim, q);
    lemma_sum_error(lim, q);
    lemma_quotient_close(d, dq);
    let t = quotient(d, dq);
    let (v, m) = (lim - q, magnitude_of(dq));
    assert(k * magnitude_of(d - v) <= 2 * r);
    assert(magnitude_of(d) <= 3 * r);
    let f = t * dq - d * u;
    let md = magnitude_of(d);
    let ru = r * u;
    assert(md * u <= 3 * ru) by (nonlinear_arith)
        requires
            0 <= md <= 3 * r,
            ru == r * u,
            u > 0,
    ;
    assert(k * m <= ru) by (nonlinear_arith)
        requires
            0 <= m <= r,
            ru == r * u,
            u >= k,
            k > 0,
            r >= 0,
    ;
    assert(k * magnitude_of(f) <= 4 * ru);
    let w = d - v;
    let mw = magnitude_of(w);
    lemma_abs_product(w, u, mw, u);
    assert(k * (mw * u) <= 2 * ru) by (nonlinear_arith)
        requires
            k * mw <= 2 * r,
            ru == r * u,
            u > 0,
    ;
    assert(t * dq - v * u == f + w * u) by (nonlinear_arith)
        requires
            f == t * dq - d * u,
            w == d - v,
    ;
    let eu = e * u;
    assert(0x1_0000_0000_0000 * eu >= ru) by (nonlinear_arith)
        requires
            0x1_0000_0000_0000 * e >= r,
            eu == e * u,
            ru == r * u,
            u > 0,
    ;
    assert(ru > 0) by (nonlinear_arith)
        requires
            ru == r * u,
            r > 0,
            u > 0,
    ;
    assert(magnitude_of(t * dq - v * u) < eu);
    let p = x * dq;
    let gap = x * u - t;
    assert(gap * dq == p * u - t * dq) by (nonlinear_arith)
        requires
            gap == x * u - t,
            p == x * dq,
    ;
    if q + p >= lim + e {
        assert(p * u >= v * u + eu) by (nonlinear_arith)
            requires
                p >= v + e,
                eu == e * u,
                u > 0,
        ;
        assert(gap * dq > 0);
    }
    if q + p <= lim - e {
        assert(p * u <= v * u - eu) by (nonlinear_arith)
            requires
                p <= v - e,
                eu == e * u,
                u > 0,
        ;
        assert(gap * dq < 0);
    }
    if dq > 0 {
        assert(gap * dq > 0 ==> gap > 0) by (nonlinear_arith)
            requires
                dq > 0,
        ;
        assert(gap * dq < 0 ==> gap < 0) by (nonlinear_arith)
            requires
                dq > 0,
        ;
    } else {
        assert(gap * dq > 0 ==> gap < 0) by (nonlinear_arith)
            requires
                dq < 0,
        ;
        assert(gap * dq < 0 ==> gap > 0) by (nonlinear_arith)
            requires
                dq < 0,
        ;
    }
}

/// A voxel of a row that lies well inside a slab lies in the range where the row meets it.
proof fn lemma_met(acc: (int, int), q: int, dq: int, dim: nat, margin: int, x: int, r: int, e: int)
    requires
        r >= one(),
        0 <= margin,
        dim < 0x20_0000_0000_0000,
        dim * one() + margin <= r,
        magnitude_of(q) <= r,
        magnitude_of(dq) <= r,
        0x8000_0000_0000 * e >= r,
        x >= 0,
        0x40_0000_0000 * e >= x * one(),
        acc.0 <= x * one() < acc.1,
        q + x * dq >= 3 * e - margin,
        q + x * dq <= dim * one() + margin - 3 * e,
    ensures
        met(acc, q, dq, dim, margin) matches Some(o) && {
            &&& acc.0 <= o.0 <= x * one() < o.1 <= acc.1
        },
{
    let u = one() as int;
    let k = parts();
    lemma_one_is_large();
    whole_numbers_are_exact(dim);
    let f = fraction(dim, 1) as int;
    let hi = sum(f, margin);
    lemma_sum_error(f, margin);
    assert(f >= 0);
    assert(magnitude_of(hi - (f + margin)) <= e);
    let tiny = fraction(1, 1_000_000_000_000) as int;
    assert(1 * one() == one());
    lemma_quotient_error(u, 1_000_000_000_000);
    assert(900_000_000_000 * tiny <= u && 0 < tiny);
    if magnitude_of(dq) < tiny {
        let m = magnitude_of(dq);
        lemma_abs_product(x, dq, x, m);
        assert(900_000_000_000 * (x * m) <= x * u) by (nonlinear_arith)
            requires
                900_000_000_000 * m <= u,
                x >= 0,
        ;
        assert(magnitude_of(x * dq) <= e);
    } else {
        lemma_cross(-margin, q, dq, x, r, e);
        lemma_cross_far(hi, q, dq, x, r, e);
    }
}

/// The same for a plane that is hardly farther away.
proof fn lemma_cross_far(lim: int, q: int, dq: int, x: int, r: int, e: int)
    requires
        dq != 0,
        r >= one(),
        magnitude_of(lim) <= r + e,
        magnitude_of(q) <= r,
        magnitude_of(dq) <= r,
        0x8000_0000_0000 * e >= r,
    ensures
        ({
            let t = quotient(difference(lim, q), dq);
            let at = q + x * dq;
            &&& at <= lim - e && dq > 0 ==> t > x * one()
            &&& at <= lim - e && dq < 0 ==> t < x * one()
        }),
{
    lemma_cross(lim, q, dq, x, r + e, e);
}

/// A voxel of a row that lies well inside the volume, widened by a margin, is one that is sampled.
proof fn lemma_touched(
    g: GeometryView,
    q: Seq<int>,
    dq: Seq<int>,
    margin: int,
    x: nat,
    r: int,
    e: int,
)
    requires
        r >= one(),
        0 <= margin,
        forall|i: int|
            0 <= i < 3 ==> {
                &&& #[trigger] g.in_dims[i] < 0x20_0000_0000_0000
                &&& g.in_dims[i] * one() + margin <= r
                &&& magnitude_of(q[i]) <= r
                &&& magnitude_of(dq[i]) <= r
                &&& q[i] + x * dq[i] >= 3 * e - margin
                &&& q[i] + x * dq[i] <= g.in_dims[i] * one() + margin - 3 * e
            },
        0x8000_0000_0000 * e >= r,
        0x40_0000_0000 * e >= x * one(),
        x < g.out_dims[0] < 0x10_0000_0000_0000,
        g.out_dims[0] <= usize::MAX,
    ensures
        row_touched(g, q, dq, margin) matches Some((x0, x1)) && x0 <= x < x1,
{
    let u = one() as int;
    let w = g.out_dims[0];
    lemma_one_is_large();
    whole_numbers_are_exact(w);
    let wu = w * u;
    let xu = x * u;
    assert(0 <= xu && xu + u <= wu) by (nonlinear_arith)
        requires
            xu == x * u,
            wu == w * u,
            0 <= x < w,
            u > 0,
    ;
    assert(g.in_dims[0] < 0x20_0000_0000_0000);
    assert(g.in_dims[1] < 0x20_0000_0000_0000);
    assert(g.in_dims[2] < 0x20_0000_0000_0000);
    lemma_met((0, wu), q[0], dq[0], g.in_dims[0], margin, x as int, r, e);
    let a = met((0, wu), q[0], dq[0], g.in_dims[0], margin)->Some_0;
    lemma_met(a, q[1], dq[1], g.in_dims[1], margin, x as int, r, e);
    let b = met(a, q[1], dq[1], g.in_dims[1], margin)->Some_0;
    lemma_met(b, q[2], dq[2], g.in_dims[2], margin, x as int, r, e);
    let (lo, hi) = met(b, q[2], dq[2], g.in_dims[2], margin)->Some_0;
    assert(met_all(g, q, dq, margin) == Some((lo, hi)));
    assert(0 <= lo <= xu < hi <= wu);
    // the first voxel
    let f = floor_of(lo);
    lemma_fundamental_div_mod(lo, u);
    assert(0 <= f <= x) by (nonlinear_arith)
        requires
            lo == u * f + lo % u,
            0 <= lo % u < u,
            0 <= lo <= x * u,
            u > 0,
    ;
    lemma_before(f as nat);
    // the one behind the last
    let c = ceiling_of(hi);
    lemma_fundamental_div_mod(-hi, u);
    let n = (-hi) / u;
    assert(x < c && c <= w) by (nonlinear_arith)
        requires
            c == -n,
            -hi == u * n + (-hi) % u,
            0 <= (-hi) % u < u,
            x * u < hi <= w * u,
            u > 0,
    ;
    lemma_after(c as nat);
    lemma_floor_whole(w as int);
    lemma_floor_whole(c + 1);
    if f >= 1 {
        lemma_floor_whole(f - 1);
    }
    lemma_floor_whole(0);
}

proof fn lemma_floor_whole(n: int)
    ensures
        floor_of(n * one()) == n,
{
    lemma_pow2_pos(1074);
    lemma_fundamental_div_mod_converse(n * one(), one() as int, n, 0);
}

proof fn lemma_before(f: nat)
    requires
        f < 0x10_0000_0000_0000,
    ensures
        f >= 1 ==> difference(f * one() as int, one() as int) == (f - 1) * one(),
        f == 0 ==> difference(f * one() as int, one() as int) <= 0,
{
    let u = one() as int;
    lemma_pow2_pos(1074);
    if f >= 1 {
        let n = (f - 1) as nat;
        whole_numbers_are_exact(n);
        assert(f * u - u == n * u) by (nonlinear_arith)
            requires
                n == f - 1,
        ;
        assert(n * u >= 0) by (nonlinear_arith)
            requires
                n >= 0,
                u > 0,
        ;
    } else {
        assert(0 * u == 0);
    }
}

proof fn lemma_after(c: nat)
    requires
        c < 0x10_0000_0000_0000,
    ensures
        sum(c * one() as int, one() as int) == (c + 1) * one(),
{
    let u = one() as int;
    lemma_pow2_pos(1074);
    whole_numbers_are_exact(c + 1);
    assert(c * u + u == (c + 1) * u) by (nonlinear_arith);
    assert((c + 1) * u >= 0) by (nonlinear_arith)
        requires
            c >= 0,
            u > 0,
    ;
}

/// The bytes of a voxel in a plane of a frame.
pub open spec fn voxel_bytes(
    r: RendererView,
    vol: Seq<Seq<u8>>,
    p: int,
    x: int,
    y: int,
    z: int,
) -> Seq<u8> {
    let n = r.format.planes[p].channels * r.format.bytes;
    let at = r.in_planes[p].offset + (y * r.in_planes[p].w + x) * n;
    vol[z].subrange(at, at + n)
}

/// A place lies in a voxel.
pub open spec fn lies_in(place: int, voxel: int) -> bool {
    voxel * one() <= place < (voxel + 1) * one()
}

pub proof fn lemma_lies_in(place: int, voxel: int)
    requires
        lies_in(place, voxel),
    ensures
        floor_of(place) == voxel,
{
    let u = one() as int;
    lemma_pow2_pos(1074);
    let d = place - voxel * u;
    assert((voxel + 1) * u == voxel * u + u) by (nonlinear_arith);
    lemma_fundamental_div_mod_converse(place, u, voxel, d);
}

/// Every place lies in a voxel.
proof fn lemma_some_voxel(place: int)
    ensures
        lies_in(place, floor_of(place)),
{
    let u = one() as int;
    lemma_pow2_pos(1074);
    lemma_fundamental_div_mod(place, u);
    let n = floor_of(place);
    assert((n + 1) * u == n * u + u) by (nonlinear_arith);
    assert(u * n == n * u) by (nonlinear_arith);
}

/// With nearest interpolation a pixel that is sampled shows the voxel that its place lies in, as it
/// is: the bytes are those of the voxel. Where the place lies outside the volume, the pixel shows the
/// fill, and so does one that is not sampled.
#[verifier::rlimit(40)]
pub proof fn nearest_pixels_show_the_voxel_they_fall_into(
    r: RendererView,
    vol: Seq<Seq<u8>>,
    p: int,
    x: nat,
    y: nat,
    z: nat,
    v: Seq<int>,
)
    requires
        r.wf(),
        r.interp is Nearest,
        0 <= p < r.format.planes.len(),
        v.len() == 3,
        forall|i: int|
            0 <= i < 3 ==> lies_in(
                along(r.row_start(p, y, z)[i], r.geoms[p].step_x()[i], x),
                #[trigger] v[i],
            ),
        r.geoms[p].in_dims[0] <= i64::MAX,
        r.geoms[p].in_dims[1] <= i64::MAX,
        r.geoms[p].in_dims[2] <= i64::MAX,
    ensures
        ({
            let d = r.geoms[p].in_dims;
            let inside = 0 <= v[0] < d[0] && 0 <= v[1] < d[1] && 0 <= v[2] < d[2];
            let sampled = row_touched(r.geoms[p], r.row_start(p, y, z), r.geoms[p].step_x(), 0) matches Some(
                (x0, x1),
            ) && x0 <= x < x1;
            r.pixel(vol, p, x, y, z) == if inside && sampled {
                voxel_bytes(r, vol, p, v[0], v[1], v[2])
            } else {
                r.fill[p]
            }
        }),
{
    let q0 = r.row_start(p, y, z);
    let dq = r.geoms[p].step_x();
    let q = seq![along(q0[0], dq[0], x), along(q0[1], dq[1], x), along(q0[2], dq[2], x)];
    let d = r.geoms[p].in_dims;
    assert(lies_in(q[0], v[0]) && lies_in(q[1], v[1]) && lies_in(q[2], v[2]));
    lemma_lies_in(q[0], v[0]);
    lemma_lies_in(q[1], v[1]);
    lemma_lies_in(q[2], v[2]);
    let inside = 0 <= v[0] < d[0] && 0 <= v[1] < d[1] && 0 <= v[2] < d[2];
    assert(r.in_planes[p].w == d[0]);
    assert(r.hit(p, q) == if inside {
        Some((v[0], v[1], v[2]))
    } else {
        None
    });
    assert(r.margin() == 0);
}

/// A margin, in units, that is not too small.
proof fn lemma_margin(m: int, r: int, q: int) -> (e: int)
    requires
        q >= one(),
        r >= one() * q,
        0x8000_0000 * m >= r * one(),
    ensures
        e > 0,
        (64 * (one() * one())) * e <= m,
        0x40_0000_0000 * (one() * e) >= r,
{
    let u = one() as int;
    lemma_one_is_large();
    let d = 64 * (u * u);
    assert(d > 0) by (nonlinear_arith)
        requires
            d == 64 * (u * u),
            u > 0,
    ;
    let e = m / d;
    lemma_fundamental_div_mod(m, d);
    let rest = m % d;
    assert(e * d == d * e) by (nonlinear_arith);
    // e + 1 > m / d >= r / (2^37 * u)
    assert(0x20_0000_0000 * (u * (e + 1)) >= r) by (nonlinear_arith)
        requires
            m == d * e + rest,
            rest < d,
            d == 64 * (u * u),
            0x8000_0000 * m >= r * u,
            u > 0,
    {
        assert(0x8000_0000 * (d * (e + 1)) >= r * u);
        assert(0x8000_0000 * (d * (e + 1)) == (0x20_0000_0000 * (u * (e + 1))) * u);
    }
    assert(e + 1 >= 2 && e > 0) by (nonlinear_arith)
        requires
            0x20_0000_0000 * (u * (e + 1)) >= r,
            r >= u * q,
            q >= 0x8000_0000_0000_0000_0000_0000_0000_0000,
            u > 0,
    ;
    assert(0x40_0000_0000 * (u * e) >= 0x20_0000_0000 * (u * (e + 1))) by (nonlinear_arith)
        requires
            e >= 1,
            u > 0,
    ;
    e
}

/// A place that is near an exact one lies as far inside as that, but for half of the margin.
proof fn lemma_inside(place: int, exact: int, lo: int, p: int, m: int, r: int, e: int)
    requires
        1 <= p <= 4,
        0x8000_0000 * m >= r * one(),
        m > 0,
        e >= 0,
        (64 * (one() * one())) * e <= m,
        0x80_0000_0000 * magnitude_of(((2 * (p * place)) * one()) * one() - exact) <= r * one(),
    ensures
        exact >= ((2 * (p * lo)) * one()) * one() + m ==> place >= lo + 3 * e && place > lo,
        exact <= ((2 * (p * lo)) * one()) * one() - m ==> place <= lo - 3 * e && place < lo,
{
    let u = one() as int;
    lemma_pow2_pos(1074);
    let uu = u * u;
    let d = 2 * (p * uu);
    assert(0 < d <= 8 * uu) by (nonlinear_arith)
        requires
            d == 2 * (p * uu),
            uu == u * u,
            1 <= p <= 4,
            u > 0,
    ;
    let gap = place - lo;
    assert(((2 * (p * place)) * u) * u - ((2 * (p * lo)) * u) * u == d * gap) by (nonlinear_arith)
        requires
            d == 2 * (p * uu),
            uu == u * u,
            gap == place - lo,
    ;
    assert(2 * magnitude_of(((2 * (p * place)) * u) * u - exact) <= m);
    let de = d * e;
    let f = uu * e;
    assert(de <= 8 * f && f >= 0 && (64 * uu) * e == 64 * f) by (nonlinear_arith)
        requires
            de == d * e,
            d <= 8 * uu,
            f == uu * e,
            e >= 0,
            uu >= 0,
    ;
    if exact >= ((2 * (p * lo)) * u) * u + m {
        assert(2 * (d * gap) >= m);
        assert(gap >= 3 * e && gap > 0) by (nonlinear_arith)
            requires
                2 * (d * gap) >= m,
                2 * (3 * (d * e)) <= m,
                m > 0,
                d > 0,
        ;
    }
    if exact <= ((2 * (p * lo)) * u) * u - m {
        assert(2 * (d * gap) <= -m);
        assert(gap <= -(3 * e) && gap < 0) by (nonlinear_arith)
            requires
                2 * (d * gap) <= -m,
                2 * (3 * (d * e)) <= m,
                m > 0,
                d > 0,
        ;
    }
}

/// The renderer renders plane `p` by a rotation, and everything that its pixel `(x, y)` of frame `z`
/// depends on is of an ordinary size: entries up to `b`, and places, paths and sides up to `q`.
pub open spec fn renders_pixel(
    r: RendererView,
    g: Seq<Seq<int>>,
    in_dims: Seq<nat>,
    out_dims: Seq<nat>,
    track: TrackView,
    p: int,
    x: nat,
    y: nat,
    z: nat,
    b: int,
    q: int,
) -> bool {
    let (sx, sy) = (r.format.planes[p].sx, r.format.planes[p].sy);
    &&& r.wf()
    &&& r.renders(r.format, g, in_dims, out_dims, track, r.interp, r.fill)
    &&& 0 <= p < r.format.planes.len()
    &&& in_dims.len() == 3
    &&& out_dims.len() == 3
    &&& x < r.geoms[p].out_dims[0] < 0x10_0000_0000_0000
    &&& r.geoms[p].out_dims[0] <= usize::MAX
    &&& y < 0x10_0000_0000_0000 && z < 0x10_0000_0000_0000
    &&& r.geoms[p].in_dims[0] < 0x10_0000_0000_0000
    &&& r.geoms[p].in_dims[1] < 0x10_0000_0000_0000
    &&& r.geoms[p].in_dims[2] < 0x10_0000_0000_0000
    &&& b >= one()
    &&& forall|k: int, j: int| 0 <= k < 3 && 0 <= j < 3 ==> magnitude_of(#[trigger] g[k][j]) <= b
    &&& all_within(
        in_dims,
        out_dims,
        track,
        pixel_at((x * one()) as int, sx),
        pixel_at((y * one()) as int, sy),
        (z * one()) as int,
        q,
    )
}

/// Twice the place in the input that a pixel of a plane comes from, as the rotation says: the place of
/// the centre of the pixel, in pixels of the whole frame, counted in units of units of units.
pub open spec fn pixel_source(
    r: RendererView,
    g: Seq<Seq<int>>,
    in_dims: Seq<nat>,
    out_dims: Seq<nat>,
    track: TrackView,
    p: int,
    x: nat,
    y: nat,
    z: nat,
    i: int,
) -> int {
    source_place(
        g,
        in_dims,
        out_dims,
        track,
        pixel_at((x * one()) as int, r.format.planes[p].sx),
        pixel_at((y * one()) as int, r.format.planes[p].sy),
        (z * one()) as int,
        i,
    )
}

/// Twice the place `n` samples from the start of a plane along an axis, counted like `pixel_source`.
pub open spec fn sample_edge(r: RendererView, p: int, i: int, n: int) -> int {
    edge_at(r, p, i, n * one())
}

/// Twice a place in a plane along an axis, counted like `pixel_source`.
pub open spec fn edge_at(r: RendererView, p: int, i: int, at: int) -> int {
    let s = if i == 0 {
        pow2(r.format.planes[p].sx)
    } else if i == 1 {
        pow2(r.format.planes[p].sy)
    } else {
        1
    };
    ((2 * (s * at)) * one()) * one()
}

/// How many pixels a sample of a plane stands for along an axis.
spec fn sample_step(r: RendererView, p: int, i: int) -> int {
    if i == 0 {
        pow2(r.format.planes[p].sx) as int
    } else if i == 1 {
        pow2(r.format.planes[p].sy) as int
    } else {
        1
    }
}

/// The places of a row of a renderer, against the exact ones.
#[verifier::spinoff_prover]
proof fn lemma_renderer_row(
    r: RendererView,
    g: Seq<Seq<int>>,
    in_dims: Seq<nat>,
    out_dims: Seq<nat>,
    track: TrackView,
    p: int,
    x: nat,
    y: nat,
    z: nat,
    b: int,
    q: int,
    i: int,
)
    requires
        renders_pixel(r, g, in_dims, out_dims, track, p, x, y, z, b, q),
        0 <= i < 3,
    ensures
        ({
            let u = one() as int;
            let s = sample_step(r, p, i);
            let (q0, dq) = (r.row_start(p, y, z)[i], r.geoms[p].step_x()[i]);
            let want = pixel_source(r, g, in_dims, out_dims, track, p, x, y, z, i);
            &&& 1 <= s <= 4
            &&& 0x80_0000_0000 * magnitude_of(((2 * (s * on_line(q0, dq, x))) * u) * u - want) <= (b
                * q) * u
            &&& 0x80_0000_0000 * magnitude_of(((2 * (s * along(q0, dq, x))) * u) * u - want) <= (b
                * q) * u
            &&& magnitude_of(s * q0) * u <= 83 * (b * q)
            &&& magnitude_of(s * dq) <= 8 * b
        }),
{
    let (sx, sy) = (r.format.planes[p].sx, r.format.planes[p].sy);
    let pl = r.format.planes[p];
    assert(pl.sx <= 2 && pl.sy <= 1);
    assert(r.geoms[p] == plane_mapping(g, in_dims, out_dims, track, sx, sy));
    whole_numbers_are_exact(y);
    whole_numbers_are_exact(z);
    lemma2_to64();
    lemma_row_place(
        g,
        in_dims,
        out_dims,
        track,
        sx,
        sy,
        x,
        (y * one()) as int,
        (z * one()) as int,
        i,
        b,
        q,
    );
    assert(sample_step(r, p, i) == pow2(levels(sx, sy)[i]));
    let sb = pow2(sx) * b;
    assert(sb <= 4 * b) by (nonlinear_arith)
        requires
            sb == pow2(sx) * b,
            pow2(sx) <= 4,
            b >= 0,
    ;
}

/// The places of a row, in plain numbers.
#[verifier::rlimit(40)]
proof fn lemma_pixel_places(
    r: RendererView,
    g: Seq<Seq<int>>,
    in_dims: Seq<nat>,
    out_dims: Seq<nat>,
    track: TrackView,
    p: int,
    x: nat,
    y: nat,
    z: nat,
    b: int,
    q: int,
    m: int,
    i: int,
    e: int,
    at: int,
)
    requires
        renders_pixel(r, g, in_dims, out_dims, track, p, x, y, z, b, q),
        0x8000_0000 * m >= (b * q) * one(),
        0 <= i < 3,
        m > 0,
        e >= 0,
        (64 * (one() * one())) * e <= m,
    ensures
        ({
            let (q0, dq) = (r.row_start(p, y, z)[i], r.geoms[p].step_x()[i]);
            let place = along(q0, dq, x);
            let line = on_line(q0, dq, x);
            let want = pixel_source(r, g, in_dims, out_dims, track, p, x, y, z, i);
            let edge = edge_at(r, p, i, at);
            &&& want >= edge + m ==> place > at && place >= at + 3 * e && line >= at + 3 * e
            &&& want <= edge - m ==> place < at && place <= at - 3 * e && line <= at - 3 * e
            &&& magnitude_of(q0) * one() <= 83 * (b * q)
            &&& magnitude_of(dq) <= 8 * b
        }),
{
    lemma_renderer_row(r, g, in_dims, out_dims, track, p, x, y, z, b, q, i);
    let s = sample_step(r, p, i);
    let (q0, dq) = (r.row_start(p, y, z)[i], r.geoms[p].step_x()[i]);
    let want = pixel_source(r, g, in_dims, out_dims, track, p, x, y, z, i);
    assert(edge_at(r, p, i, at) == ((2 * (s * at)) * one()) * one());
    lemma_pixel_numbers(
        q0,
        dq,
        along(q0, dq, x),
        on_line(q0, dq, x),
        want,
        at,
        s,
        m,
        b * q,
        b,
        e,
    );
}

proof fn lemma_pixel_numbers(
    q0: int,
    dq: int,
    place: int,
    line: int,
    want: int,
    at: int,
    s: int,
    m: int,
    r: int,
    b: int,
    e: int,
)
    requires
        1 <= s <= 4,
        0x8000_0000 * m >= r * one(),
        m > 0,
        e >= 0,
        (64 * (one() * one())) * e <= m,
        0x80_0000_0000 * magnitude_of(((2 * (s * line)) * one()) * one() - want) <= r * one(),
        0x80_0000_0000 * magnitude_of(((2 * (s * place)) * one()) * one() - want) <= r * one(),
        magnitude_of(s * q0) * one() <= 83 * r,
        magnitude_of(s * dq) <= 8 * b,
    ensures
        ({
            let edge = ((2 * (s * at)) * one()) * one();
            &&& want >= edge + m ==> place > at && place >= at + 3 * e && line >= at + 3 * e
            &&& want <= edge - m ==> place < at && place <= at - 3 * e && line <= at - 3 * e
            &&& magnitude_of(q0) * one() <= 83 * r
            &&& magnitude_of(dq) <= 8 * b
        }),
{
    lemma_inside(place, want, at, s, m, r, e);
    lemma_inside(line, want, at, s, m, r, e);
    let (mq, md) = (magnitude_of(q0), magnitude_of(dq));
    lemma_abs_product(s, q0, s, mq);
    lemma_abs_product(s, dq, s, md);
    let u = one() as int;
    lemma_pow2_pos(1074);
    assert(mq * u <= 83 * r) by (nonlinear_arith)
        requires
            (s * mq) * u <= 83 * r,
            s >= 1,
            mq >= 0,
            u > 0,
    ;
    assert(md <= s * md) by (nonlinear_arith)
        requires
            s >= 1,
            md >= 0,
    ;
}

/// Nearest interpolation shows what the rotation brings to a pixel: where the place that the pixel
/// comes from lies in a voxel of the plane, by more than rounding can move it, the pixel shows that
/// voxel, whatever the angles are. Where it lies outside the volume, the pixel shows the fill.
#[verifier::rlimit(40)]
pub proof fn nearest_pixels_show_what_the_rotation_brings_there(
    r: RendererView,
    vol: Seq<Seq<u8>>,
    g: Seq<Seq<int>>,
    in_dims: Seq<nat>,
    out_dims: Seq<nat>,
    track: TrackView,
    p: int,
    x: nat,
    y: nat,
    z: nat,
    b: int,
    q: int,
    margin: int,
    v: Seq<int>,
)
    requires
        r.interp is Nearest,
        renders_pixel(r, g, in_dims, out_dims, track, p, x, y, z, b, q),
        0x8000_0000 * margin >= (b * q) * one(),
        v.len() == 3,
        forall|i: int|
            0 <= i < 3 ==> {
                let at = pixel_source(r, g, in_dims, out_dims, track, p, x, y, z, i);
                sample_edge(r, p, i, #[trigger] v[i]) + margin <= at <= sample_edge(r, p, i, v[i] + 1)
                    - margin
            },
    ensures
        ({
            let d = r.geoms[p].in_dims;
            r.pixel(vol, p, x, y, z) == if 0 <= v[0] < d[0] && 0 <= v[1] < d[1] && 0 <= v[2] < d[2] {
                voxel_bytes(r, vol, p, v[0], v[1], v[2])
            } else {
                r.fill[p]
            }
        }),
{
    let u = one() as int;
    let gm = r.geoms[p];
    let d = gm.in_dims;
    let rr = b * q;
    lemma_one_is_large();
    assert(rr >= u * q && rr > 0) by (nonlinear_arith)
        requires
            rr == b * q,
            b >= u,
            q >= u,
            u > 0,
    ;
    let e = lemma_margin(margin, rr, q);
    lemma_margin_positive(margin, rr);
    let (q0, dq) = (r.row_start(p, y, z), gm.step_x());
    assert forall|i: int| 0 <= i < 3 implies lies_in(along(q0[i], dq[i], x), #[trigger] v[i]) by {
        let at = pixel_source(r, g, in_dims, out_dims, track, p, x, y, z, i);
        assert(sample_edge(r, p, i, v[i]) + margin <= at);
        lemma_pixel_places(
            r, g, in_dims, out_dims, track, p, x, y, z, b, q, margin, i, e, v[i] * one(),
        );
        lemma_pixel_places(
            r, g, in_dims, out_dims, track, p, x, y, z, b, q, margin, i, e, (v[i] + 1) * one(),
        );
    }
    nearest_pixels_show_the_voxel_they_fall_into(r, vol, p, x, y, z, v);
    if 0 <= v[0] < d[0] && 0 <= v[1] < d[1] && 0 <= v[2] < d[2] {
        let size = 0x8000_0000_0000 * e;
        assert forall|i: int| 0 <= i < 3 implies {
            &&& #[trigger] d[i] < 0x20_0000_0000_0000
            &&& d[i] * u + 0 <= size
            &&& magnitude_of(q0[i]) <= size
            &&& magnitude_of(dq[i]) <= size
            &&& q0[i] + x * dq[i] >= 3 * e - 0
            &&& q0[i] + x * dq[i] <= d[i] * u + 0 - 3 * e
        } by {
            let at = pixel_source(r, g, in_dims, out_dims, track, p, x, y, z, i);
            assert(sample_edge(r, p, i, v[i]) + margin <= at);
            lemma_pixel_places(
                r, g, in_dims, out_dims, track, p, x, y, z, b, q, margin, i, e, v[i] * one(),
            );
            lemma_pixel_places(
                r, g, in_dims, out_dims, track, p, x, y, z, b, q, margin, i, e, (v[i] + 1) * one(),
            );
            lemma_plane_side(r, g, in_dims, out_dims, track, p, x, y, z, b, q, i);
            let (n, c) = (v[i], d[i] as int);
            assert(0 <= n * u && (n + 1) * u <= c * u) by (nonlinear_arith)
                requires
                    0 <= n < c,
                    u > 0,
            ;
            let (mq, md, w) = (magnitude_of(q0[i]), magnitude_of(dq[i]), c * u);
            assert(mq <= size && md <= size && w <= size) by (nonlinear_arith)
                requires
                    size == 0x8000_0000_0000 * e,
                    0x40_0000_0000 * (u * e) >= rr,
                    mq * u <= 83 * rr,
                    md <= 8 * b,
                    w <= 16 * q,
                    rr == b * q,
                    b >= u,
                    q >= u,
                    u > 0,
                    e > 0,
            {
                assert(0x200 * rr <= size * u);
                assert(mq * u <= size * u);
                assert(md * u <= 8 * (b * q));
                assert(w * u <= 16 * (b * q));
            }
        }
        assert(0x40_0000_0000 * e >= x * u) by {
            lemma_x_size(r, x, p, in_dims, out_dims, track, y, z, q);
            let xu = x * u;
            assert(0x40_0000_0000 * e >= xu) by (nonlinear_arith)
                requires
                    0x40_0000_0000 * (u * e) >= rr,
                    rr >= u * q,
                    xu <= q,
                    u > 0,
            ;
        }
        assert(size >= u) by {
            assert(magnitude_of(q0[0]) >= 0);
            assert(d[0] * u + 0 <= size);
            assert(d[0] * u >= u) by (nonlinear_arith)
                requires
                    d[0] >= 1,
                    u > 0,
            ;
        }
        lemma_touched(gm, q0, dq, 0, x, size, e);
    }
}

proof fn lemma_margin_positive(m: int, r: int)
    requires
        r > 0,
        0x8000_0000 * m >= r * one(),
    ensures
        m > 0,
{
    let u = one() as int;
    lemma_pow2_pos(1074);
    assert(r * u > 0) by (nonlinear_arith)
        requires
            r > 0,
            u > 0,
    ;
}

#[verifier::rlimit(40)]
proof fn lemma_x_size(
    r: RendererView,
    x: nat,
    p: int,
    in_dims: Seq<nat>,
    out_dims: Seq<nat>,
    track: TrackView,
    y: nat,
    z: nat,
    q: int,
)
    requires
        all_within(
            in_dims,
            out_dims,
            track,
            pixel_at((x * one()) as int, r.format.planes[p].sx),
            pixel_at((y * one()) as int, r.format.planes[p].sy),
            (z * one()) as int,
            q,
        ),
    ensures
        x * one() <= q,
{
    let sx = r.format.planes[p].sx;
    let s = pow2(sx) as int;
    let h = pow2(1073) as int;
    let xu = (x * one()) as int;
    lemma_pow2_pos(sx);
    lemma_pow2_pos(1073);
    assert(s * xu + (s - 1) * h >= xu) by (nonlinear_arith)
        requires
            s >= 1,
            xu >= 0,
            h >= 0,
    ;
}

/// The sides of a plane are of an ordinary size, too.
#[verifier::rlimit(40)]
proof fn lemma_plane_side(
    r: RendererView,
    g: Seq<Seq<int>>,
    in_dims: Seq<nat>,
    out_dims: Seq<nat>,
    track: TrackView,
    p: int,
    x: nat,
    y: nat,
    z: nat,
    b: int,
    q: int,
    i: int,
)
    requires
        renders_pixel(r, g, in_dims, out_dims, track, p, x, y, z, b, q),
        0 <= i < 3,
    ensures
        r.geoms[p].in_dims[i] * one() <= 16 * q,
        r.geoms[p].in_dims[i] < 0x10_0000_0000_0000,
{
    let u = one() as int;
    lemma_one_is_large();
    let (sx, sy) = (r.format.planes[p].sx, r.format.planes[p].sy);
    assert(r.geoms[p] == plane_mapping(g, in_dims, out_dims, track, sx, sy));
    lemma_half_sides(in_dims[i], q);
    let l = levels(sx, sy)[i];
    let (n, c) = (in_dims[i] as int, r.geoms[p].in_dims[i] as int);
    lemma_pow2_pos(l);
    assert(c <= n + 1) by {
        if i < 2 {
            let s = pow2(l) as int;
            let w = n + s - 1;
            lemma_fundamental_div_mod(w, s);
            let (k, m) = (w / s, w % s);
            assert(k <= n + 1) by (nonlinear_arith)
                requires
                    w == s * k + m,
                    w == n + s - 1,
                    0 <= m < s,
                    n >= 0,
                    s >= 1,
            ;
            assert(k >= 0) by (nonlinear_arith)
                requires
                    w == s * k + m,
                    w >= 0,
                    0 <= m < s,
                    s >= 1,
            ;
        }
    }
    assert(c * u <= n * u + u) by (nonlinear_arith)
        requires
            c <= n + 1,
            u > 0,
    ;
}

/// No pixel that shows a part of the volume is left out: where the place that a pixel comes from lies
/// in the volume, widened by half a voxel for trilinear interpolation, by more than rounding can move
/// it, the pixel is sampled.
#[verifier::rlimit(40)]
pub proof fn pixels_in_the_volume_are_sampled(
    r: RendererView,
    g: Seq<Seq<int>>,
    in_dims: Seq<nat>,
    out_dims: Seq<nat>,
    track: TrackView,
    p: int,
    x: nat,
    y: nat,
    z: nat,
    b: int,
    q: int,
    margin: int,
    wide: int,
)
    requires
        wide == match r.interp {
            Interp::Nearest => 0,
            Interp::Trilinear => half(),
        },
        renders_pixel(r, g, in_dims, out_dims, track, p, x, y, z, b, q),
        0x8000_0000 * margin >= (b * q) * one(),
        forall|i: int|
            0 <= i < 3 ==> {
                let at = #[trigger] pixel_source(r, g, in_dims, out_dims, track, p, x, y, z, i);
                edge_at(r, p, i, -wide) + margin <= at <= edge_at(
                    r,
                    p,
                    i,
                    r.geoms[p].in_dims[i] * one() + wide,
                ) - margin
            },
    ensures
        row_touched(r.geoms[p], r.row_start(p, y, z), r.geoms[p].step_x(), wide) matches Some((x0, x1))
            && x0 <= x < x1,
{
    let u = one() as int;
    let gm = r.geoms[p];
    let d = gm.in_dims;
    let rr = b * q;
    lemma_one_is_large();
    lemma_half_value();
    assert(rr >= u * q && rr > 0) by (nonlinear_arith)
        requires
            rr == b * q,
            b >= u,
            q >= u,
            u > 0,
    ;
    let e = lemma_margin(margin, rr, q);
    lemma_margin_positive(margin, rr);
    let (q0, dq) = (r.row_start(p, y, z), gm.step_x());
    let size = 0x8000_0000_0000 * e;
    assert forall|i: int| 0 <= i < 3 implies {
        &&& #[trigger] d[i] < 0x20_0000_0000_0000
        &&& d[i] * u + wide <= size
        &&& magnitude_of(q0[i]) <= size
        &&& magnitude_of(dq[i]) <= size
        &&& q0[i] + x * dq[i] >= 3 * e - wide
        &&& q0[i] + x * dq[i] <= d[i] * u + wide - 3 * e
    } by {
        let at = pixel_source(r, g, in_dims, out_dims, track, p, x, y, z, i);
        let c = d[i] as int;
        lemma_pixel_places(r, g, in_dims, out_dims, track, p, x, y, z, b, q, margin, i, e, -wide);
        lemma_pixel_places(
            r, g, in_dims, out_dims, track, p, x, y, z, b, q, margin, i, e, c * u + wide,
        );
        lemma_plane_side(r, g, in_dims, out_dims, track, p, x, y, z, b, q, i);
        let (mq, md, w) = (magnitude_of(q0[i]), magnitude_of(dq[i]), c * u + wide);
        assert(mq <= size && md <= size && w <= size) by (nonlinear_arith)
            requires
                size == 0x8000_0000_0000 * e,
                0x40_0000_0000 * (u * e) >= rr,
                mq * u <= 83 * rr,
                md <= 8 * b,
                w <= 17 * q,
                rr == b * q,
                b >= u,
                q >= u,
                u > 0,
                e > 0,
        {
            assert(0x200 * rr <= size * u);
            assert(mq * u <= size * u);
            assert(md * u <= 8 * (b * q));
            assert(w * u <= 17 * (b * q));
        }
    }
    lemma_x_size(r, x, p, in_dims, out_dims, track, y, z, q);
    let xu = x * u;
    assert(0x40_0000_0000 * e >= xu) by (nonlinear_arith)
        requires
            0x40_0000_0000 * (u * e) >= rr,
            rr >= u * q,
            xu <= q,
            u > 0,
    ;
    assert(size >= u) by (nonlinear_arith)
        requires
            size == 0x8000_0000_0000 * e,
            0x40_0000_0000 * (u * e) >= rr,
            rr >= u * q,
            q >= u,
            u > 0,
            e > 0,
    {
        assert(0x40_0000_0000 * e >= q);
    }
    lemma_touched(gm, q0, dq, wide, x, size, e);
}

} // verus!
