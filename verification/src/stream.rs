//! A rotation that keeps the time axis gives the same frames one by one as from the whole volume.

use vstd::prelude::*;
use vstd::arithmetic::power2::{lemma2_to64, lemma_pow2_pos};
use crate::binary32::{product32, unity};
use crate::binary64::{
    difference, fraction, one, product, quotient, whole_numbers_are_exact, zero_product,
};
use crate::exact::{
    at, lemma_at, lemma_at_shift, lemma_at_sum, lemma_bounds, lemma_corner, lemma_found,
    lemma_met_still, lemma_middle, lemma_picked, lemma_placed, lemma_samples, lemma_still,
    lemma_unity, lemma_whole_part, mid, spots, still_plane,
};
use crate::geometry::{applied, dot, in_plane};
use crate::mapping::{steps, GeometryView};
use crate::render::{
    along, cell, met, met_all, row_touched, tap_x, tap_y, tap_z, taps, weights, RendererView,
    TapView,
};
use crate::track::{half, TrackView};
use crate::volume::Interp;

verus! {

/// The rotation turns the frames in themselves, and keeps time or turns it around.
pub open spec fn only_in_plane(g: Seq<Seq<int>>) -> bool {
    &&& g[0][2] == 0 && g[1][2] == 0
    &&& g[2][0] == 0 && g[2][1] == 0
    &&& g[2][2] == one() || g[2][2] == -(one() as int)
}

/// The input frame that output frame `z` of `d` shows: the other way round when time is turned
/// around.
pub open spec fn shown_frame(g: Seq<Seq<int>>, d: nat, z: nat) -> int {
    if g[2][2] < 0 {
        d - 1 - z
    } else {
        z as int
    }
}

/// Rotating a plane of a frame and rotating the plane of the volume, in width and height.
proof fn lemma_same_dot(row: Seq<int>, v: Seq<int>, w: Seq<int>)
    requires
        row[2] == 0,
        v[0] == w[0],
        v[1] == w[1],
    ensures
        dot(row, v) == dot(row, w),
{
    zero_product(v[2]);
    zero_product(w[2]);
}

/// The inverse rotation of a plane keeps time apart.
proof fn lemma_inverse_in_plane(g: Seq<Seq<int>>, sx: nat, sy: nat, a: int)
    requires
        only_in_plane(g),
        0 <= a < 2,
    ensures
        quotient(product(g[2][a], steps(sx, sy)[2]), steps(sx, sy)[a]) == 0,
        quotient(product(g[a][2], steps(sx, sy)[a]), steps(sx, sy)[2]) == 0,
        quotient(product(g[2][2], steps(sx, sy)[2]), steps(sx, sy)[2]) == g[2][2],
{
    let s = seq![sx, sy, 0nat];
    lemma2_to64();
    assert(1 * one() == one());
    lemma_at_shift(0, s[a]);
    lemma_at_shift(0, 0);
    zero_product(steps(sx, sy)[2]);
    zero_product(steps(sx, sy)[a]);
}

/// The plane of the volume and the plane of a frame.
pub open spec fn volume_plane(
    g: Seq<Seq<int>>,
    size: Seq<nat>,
    out: Seq<nat>,
    d: nat,
    zc: int,
    sx: nat,
    sy: nat,
) -> GeometryView {
    still_plane(g, seq![size[0], size[1], d], seq![out[0], out[1], d], zc, sx, sy)
}

/// Where a voxel of the volume comes from along time: from the middle of a frame.
proof fn lemma_time(
    g: Seq<Seq<int>>,
    size: Seq<nat>,
    out: Seq<nat>,
    d: nat,
    zc: int,
    sx: nat,
    sy: nat,
    y: nat,
    z: nat,
)
    requires
        only_in_plane(g),
        sx <= 2,
        sy <= 2,
        size.len() == 2,
        out.len() == 2,
        out[0] < 0x1_0000_0000_0000,
        out[1] < 0x1_0000_0000_0000,
        y < 0x1_0000_0000_0000,
        z < d < 0x1_0000_0000_0000,
    ensures
        ({
            let m = volume_plane(g, size, out, d, zc, sx, sy);
            let q = m.mapped(0, fraction(y, 1) as int, fraction(z, 1) as int);
            q[2] == at(16 * shown_frame(g, d, z) + 8)
        }),
{
    let m = volume_plane(g, size, out, d, zc, sx, sy);
    let (in_dims, out_dims) = (seq![size[0], size[1], d], seq![out[0], out[1], d]);
    let c = seq![0nat, y, z];
    let s = seq![sx, sy, 0nat];
    let k = spots(out_dims, s, c);
    whole_numbers_are_exact(0);
    assert(0 * one() == 0);
    let v = m.placed(0, fraction(y, 1) as int, fraction(z, 1) as int);
    lemma_placed(g, in_dims, out_dims, zc, sx, sy, c, 0);
    lemma_placed(g, in_dims, out_dims, zc, sx, sy, c, 1);
    lemma_placed(g, in_dims, out_dims, zc, sx, sy, c, 2);
    lemma_inverse_in_plane(g, sx, sy, 0);
    lemma_inverse_in_plane(g, sx, sy, 1);
    let flip = g[2][2] < 0;
    lemma_at(0);
    lemma_picked(m.inv[2], v, 2, flip, k);
    lemma_middle(g, in_dims, out_dims, zc, sx, sy, 2);
    let w = if flip {
        -k[2]
    } else {
        k[2]
    };
    lemma_found(
        m,
        0,
        fraction(y, 1) as int,
        fraction(z, 1) as int,
        2,
        w,
        mid(d, 0),
    );
}

/// Where voxels come from in width and height does not depend on time.
proof fn lemma_width_and_height(
    g: Seq<Seq<int>>,
    size: Seq<nat>,
    out: Seq<nat>,
    d: nat,
    zc: int,
    zc1: int,
    sx: nat,
    sy: nat,
    y: nat,
    z: nat,
    a: int,
)
    requires
        only_in_plane(g),
        size.len() == 2,
        out.len() == 2,
        0 <= a < 2,
    ensures
        ({
            let m = volume_plane(g, size, out, d, zc, sx, sy);
            let m1 = volume_plane(in_plane(g), size, out, 1, zc1, sx, sy);
            let q = m.mapped(0, fraction(y, 1) as int, fraction(z, 1) as int);
            let q1 = m1.mapped(0, fraction(y, 1) as int, fraction(0, 1) as int);
            &&& q[a] == q1[a]
            &&& m.step_x()[a] == m1.step_x()[a]
        }),
{
    let m = volume_plane(g, size, out, d, zc, sx, sy);
    let h = in_plane(g);
    let m1 = volume_plane(h, size, out, 1, zc1, sx, sy);
    let (fy, fz, f0) = (fraction(y, 1) as int, fraction(z, 1) as int, fraction(0, 1) as int);
    let (v, v1) = (m.placed(0, fy, fz), m1.placed(0, fy, f0));
    let (i3, o3) = (seq![size[0], size[1], d], seq![out[0], out[1], d]);
    let (i1, o1) = (seq![size[0], size[1], 1nat], seq![out[0], out[1], 1nat]);
    lemma_still(g, i3, o3, zc, sx, sy, fz, 0);
    lemma_still(g, i3, o3, zc, sx, sy, fz, 1);
    lemma_still(h, i1, o1, zc1, sx, sy, f0, 0);
    lemma_still(h, i1, o1, zc1, sx, sy, f0, 1);
    lemma_inverse_in_plane(g, sx, sy, a);
    assert(m.inv[a] =~= m1.inv[a]);
    lemma_same_dot(m.inv[a], v, v1);
    assert(applied(m.inv, v)[a] == dot(m.inv[a], v));
    assert(applied(m1.inv, v1)[a] == dot(m1.inv[a], v1));
}

/// Along time a row stays in one frame.
proof fn lemma_time_along(k: int, x: nat)
    requires
        0 <= k < 0x1_0000_0000_0000,
    ensures
        along(at(16 * k + 8), 0, x) == at(16 * k + 8),
{
    lemma_at(0);
    zero_product(fraction(x, 1) as int);
    lemma_at_sum(16 * k + 8, 0);
}

/// The rows of the volume and of a frame are rendered over the same part.
proof fn lemma_same_range(
    m: GeometryView,
    m1: GeometryView,
    q: Seq<int>,
    q1: Seq<int>,
    k: int,
    margin: int,
)
    requires
        m.in_dims.len() == 3,
        m1.in_dims.len() == 3,
        m.in_dims[0] == m1.in_dims[0],
        m.in_dims[1] == m1.in_dims[1],
        m.in_dims[2] < 0x1_0000_0000_0000,
        m1.in_dims[2] == 1,
        m.out_dims[0] == m1.out_dims[0],
        q[0] == q1[0],
        q[1] == q1[1],
        m.step_x()[0] == m1.step_x()[0],
        m.step_x()[1] == m1.step_x()[1],
        m.step_x()[2] == 0,
        m1.step_x()[2] == 0,
        0 <= k < m.in_dims[2],
        q[2] == at(16 * k + 8),
        q1[2] == at(8),
        margin == 0 || margin == half(),
    ensures
        row_touched(m, q, m.step_x(), margin) == row_touched(m1, q1, m1.step_x(), margin),
{
    let dq = m.step_x();
    let acc = (0int, fraction(m.out_dims[0], 1) as int);
    if let Some(a) = met(acc, q[0], dq[0], m.in_dims[0], margin) {
        if let Some(b) = met(a, q[1], dq[1], m.in_dims[1], margin) {
            lemma_met_still(b, k, m.in_dims[2], margin);
            lemma_met_still(b, 0, 1, margin);
        }
    }
    assert(met_all(m, q, dq, margin) == met_all(m1, q1, m1.step_x(), margin));
}

/// The same taps in another frame.
spec fn moved(t: TapView, t1: TapView, k: int) -> bool {
    &&& t.weight == t1.weight
    &&& match t1.voxel {
        Some((x, y, z)) => z == 0 && t.voxel == Some((x, y, k)),
        None => t.voxel is None,
    }
}

/// The same lists of taps in another frame.
spec fn all_moved(t: Seq<TapView>, t1: Seq<TapView>, k: int) -> bool {
    &&& t.len() == t1.len()
    &&& forall|i: int| 0 <= i < t.len() ==> moved(#[trigger] t[i], t1[i], k)
}

/// Lists of taps one after the other.
proof fn lemma_moved_add(a: Seq<TapView>, a1: Seq<TapView>, b: Seq<TapView>, b1: Seq<TapView>, k: int)
    requires
        all_moved(a, a1, k),
        all_moved(b, b1, k),
    ensures
        all_moved(a + b, a1 + b1, k),
{
    assert forall|i: int| 0 <= i < (a + b).len() implies moved(
        #[trigger] (a + b)[i],
        (a1 + b1)[i],
        k,
    ) by {
        if i < a.len() {
            assert(moved(a[i], a1[i], k));
        } else {
            assert(moved(b[i - a.len()], b1[i - a.len()], k));
        }
    }
}

proof fn lemma_moved_y(
    x: int,
    y: int,
    k: int,
    weight: nat,
    wx: (nat, nat),
    dims: Seq<nat>,
    dims1: Seq<nat>,
)
    requires
        dims[0] == dims1[0],
        dims[1] == dims1[1],
    ensures
        all_moved(tap_y(x, y, k, weight, wx, dims), tap_y(x, y, 0, weight, wx, dims1), k),
{
    if weight > 0 {
        let (l, r) = (product32(weight, wx.0), product32(weight, wx.1));
        lemma_moved_add(
            tap_x(x, y, k, l, dims),
            tap_x(x, y, 0, l, dims1),
            tap_x(x + 1, y, k, r, dims),
            tap_x(x + 1, y, 0, r, dims1),
            k,
        );
    }
}

/// The voxels around the middle of a frame are in that frame alone.
proof fn lemma_moved_taps(q: Seq<int>, q1: Seq<int>, k: int, dims: Seq<nat>, dims1: Seq<nat>)
    requires
        q[0] == q1[0],
        q[1] == q1[1],
        q[2] == at(16 * k),
        q1[2] == at(0),
        dims[0] == dims1[0],
        dims[1] == dims1[1],
        0 <= k < dims[2] < 0x1_0000_0000_0000,
        dims1[2] == 1,
    ensures
        all_moved(taps(q, dims), taps(q1, dims1), k),
{
    lemma_corner(k, q[2]);
    lemma_corner(0, q1[2]);
    lemma_unity(0);
    let (x, y) = (cell(q[0]), cell(q[1]));
    let (wx, wy) = (weights(q[0]), weights(q[1]));
    let (u, v) = (product32(unity(), wy.0), product32(unity(), wy.1));
    lemma_moved_y(x, y, k, u, wx, dims, dims1);
    lemma_moved_y(x, y + 1, k, v, wx, dims, dims1);
    lemma_moved_add(
        tap_y(x, y, k, u, wx, dims),
        tap_y(x, y, 0, u, wx, dims1),
        tap_y(x, y + 1, k, v, wx, dims),
        tap_y(x, y + 1, 0, v, wx, dims1),
        k,
    );
    let none = Seq::<TapView>::empty();
    lemma_moved_add(
        tap_z(x, y, k, unity(), wx, wy, dims),
        tap_z(x, y, 0, unity(), wx, wy, dims1),
        none,
        none,
        k,
    );
}

/// What the renderer of a volume and the renderer of its frames have in common.
spec fn alike(r: RendererView, s: RendererView, p: int) -> bool {
    &&& r.format == s.format
    &&& r.interp == s.interp
    &&& r.fill == s.fill
    &&& r.in_planes[p].offset == s.in_planes[p].offset
    &&& r.geoms[p].in_dims[0] == s.geoms[p].in_dims[0]
    &&& r.geoms[p].in_dims[1] == s.geoms[p].in_dims[1]
}

/// The same voxels give the same bytes.
#[verifier::rlimit(40)]
proof fn lemma_same_voxel(
    r: RendererView,
    s: RendererView,
    vol: Seq<Seq<u8>>,
    p: int,
    k: int,
    x: int,
    y: int,
)
    requires
        alike(r, s, p),
    ensures
        r.voxel_or_fill(vol, p, Some((x, y, k))) == s.voxel_or_fill(
            seq![vol[k]],
            p,
            Some((x, y, 0)),
        ),
        r.voxel_or_fill(vol, p, None) == s.voxel_or_fill(seq![vol[k]], p, None),
{
}

/// The same taps give the same samples.
#[verifier::rlimit(40)]
proof fn lemma_same_blend(
    r: RendererView,
    s: RendererView,
    vol: Seq<Seq<u8>>,
    p: int,
    k: int,
    t: Seq<TapView>,
    t1: Seq<TapView>,
    c: int,
)
    requires
        alike(r, s, p),
        all_moved(t, t1, k),
    ensures
        r.blended(vol, p, t, c) == s.blended(seq![vol[k]], p, t1, c),
    decreases t.len(),
{
    if t.len() > 0 {
        let n = t.len() - 1;
        assert(moved(t[n], t1[n], k));
        assert forall|i: int| 0 <= i < n implies moved(
            #[trigger] t.drop_last()[i],
            t1.drop_last()[i],
            k,
        ) by {
            assert(moved(t[i], t1[i], k));
        }
        lemma_same_blend(r, s, vol, p, k, t.drop_last(), t1.drop_last(), c);
        if let Some((x, y, z)) = t1.last().voxel {
            lemma_same_voxel(r, s, vol, p, k, x, y);
        } else {
            lemma_same_voxel(r, s, vol, p, k, 0, 0);
        }
        assert(r.tap_sample(vol, p, t.last(), c) == s.tap_sample(seq![vol[k]], p, t1.last(), c));
    }
}

#[verifier::rlimit(40)]
proof fn lemma_same_blends(
    r: RendererView,
    s: RendererView,
    vol: Seq<Seq<u8>>,
    p: int,
    k: int,
    t: Seq<TapView>,
    t1: Seq<TapView>,
    n: nat,
)
    requires
        alike(r, s, p),
        all_moved(t, t1, k),
    ensures
        r.blended_bytes(vol, p, t, n) == s.blended_bytes(seq![vol[k]], p, t1, n),
    decreases n,
{
    if n > 0 {
        lemma_same_blends(r, s, vol, p, k, t, t1, (n - 1) as nat);
        lemma_same_blend(r, s, vol, p, k, t, t1, n - 1);
    }
}

/// Rows of the volume and of a frame that start at the same place: what they have in common.
spec fn rows_alike(
    r: RendererView,
    s: RendererView,
    p: int,
    q: Seq<int>,
    q1: Seq<int>,
    k: int,
) -> bool {
    let (m, m1) = (r.geoms[p], s.geoms[p]);
    &&& m.in_dims.len() == 3 && m1.in_dims.len() == 3
    &&& 0 <= k < m.in_dims[2] < 0x1_0000_0000_0000
    &&& m1.in_dims[2] == 1
    &&& m.out_dims[0] == m1.out_dims[0]
    &&& q[0] == q1[0] && q[1] == q1[1]
    &&& q[2] == at(16 * k + 8) && q1[2] == at(8)
    &&& m.step_x()[0] == m1.step_x()[0] && m.step_x()[1] == m1.step_x()[1]
    &&& m.step_x()[2] == 0 && m1.step_x()[2] == 0
}

/// A pixel of the volume is the pixel of a frame.
#[verifier::rlimit(40)]
proof fn lemma_same_row_pixel(
    r: RendererView,
    s: RendererView,
    vol: Seq<Seq<u8>>,
    p: int,
    q: Seq<int>,
    q1: Seq<int>,
    k: int,
    x: nat,
)
    requires
        alike(r, s, p),
        rows_alike(r, s, p, q, q1, k),
    ensures
        r.row_pixel(vol, p, q, x) == s.row_pixel(seq![vol[k]], p, q1, x),
{
    let (m, m1) = (r.geoms[p], s.geoms[p]);
    let (dq, dq1) = (m.step_x(), m1.step_x());
    lemma_same_range(m, m1, q, q1, k, r.margin());
    lemma_time_along(k, x);
    lemma_time_along(0, x);
    let a = seq![along(q[0], dq[0], x), along(q[1], dq[1], x), along(q[2], dq[2], x)];
    let b = seq![along(q1[0], dq1[0], x), along(q1[1], dq1[1], x), along(q1[2], dq1[2], x)];
    assert(a[0] == b[0] && a[1] == b[1]);
    match r.interp {
        Interp::Nearest => {
            lemma_whole_part(k, 8);
            lemma_whole_part(0, 8);
            lemma_same_voxel(r, s, vol, p, k, cell(a[0]), cell(a[1]));
        },
        Interp::Trilinear => {
            lemma_bounds(0, 0);
            lemma_at_sum(16 * k + 8, 8);
            lemma_at_sum(8, 8);
            let h = seq![difference(a[0], half()), difference(a[1], half()), difference(a[2], half())];
            let h1 = seq![
                difference(b[0], half()),
                difference(b[1], half()),
                difference(b[2], half()),
            ];
            lemma_moved_taps(h, h1, k, m.in_dims, m1.in_dims);
            lemma_same_blends(
                r,
                s,
                vol,
                p,
                k,
                taps(h, m.in_dims),
                taps(h1, m1.in_dims),
                r.format.planes[p].channels,
            );
        },
    }
}

/// The renderer of a volume, and the renderer of its frames one by one.
#[verifier::opaque]
pub open spec fn streams(
    r: RendererView,
    s: RendererView,
    g: Seq<Seq<int>>,
    size: Seq<nat>,
    out: Seq<nat>,
    d: nat,
    zc: int,
    zc1: int,
) -> bool {
    &&& r.wf()
    &&& s.wf()
    &&& r.renders(
        r.format,
        g,
        seq![size[0], size[1], d],
        seq![out[0], out[1], d],
        TrackView::centred(zc),
        r.interp,
        r.fill,
    )
    &&& s.renders(
        r.format,
        in_plane(g),
        seq![size[0], size[1], 1],
        seq![out[0], out[1], 1],
        TrackView::centred(zc1),
        r.interp,
        r.fill,
    )
    &&& size.len() == 2 && out.len() == 2
    &&& 0 < size[0] < 0x1_0000_0000_0000
    &&& 0 < size[1] < 0x1_0000_0000_0000
    &&& 0 < out[0] < 0x1_0000_0000_0000
    &&& 0 < out[1] < 0x1_0000_0000_0000
    &&& d < 0x1_0000_0000_0000
    &&& only_in_plane(g)
}

/// The planes of both renderers.
#[verifier::rlimit(40)]
proof fn lemma_streamed_plane(
    r: RendererView,
    s: RendererView,
    g: Seq<Seq<int>>,
    size: Seq<nat>,
    out: Seq<nat>,
    d: nat,
    zc: int,
    zc1: int,
    p: int,
    y: nat,
    z: nat,
)
    requires
        streams(r, s, g, size, out, d, zc, zc1),
        0 <= p < r.format.planes.len(),
        y < r.out_planes[p].h,
        z < d,
    ensures
        alike(r, s, p),
        rows_alike(
            r,
            s,
            p,
            r.row_start(p, y, z),
            s.row_start(p, y, 0),
            shown_frame(g, d, z),
        ),
{
    reveal(streams);
    let (sx, sy) = (r.format.planes[p].sx, r.format.planes[p].sy);
    let h = in_plane(g);
    assert(r.geoms[p] == volume_plane(g, size, out, d, zc, sx, sy));
    assert(s.geoms[p] == volume_plane(h, size, out, 1, zc1, sx, sy));
    assert(r.in_planes[p].is_plane(r.format, p, size[0], size[1]));
    assert(s.in_planes[p].is_plane(r.format, p, size[0], size[1]));
    assert(r.out_planes[p].is_plane(r.format, p, out[0], out[1]));
    lemma_samples(out[1], sy);
    lemma_width_and_height(g, size, out, d, zc, zc1, sx, sy, y, z, 0);
    lemma_width_and_height(g, size, out, d, zc, zc1, sx, sy, y, z, 1);
    lemma_time(g, size, out, d, zc, sx, sy, y, z);
    lemma_time(h, size, out, 1, zc1, sx, sy, y, 0);
    lemma_inverse_in_plane(g, sx, sy, 0);
    lemma_inverse_in_plane(h, sx, sy, 0);
    whole_numbers_are_exact(0);
    lemma_pow2_pos(1074);
}

/// The rows of the volume are those of its frames.
#[verifier::rlimit(40)]
proof fn lemma_streamed_row(
    r: RendererView,
    s: RendererView,
    g: Seq<Seq<int>>,
    size: Seq<nat>,
    out: Seq<nat>,
    d: nat,
    zc: int,
    zc1: int,
    vol: Seq<Seq<u8>>,
    p: int,
    y: nat,
    z: nat,
    n: nat,
)
    requires
        streams(r, s, g, size, out, d, zc, zc1),
        0 <= p < r.format.planes.len(),
        y < r.out_planes[p].h,
        z < d,
    ensures
        r.row(vol, p, y, z, n) == s.row(seq![vol[shown_frame(g, d, z)]], p, y, 0, n),
    decreases n,
{
    if n > 0 {
        let x = (n - 1) as nat;
        lemma_streamed_row(r, s, g, size, out, d, zc, zc1, vol, p, y, z, x);
        lemma_streamed_plane(r, s, g, size, out, d, zc, zc1, p, y, z);
        lemma_same_row_pixel(
            r,
            s,
            vol,
            p,
            r.row_start(p, y, z),
            s.row_start(p, y, 0),
            shown_frame(g, d, z),
            x,
        );
    }
}

/// The planes of the volume are those of its frames.
#[verifier::rlimit(40)]
proof fn lemma_streamed_rows(
    r: RendererView,
    s: RendererView,
    g: Seq<Seq<int>>,
    size: Seq<nat>,
    out: Seq<nat>,
    d: nat,
    zc: int,
    zc1: int,
    vol: Seq<Seq<u8>>,
    p: int,
    z: nat,
    n: nat,
)
    requires
        streams(r, s, g, size, out, d, zc, zc1),
        0 <= p < r.format.planes.len(),
        r.out_planes[p].w == s.out_planes[p].w,
        n <= r.out_planes[p].h,
        z < d,
    ensures
        r.plane(vol, p, z, n) == s.plane(seq![vol[shown_frame(g, d, z)]], p, 0, n),
    decreases n,
{
    if n > 0 {
        let y = (n - 1) as nat;
        lemma_streamed_rows(r, s, g, size, out, d, zc, zc1, vol, p, z, y);
        let w = r.out_planes[p].w as nat;
        lemma_streamed_row(r, s, g, size, out, d, zc, zc1, vol, p, y, z, w);
    }
}

#[verifier::rlimit(40)]
proof fn lemma_streamed_planes(
    r: RendererView,
    s: RendererView,
    g: Seq<Seq<int>>,
    size: Seq<nat>,
    out: Seq<nat>,
    d: nat,
    zc: int,
    zc1: int,
    vol: Seq<Seq<u8>>,
    z: nat,
    n: nat,
)
    requires
        streams(r, s, g, size, out, d, zc, zc1),
        n <= r.format.planes.len(),
        z < d,
    ensures
        r.frame(vol, z, n) == s.frame(seq![vol[shown_frame(g, d, z)]], 0, n),
    decreases n,
{
    if n > 0 {
        let p = n - 1;
        lemma_streamed_planes(r, s, g, size, out, d, zc, zc1, vol, z, p as nat);
        assert(r.out_planes[p].w == s.out_planes[p].w && r.out_planes[p].h == s.out_planes[p].h)
            by {
            reveal(streams);
            assert(r.out_planes[p].is_plane(r.format, p, out[0], out[1]));
            assert(s.out_planes[p].is_plane(r.format, p, out[0], out[1]));
        }
        let h = r.out_planes[p].h as nat;
        lemma_streamed_rows(r, s, g, size, out, d, zc, zc1, vol, p, z, h);
    }
}

/// A rotation that keeps the time axis can be streamed: rendering frame by frame, with time forward,
/// gives the frames that the whole volume gives, in order, or in reverse order when time is turned
/// around.
#[verifier::rlimit(40)]
pub proof fn frames_can_be_rotated_one_by_one(
    r: RendererView,
    s: RendererView,
    g: Seq<Seq<int>>,
    size: Seq<nat>,
    out: Seq<nat>,
    d: nat,
    zc: int,
    zc1: int,
    vol: Seq<Seq<u8>>,
    z: nat,
)
    requires
        streams(r, s, g, size, out, d, zc, zc1),
        z < d,
    ensures
        r.frame(vol, z, r.format.planes.len()) == s.frame(
            seq![vol[shown_frame(g, d, z)]],
            0,
            s.format.planes.len(),
        ),
        0 <= shown_frame(g, d, z) < d,
{
    reveal(streams);
    lemma_streamed_planes(r, s, g, size, out, d, zc, zc1, vol, z, r.format.planes.len());
}

} // verus!
