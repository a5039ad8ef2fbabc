//! Where a rendered pixel stands in the bytes of a frame.

use vstd::prelude::*;
use crate::pixfmt::planes_tile_the_frame;
use crate::render::{lemma_frame_len, lemma_pixel_len, lemma_plane_len, lemma_row_len, RendererView};

verus! {

proof fn lemma_row_holds(r: RendererView, vol: Seq<Seq<u8>>, p: int, y: nat, z: nat, n: nat, x: nat)
    requires
        r.wf(),
        r.reads(vol),
        0 <= p < r.geoms.len(),
        x < n,
    ensures
        ({
            let b = r.format.bpp(p);
            &&& r.row(vol, p, y, z, n).len() == n * b
            &&& x * b + b <= n * b
            &&& r.row(vol, p, y, z, n).subrange((x * b) as int, (x * b + b) as int) == r.pixel(
                vol,
                p,
                x,
                y,
                z,
            )
        }),
    decreases n,
{
    let b = r.format.bpp(p);
    let m = (n - 1) as nat;
    lemma_row_len(r, vol, p, y, z, n);
    lemma_row_len(r, vol, p, y, z, m);
    lemma_pixel_len(r, vol, p, r.row_start(p, y, z), m);
    assert(m * b + b == n * b) by (nonlinear_arith)
        requires
            n == m + 1,
    ;
    let row = r.row(vol, p, y, z, n);
    if x == m {
        assert(row.subrange((x * b) as int, (x * b + b) as int) =~= r.pixel(vol, p, x, y, z));
    } else {
        lemma_row_holds(r, vol, p, y, z, m, x);
        assert(row.subrange((x * b) as int, (x * b + b) as int) =~= r.row(vol, p, y, z, m).subrange(
            (x * b) as int,
            (x * b + b) as int,
        ));
    }
}

proof fn lemma_plane_holds(
    r: RendererView,
    vol: Seq<Seq<u8>>,
    p: int,
    z: nat,
    n: nat,
    x: nat,
    y: nat,
)
    requires
        r.wf(),
        r.reads(vol),
        0 <= p < r.geoms.len(),
        x < r.out_planes[p].w,
        y < n,
    ensures
        ({
            let b = r.format.bpp(p);
            let at = (y * r.out_planes[p].w + x) * b;
            let plane = r.plane(vol, p, z, n);
            &&& at + b <= plane.len()
            &&& plane.subrange(at as int, (at + b) as int) == r.pixel(vol, p, x, y, z)
        }),
    decreases n,
{
    let b = r.format.bpp(p);
    let w = r.out_planes[p].w as nat;
    let m = (n - 1) as nat;
    let at = (y * w + x) * b;
    lemma_plane_len(r, vol, p, z, n);
    lemma_plane_len(r, vol, p, z, m);
    lemma_row_len(r, vol, p, m, z, w);
    lemma_row_holds(r, vol, p, y, z, w, x);
    let (plane, front, row) = (
        r.plane(vol, p, z, n),
        r.plane(vol, p, z, m),
        r.row(vol, p, m, z, w),
    );
    assert(plane == front + row);
    assert(at == (w * y) * b + x * b) by (nonlinear_arith)
        requires
            at == (y * w + x) * b,
    ;
    if y == m {
        assert(plane.subrange(at as int, (at + b) as int) =~= row.subrange(
            (x * b) as int,
            (x * b + b) as int,
        ));
    } else {
        lemma_plane_holds(r, vol, p, z, m, x, y);
        assert(plane.subrange(at as int, (at + b) as int) =~= front.subrange(
            at as int,
            (at + b) as int,
        ));
    }
}

/// What the first planes hold stays where it is when others follow.
proof fn lemma_frame_begins(r: RendererView, vol: Seq<Seq<u8>>, z: nat, m: nat, n: nat)
    requires
        m <= n,
    ensures
        r.frame(vol, z, m).len() <= r.frame(vol, z, n).len(),
        r.frame(vol, z, n).take(r.frame(vol, z, m).len() as int) == r.frame(vol, z, m),
    decreases n,
{
    let k = r.frame(vol, z, m).len() as int;
    if m < n {
        lemma_frame_begins(r, vol, z, m, (n - 1) as nat);
        let front = r.frame(vol, z, (n - 1) as nat);
        assert(r.frame(vol, z, n).take(k) =~= front.take(k));
    } else {
        assert(r.frame(vol, z, n).take(k) =~= r.frame(vol, z, n));
    }
}

/// A rendered frame holds its planes one behind the other, each row by row from the top, each row
/// pixel by pixel from the left: the bytes of pixel `(x, y)` of a plane stand where the layout of the
/// output says.
pub proof fn pixels_stand_in_their_places(
    r: RendererView,
    g: Seq<Seq<int>>,
    in_dims: Seq<nat>,
    out_dims: Seq<nat>,
    track: crate::track::TrackView,
    vol: Seq<Seq<u8>>,
    p: int,
    x: nat,
    y: nat,
    z: nat,
)
    requires
        r.wf(),
        r.reads(vol),
        r.renders(r.format, g, in_dims, out_dims, track, r.interp, r.fill),
        0 <= p < r.format.planes.len(),
        x < r.out_planes[p].w,
        y < r.out_planes[p].h,
    ensures
        ({
            let frame = r.frame(vol, z, r.format.planes.len());
            let n = r.format.planes[p].channels * r.format.bytes;
            let at = r.out_planes[p].offset + (y * r.out_planes[p].w + x) * n;
            &&& frame.len() == r.out_size()
            &&& at + n <= frame.len()
            &&& frame.subrange(at as int, (at + n) as int) == r.pixel(vol, p, x, y, z)
        }),
{
    let n = r.format.planes.len();
    let (w, h) = (out_dims[0], out_dims[1]);
    assert forall|k: int| 0 <= k < r.out_planes.len() implies (#[trigger] r.out_planes[k]).offset
        == if k == 0 {
        0
    } else {
        r.out_planes[k - 1].offset + r.out_planes[k - 1].bytes
    } by {
        assert(r.out_planes[k].is_plane(r.format, k, w, h));
        if k > 0 {
            assert(r.out_planes[k - 1].is_plane(r.format, k - 1, w, h));
            planes_tile_the_frame(r.format, w, h, k - 1);
        }
    }
    lemma_frame_len(r, vol, z, n);
    lemma_frame_len(r, vol, z, (p + 1) as nat);
    if p > 0 {
        lemma_frame_len(r, vol, z, p as nat);
    }
    let b = r.format.bpp(p);
    let reg = r.out_planes[p];
    let at = (y * reg.w + x) * b;
    lemma_plane_holds(r, vol, p, z, reg.h as nat, x, y);
    lemma_frame_begins(r, vol, z, (p + 1) as nat, n);
    let (frame, part) = (r.frame(vol, z, n), r.frame(vol, z, (p + 1) as nat));
    let plane = r.plane(vol, p, z, reg.h as nat);
    assert(part == r.frame(vol, z, p as nat) + plane);
    let (i, j) = ((reg.offset + at) as int, (reg.offset + at + b) as int);
    assert(r.frame(vol, z, p as nat).len() == reg.offset);
    assert(part.subrange(i, j) =~= plane.subrange(at as int, (at + b) as int));
    assert(frame.subrange(i, j) =~= frame.take(part.len() as int).subrange(i, j));
}

} // verus!
