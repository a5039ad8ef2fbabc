//! Rendering: the samples of output rows and frames.

use vstd::prelude::*;
use vstd::slice::slice_subrange;
use crate::binary32::{
    complement32, narrowed, narrowing_keeps_one, product32, sum32, unity, Single,
};
use crate::binary64::{
    ceiling_of, clamped, difference, floor_of, fraction, fractions_stay_below_one, magnitude_of,
    one, product, quotient, sum, Float,
};
use crate::geometry::{coords, grid, sides, vector_within, within, Mat3};
use crate::mapping::{plane_mapping, Geometry, GeometryView};
use crate::pixfmt::{
    planes_tile_the_frame, sample_bytes, voxels, FormatView, PixelFormat, Region,
};
use crate::track::{half, Track, TrackView};
use crate::volume::{nearest_sample, Frames, Interp, Sample, U16Le, U8};

verus! {

/// The input coordinate of output voxel `x` in a row that starts at `q0`.
pub open spec fn along(q0: int, dq: int, x: nat) -> int {
    sum(q0, product(fraction(x, 1) as int, dq))
}

/// What is left of a range of a row where it meets the slab between 0 and `dim`, widened by a margin.
pub open spec fn met(acc: (int, int), q0: int, dq: int, dim: nat, margin: int) -> Option<
    (int, int),
> {
    let lo = -margin;
    let hi = sum(fraction(dim, 1) as int, margin);
    if magnitude_of(dq) < fraction(1, 1_000_000_000_000) {
        if q0 < lo || q0 > hi {
            None
        } else {
            Some(acc)
        }
    } else {
        let t1 = quotient(difference(lo, q0), dq);
        let t2 = quotient(difference(hi, q0), dq);
        let (enter, leave) = if t1 < t2 {
            (t1, t2)
        } else {
            (t2, t1)
        };
        Some(
            (
                if enter > acc.0 {
                    enter
                } else {
                    acc.0
                },
                if leave < acc.1 {
                    leave
                } else {
                    acc.1
                },
            ),
        )
    }
}

/// The range of a row that meets all three slabs.
pub open spec fn met_all(g: GeometryView, q0: Seq<int>, dq: Seq<int>, margin: int) -> Option<
    (int, int),
> {
    match met((0, fraction(g.out_dims[0], 1) as int), q0[0], dq[0], g.in_dims[0], margin) {
        None => None,
        Some(a) => match met(a, q0[1], dq[1], g.in_dims[1], margin) {
            None => None,
            Some(b) => met(b, q0[2], dq[2], g.in_dims[2], margin),
        },
    }
}

/// Output x range whose sample points can touch the (margin-expanded) input box.
pub open spec fn row_touched(g: GeometryView, q0: Seq<int>, dq: Seq<int>, margin: int) -> Option<
    (nat, nat),
> {
    match met_all(g, q0, dq, margin) {
        None => None,
        Some((tmin, tmax)) => if tmin >= tmax {
            None
        } else {
            let w = fraction(g.out_dims[0], 1) as int;
            let u = one() as int;
            let before = difference(floor_of(tmin) * u, u);
            let after = sum(ceiling_of(tmax) * u, u);
            let x0 = clamped(
                floor_of(
                    if before > 0 {
                        before
                    } else {
                        0
                    },
                ),
                0,
                usize::MAX as int,
            ) as nat;
            let x1 = clamped(
                floor_of(
                    if after < w {
                        after
                    } else {
                        w
                    },
                ),
                0,
                usize::MAX as int,
            ) as nat;
            if x0 < x1 {
                Some((x0, x1))
            } else {
                None
            }
        },
    }
}

fn meet(acc: (Float, Float), q0: Float, dq: Float, dim: usize, margin: Float) -> (r: Option<
    (Float, Float),
>)
    requires
        acc.0.wf() && acc.0.e <= 0x100_0000_0000_0000_0000_0000,
        acc.1.wf() && acc.1.e <= 0x100_0000_0000_0000_0000_0000,
        q0.wf() && q0.e <= 0x10_0000_0000_0000_0000_0000,
        dq.wf() && dq.e <= 0x1_1000,
        margin.wf() && margin.e <= 2000,
    ensures
        match r {
            Some(o) => met(
                (acc.0.value(), acc.1.value()),
                q0.value(),
                dq.value(),
                dim as nat,
                margin.value(),
            ) == Some((o.0.value(), o.1.value())),
            None => met(
                (acc.0.value(), acc.1.value()),
                q0.value(),
                dq.value(),
                dim as nat,
                margin.value(),
            ) is None,
        },
        r matches Some(o) ==> {
            &&& o.0.wf() && o.0.e <= 0x100_0000_0000_0000_0000_0000
            &&& o.1.wf() && o.1.e <= 0x100_0000_0000_0000_0000_0000
        },
{
    let lo = margin.negated();
    let hi = Float::from_u64(dim as u64).plus(margin);
    let tiny = Float::ratio(1, 1_000_000_000_000);
    if dq.abs().less(tiny) {
        if q0.less(lo) || hi.less(q0) {
            None
        } else {
            Some(acc)
        }
    } else {
        proof {
            tiny.lemma_nonzero();
            dq.lemma_nonzero();
        }
        let t1 = lo.minus(q0).over(dq);
        let t2 = hi.minus(q0).over(dq);
        let (enter, leave) = if t1.less(t2) {
            (t1, t2)
        } else {
            (t2, t1)
        };
        Some((acc.0.max(enter), acc.1.min(leave)))
    }
}

fn to_usize(v: Float) -> (r: usize)
    requires
        v.wf(),
    ensures
        r == clamped(floor_of(v.value()), 0, usize::MAX as int),
{
    let n = v.floor_u64();
    if n > usize::MAX as u64 {
        usize::MAX
    } else {
        n as usize
    }
}

/// Output x range whose sample points can touch the (margin-expanded) input box.
pub fn row_range(g: &Geometry, q0: [Float; 3], dq: [Float; 3], margin: Float) -> (r: Option<
    (usize, usize),
>)
    requires
        vector_within(q0, 4000),
        vector_within(dq, 252),
        margin.wf() && margin.e <= 2000,
    ensures
        match r {
            Some((x0, x1)) => row_touched(g@, coords(q0), coords(dq), margin.value()) == Some(
                (x0 as nat, x1 as nat),
            ),
            None => row_touched(g@, coords(q0), coords(dq), margin.value()) is None,
        },
{
    let w = Float::from_u64(g.out_dims[0] as u64);
    let first = match meet((Float::zero(), w), q0[0], dq[0], g.in_dims[0], margin) {
        Some(a) => a,
        None => {
            return None;
        },
    };
    let second = match meet(first, q0[1], dq[1], g.in_dims[1], margin) {
        Some(a) => a,
        None => {
            return None;
        },
    };
    let (tmin, tmax) = match meet(second, q0[2], dq[2], g.in_dims[2], margin) {
        Some(a) => a,
        None => {
            return None;
        },
    };
    assert(met_all(g@, coords(q0), coords(dq), margin.value()) == Some(
        (tmin.value(), tmax.value()),
    ));
    if !tmin.less(tmax) {
        return None;
    }
    let u = Float::from_int(1);
    assert(1 * one() == one());
    let x0 = to_usize(Float::zero().max(tmin.floor().minus(u)));
    let x1 = to_usize(w.min(tmax.ceil().plus(u)));
    if x0 < x1 {
        Some((x0, x1))
    } else {
        None
    }
}

/// A sample in a frame.
pub open spec fn sample_at(data: Seq<u8>, at: int, bytes: nat) -> nat {
    if bytes == 1 {
        data[at] as nat
    } else {
        data[at] as nat + 256 * data[at + 1] as nat
    }
}

/// A voxel that goes into a sample, with its weight; nothing where the volume ends.
pub struct TapView {
    pub weight: nat,
    pub voxel: Option<(int, int, int)>,
}

/// The voxel at `(x, y, z)` in a row, weighted.
pub open spec fn tap_x(x: int, y: int, z: int, weight: nat, dims: Seq<nat>) -> Seq<TapView> {
    if weight == 0 {
        Seq::empty()
    } else {
        seq![
            TapView {
                weight,
                voxel: if 0 <= x < dims[0] && 0 <= y < dims[1] {
                    Some((x, y, z))
                } else {
                    None
                },
            },
        ]
    }
}

/// The voxels beside each other at `(x, y, z)`, weighted.
pub open spec fn tap_y(
    x: int,
    y: int,
    z: int,
    weight: nat,
    wx: (nat, nat),
    dims: Seq<nat>,
) -> Seq<TapView> {
    if weight == 0 {
        Seq::empty()
    } else {
        tap_x(x, y, z, product32(weight, wx.0), dims) + tap_x(
            x + 1,
            y,
            z,
            product32(weight, wx.1),
            dims,
        )
    }
}

/// The voxels of one frame around `(x, y, z)`, weighted: beyond the first and the last frame nothing
/// is left to weigh.
pub open spec fn tap_z(
    x: int,
    y: int,
    z: int,
    weight: nat,
    wx: (nat, nat),
    wy: (nat, nat),
    dims: Seq<nat>,
) -> Seq<TapView> {
    if weight == 0 {
        Seq::empty()
    } else if !(0 <= z < dims[2]) {
        seq![TapView { weight, voxel: None }]
    } else {
        tap_y(x, y, z, product32(weight, wy.0), wx, dims) + tap_y(
            x,
            y + 1,
            z,
            product32(weight, wy.1),
            wx,
            dims,
        )
    }
}

/// The fraction of a coordinate, and its rest to one.
pub open spec fn weights(q: int) -> (nat, nat) {
    let t = narrowed(difference(q, floor_of(q) * one()) as nat);
    (complement32(t), t)
}

/// The cell of a coordinate.
pub open spec fn cell(q: int) -> int {
    clamped(floor_of(q), i64::MIN as int, i64::MAX as int)
}

/// The voxels around a coordinate, weighted.
pub open spec fn taps(q: Seq<int>, dims: Seq<nat>) -> Seq<TapView> {
    let (x, y, z) = (cell(q[0]), cell(q[1]), cell(q[2]));
    let wz = weights(q[2]);
    tap_z(x, y, z, wz.0, weights(q[0]), weights(q[1]), dims) + tap_z(
        x,
        y,
        z + 1,
        wz.1,
        weights(q[0]),
        weights(q[1]),
        dims,
    )
}

/// A renderer as a value.
pub struct RendererView {
    pub format: FormatView,
    pub geoms: Seq<GeometryView>,
    pub in_planes: Seq<Region>,
    pub out_planes: Seq<Region>,
    pub interp: Interp,
    pub fill: Seq<Seq<u8>>,
}

impl RendererView {
    /// Where a voxel of a plane lies in a frame.
    pub open spec fn voxel_offset(self, p: int, x: int, y: int) -> int {
        self.in_planes[p].offset + (y * self.geoms[p].in_dims[0] + x) * self.format.bpp(p)
    }

    /// The voxel that a coordinate falls into; nothing outside the volume.
    pub open spec fn hit(self, p: int, q: Seq<int>) -> Option<(int, int, int)> {
        let d = self.geoms[p].in_dims;
        let (x, y, z) = (cell(q[0]), cell(q[1]), cell(q[2]));
        if 0 <= x < d[0] && 0 <= y < d[1] && 0 <= z < d[2] {
            Some((x, y, z))
        } else {
            None
        }
    }

    /// The bytes of a voxel, or the fill where there is none.
    pub open spec fn voxel_or_fill(
        self,
        vol: Seq<Seq<u8>>,
        p: int,
        v: Option<(int, int, int)>,
    ) -> Seq<u8> {
        match v {
            Some((x, y, z)) => {
                let at = self.voxel_offset(p, x, y);
                vol[z].subrange(at, at + self.format.bpp(p))
            },
            None => self.fill[p],
        }
    }

    /// Channel `c` of a weighted voxel.
    pub open spec fn tap_sample(self, vol: Seq<Seq<u8>>, p: int, t: TapView, c: int) -> nat {
        sample_at(
            self.voxel_or_fill(vol, p, t.voxel),
            c * self.format.bytes,
            self.format.bytes,
        )
    }

    /// Channel `c` of weighted voxels, added up in order.
    pub open spec fn blended(self, vol: Seq<Seq<u8>>, p: int, t: Seq<TapView>, c: int) -> nat
        decreases t.len(),
    {
        if t.len() == 0 {
            0
        } else {
            sum32(
                self.blended(vol, p, t.drop_last(), c),
                product32(t.last().weight, self.tap_sample(vol, p, t.last(), c) * unity()),
            )
        }
    }

    /// The first `n` channels of weighted voxels, as bytes.
    pub open spec fn blended_bytes(
        self,
        vol: Seq<Seq<u8>>,
        p: int,
        t: Seq<TapView>,
        n: nat,
    ) -> Seq<u8>
        decreases n,
    {
        if n == 0 {
            Seq::empty()
        } else {
            let top: nat = if self.format.bytes == 1 {
                255
            } else {
                65535
            };
            self.blended_bytes(vol, p, t, (n - 1) as nat) + sample_bytes(
                nearest_sample(self.blended(vol, p, t, n - 1), top),
                self.format.bytes,
            )
        }
    }

    /// The margin around the volume in which samples still hold a part of it.
    pub open spec fn margin(self) -> int {
        match self.interp {
            Interp::Nearest => 0,
            Interp::Trilinear => half(),
        }
    }

    /// The range is the part of the row from `q0` whose samples can touch the volume.
    pub open spec fn touches(self, p: int, q0: Seq<int>, range: Option<(usize, usize)>) -> bool {
        let g = self.geoms[p];
        let want = row_touched(g, q0, g.step_x(), self.margin());
        match range {
            Some((x0, x1)) => want == Some((x0 as nat, x1 as nat)),
            None => want is None,
        }
    }

    /// Output pixel `x` of a row that starts at input coordinate `q0`.
    pub open spec fn row_pixel(self, vol: Seq<Seq<u8>>, p: int, q0: Seq<int>, x: nat) -> Seq<u8> {
        let g = self.geoms[p];
        let dq = g.step_x();
        let touched = row_touched(g, q0, dq, self.margin()) matches Some((x0, x1)) && x0 <= x < x1;
        let q = seq![along(q0[0], dq[0], x), along(q0[1], dq[1], x), along(q0[2], dq[2], x)];
        if !touched {
            self.fill[p]
        } else {
            match self.interp {
                Interp::Nearest => self.voxel_or_fill(vol, p, self.hit(p, q)),
                Interp::Trilinear => {
                    let h = seq![
                        difference(q[0], half()),
                        difference(q[1], half()),
                        difference(q[2], half()),
                    ];
                    self.blended_bytes(
                        vol,
                        p,
                        taps(h, g.in_dims),
                        self.format.planes[p].channels,
                    )
                },
            }
        }
    }

    /// The input coordinate of the first voxel in row `y` of output frame `z`.
    pub open spec fn row_start(self, p: int, y: nat, z: nat) -> Seq<int> {
        self.geoms[p].mapped(0, fraction(y, 1) as int, fraction(z, 1) as int)
    }

    /// Output pixel `(x, y)` of plane `p` in frame `z`.
    pub open spec fn pixel(self, vol: Seq<Seq<u8>>, p: int, x: nat, y: nat, z: nat) -> Seq<u8> {
        self.row_pixel(vol, p, self.row_start(p, y, z), x)
    }

    /// The first `n` pixels of a row.
    pub open spec fn row(self, vol: Seq<Seq<u8>>, p: int, y: nat, z: nat, n: nat) -> Seq<u8>
        decreases n,
    {
        if n == 0 {
            Seq::empty()
        } else {
            self.row(vol, p, y, z, (n - 1) as nat) + self.pixel(vol, p, (n - 1) as nat, y, z)
        }
    }

    /// The first `n` rows of a plane.
    pub open spec fn plane(self, vol: Seq<Seq<u8>>, p: int, z: nat, n: nat) -> Seq<u8>
        decreases n,
    {
        if n == 0 {
            Seq::empty()
        } else {
            self.plane(vol, p, z, (n - 1) as nat) + self.row(
                vol,
                p,
                (n - 1) as nat,
                z,
                self.out_planes[p].w as nat,
            )
        }
    }

    /// The first `n` planes of a frame.
    pub open spec fn frame(self, vol: Seq<Seq<u8>>, z: nat, n: nat) -> Seq<u8>
        decreases n,
    {
        if n == 0 {
            Seq::empty()
        } else {
            self.frame(vol, z, (n - 1) as nat) + self.plane(
                vol,
                n - 1,
                z,
                self.out_planes[n - 1].h as nat,
            )
        }
    }
}

/// Rotates frames: output frames are sampled from input frames, plane by plane.
pub struct Renderer<'a> {
    pf: &'a PixelFormat,
    geoms: Vec<Geometry>,
    in_planes: Vec<Region>,
    out_planes: Vec<Region>,
    interp: Interp,
    fill: Vec<Vec<u8>>,
}

impl<'a> View for Renderer<'a> {
    type V = RendererView;

    closed spec fn view(&self) -> RendererView {
        RendererView {
            format: self.pf@,
            geoms: self.geoms@.map_values(|g: Geometry| g@),
            in_planes: self.in_planes@,
            out_planes: self.out_planes@,
            interp: self.interp,
            fill: voxels(self.fill@),
        }
    }
}

impl RendererView {
    /// The renderer of frames of `in_dims` into frames of `out_dims`.
    pub open spec fn renders(
        self,
        f: FormatView,
        g: Seq<Seq<int>>,
        in_dims: Seq<nat>,
        out_dims: Seq<nat>,
        track: TrackView,
        interp: Interp,
        fill: Seq<Seq<u8>>,
    ) -> bool {
        let n = f.planes.len();
        &&& self.format == f
        &&& self.interp == interp
        &&& self.fill == fill
        &&& self.geoms.len() == n
        &&& self.in_planes.len() == n
        &&& self.out_planes.len() == n
        &&& forall|p: int|
            0 <= p < n ==> #[trigger] self.geoms[p] == plane_mapping(
                g,
                in_dims,
                out_dims,
                track,
                f.planes[p].sx,
                f.planes[p].sy,
            )
        &&& forall|p: int|
            0 <= p < n ==> (#[trigger] self.in_planes[p]).is_plane(f, p, in_dims[0], in_dims[1])
        &&& forall|p: int|
            0 <= p < n ==> (#[trigger] self.out_planes[p]).is_plane(f, p, out_dims[0], out_dims[1])
    }

    /// The bytes of an input frame.
    pub open spec fn in_size(self) -> nat {
        let n = self.in_planes.len();
        (self.in_planes[n - 1].offset + self.in_planes[n - 1].bytes) as nat
    }

    /// The bytes of an output frame.
    pub open spec fn out_size(self) -> nat {
        let n = self.out_planes.len();
        (self.out_planes[n - 1].offset + self.out_planes[n - 1].bytes) as nat
    }

    /// The planes lie in the input and output frames one after the other, as large as their mappings
    /// say, and there is a fill voxel for each.
    pub open spec fn wf(self) -> bool {
        let n = self.format.planes.len();
        &&& self.format.wf()
        &&& self.geoms.len() == n
        &&& self.in_planes.len() == n
        &&& self.out_planes.len() == n
        &&& self.fill.len() == n
        &&& self.in_size() <= usize::MAX
        &&& self.out_size() <= usize::MAX
        &&& forall|p: int|
            0 <= p < n ==> {
                let r = #[trigger] self.in_planes[p];
                let g = self.geoms[p];
                &&& g.in_dims.len() == 3
                &&& g.in_dims[0] == r.w
                &&& g.in_dims[1] == r.h
                &&& g.in_dims[2] <= usize::MAX
                &&& r.bytes == r.w * r.h * self.format.bpp(p)
                &&& r.offset + r.bytes <= self.in_size()
            }
        &&& forall|p: int|
            0 <= p < n ==> {
                let r = #[trigger] self.out_planes[p];
                &&& r.bytes == r.w * r.h * self.format.bpp(p)
            }
        &&& forall|p: int|
            0 <= p < n ==> (#[trigger] self.fill[p]).len() == self.format.bpp(p)
    }

    /// The volume has the frames that the renderer reads, and they have the bytes.
    pub open spec fn reads(self, vol: Seq<Seq<u8>>) -> bool {
        &&& forall|p: int|
            0 <= p < self.geoms.len() ==> vol.len() >= (#[trigger] self.geoms[p]).in_dims[2]
        &&& forall|z: int| 0 <= z < vol.len() ==> (#[trigger] vol[z]).len() >= self.in_size()
    }
}

/// A voxel in a plane lies in the bytes of the plane.
pub proof fn lemma_voxel_inside(x: int, y: int, w: int, h: int, bpp: int)
    requires
        0 <= x < w,
        0 <= y < h,
        bpp >= 1,
    ensures
        0 <= y * w + x < w * h,
        0 <= (y * w + x) * bpp,
        (y * w + x) * bpp + bpp <= w * h * bpp,
        0 <= y * w,
        y * w + x <= (y * w + x) * bpp,
{
    assert(0 <= y * w && y * w + w <= w * h) by (nonlinear_arith)
        requires
            0 <= y < h,
            w >= 0,
    ;
    let n = y * w + x;
    let a = w * h;
    assert(n <= n * bpp && n * bpp + bpp <= a * bpp) by (nonlinear_arith)
        requires
            0 <= n < a,
            bpp >= 1,
    ;
}

/// A voxel that goes into a sample, with its weight.
#[derive(Clone, Copy)]
struct Tap {
    weight: Single,
    inside: bool,
    x: usize,
    y: usize,
    z: usize,
}

impl Tap {
    spec fn as_view(self) -> TapView {
        TapView {
            weight: self.weight.value(),
            voxel: if self.inside {
                Some((self.x as int, self.y as int, self.z as int))
            } else {
                None
            },
        }
    }

    spec fn wf(self, dims: Seq<nat>) -> bool {
        &&& self.weight.wf()
        &&& self.weight.e <= 1000
        &&& self.inside ==> self.x < dims[0] && self.y < dims[1] && self.z < dims[2]
    }
}

spec fn tap_views(t: Seq<Tap>) -> Seq<TapView> {
    t.map_values(|x: Tap| x.as_view())
}

spec fn taps_ok(t: Seq<Tap>, dims: Seq<nat>) -> bool {
    forall|i: int| 0 <= i < t.len() ==> (#[trigger] t[i]).wf(dims)
}

fn push_tap(t: &mut Vec<Tap>, one_more: Tap, Ghost(dims): Ghost<Seq<nat>>)
    requires
        taps_ok(old(t)@, dims),
        one_more.wf(dims),
    ensures
        tap_views(final(t)@) == tap_views(old(t)@) + seq![one_more.as_view()],
        taps_ok(final(t)@, dims),
        final(t)@.len() == old(t)@.len() + 1,
{
    let ghost before = tap_views(t@);
    t.push(one_more);
    assert(tap_views(t@) =~= before + seq![one_more.as_view()]);
}

fn push_x(t: &mut Vec<Tap>, x: i128, y: i128, z: usize, weight: Single, dims: [usize; 3])
    requires
        taps_ok(old(t)@, sides(dims)),
        weight.wf(),
        weight.e <= 1000,
        z < dims[2],
    ensures
        tap_views(final(t)@) == tap_views(old(t)@) + tap_x(
            x as int,
            y as int,
            z as int,
            weight.value(),
            sides(dims),
        ),
        taps_ok(final(t)@, sides(dims)),
        final(t)@.len() <= old(t)@.len() + 1,
{
    if weight.is_zero() {
        assert(tap_views(t@) =~= tap_views(t@) + Seq::<TapView>::empty());
        return;
    }
    let inside = 0 <= x && x < dims[0] as i128 && 0 <= y && y < dims[1] as i128;
    let one_more = if inside {
        Tap { weight, inside, x: x as usize, y: y as usize, z }
    } else {
        Tap { weight, inside, x: 0, y: 0, z: 0 }
    };
    push_tap(t, one_more, Ghost(sides(dims)));
}

fn push_y(
    t: &mut Vec<Tap>,
    x: i128,
    y: i128,
    z: usize,
    weight: Single,
    wx: (Single, Single),
    dims: [usize; 3],
)
    requires
        taps_ok(old(t)@, sides(dims)),
        weight.wf() && weight.e <= 500,
        wx.0.wf() && wx.0.e <= 110,
        wx.1.wf() && wx.1.e <= 110,
        z < dims[2],
        -0x1_0000_0000_0000_0000 <= x <= 0x1_0000_0000_0000_0000,
    ensures
        tap_views(final(t)@) == tap_views(old(t)@) + tap_y(
            x as int,
            y as int,
            z as int,
            weight.value(),
            (wx.0.value(), wx.1.value()),
            sides(dims),
        ),
        taps_ok(final(t)@, sides(dims)),
        final(t)@.len() <= old(t)@.len() + 2,
{
    let ghost before = tap_views(t@);
    if weight.is_zero() {
        assert(before =~= before + Seq::<TapView>::empty());
        return;
    }
    push_x(t, x, y, z, weight.times(wx.0), dims);
    push_x(t, x + 1, y, z, weight.times(wx.1), dims);
    assert(tap_views(t@) =~= before + tap_y(
        x as int,
        y as int,
        z as int,
        weight.value(),
        (wx.0.value(), wx.1.value()),
        sides(dims),
    ));
}

fn push_z(
    t: &mut Vec<Tap>,
    x: i128,
    y: i128,
    z: i128,
    weight: Single,
    wx: (Single, Single),
    wy: (Single, Single),
    dims: [usize; 3],
)
    requires
        taps_ok(old(t)@, sides(dims)),
        weight.wf() && weight.e <= 110,
        wx.0.wf() && wx.0.e <= 110,
        wx.1.wf() && wx.1.e <= 110,
        wy.0.wf() && wy.0.e <= 110,
        wy.1.wf() && wy.1.e <= 110,
        -0x8000_0000_0000_0000 <= x <= 0x8000_0000_0000_0000,
        -0x8000_0000_0000_0000 <= y <= 0x8000_0000_0000_0000,
    ensures
        tap_views(final(t)@) == tap_views(old(t)@) + tap_z(
            x as int,
            y as int,
            z as int,
            weight.value(),
            (wx.0.value(), wx.1.value()),
            (wy.0.value(), wy.1.value()),
            sides(dims),
        ),
        taps_ok(final(t)@, sides(dims)),
        final(t)@.len() <= old(t)@.len() + 4,
{
    let ghost before = tap_views(t@);
    if weight.is_zero() {
        assert(before =~= before + Seq::<TapView>::empty());
        return;
    }
    if !(0 <= z && z < dims[2] as i128) {
        push_tap(
            t,
            Tap { weight, inside: false, x: 0, y: 0, z: 0 },
            Ghost(sides(dims)),
        );
        return;
    }
    push_y(t, x, y, z as usize, weight.times(wy.0), wx, dims);
    push_y(t, x, y + 1, z as usize, weight.times(wy.1), wx, dims);
    assert(tap_views(t@) =~= before + tap_z(
        x as int,
        y as int,
        z as int,
        weight.value(),
        (wx.0.value(), wx.1.value()),
        (wy.0.value(), wy.1.value()),
        sides(dims),
    ));
}

fn weights_of(q: Float) -> (r: (Single, Single))
    requires
        q.wf(),
        q.e <= 0x1000_0000_0000_0000_0000_0000,
    ensures
        (r.0.value(), r.1.value()) == weights(q.value()),
        r.0.wf() && r.0.e <= 110,
        r.1.wf() && r.1.e <= 110,
{
    let f = q.minus(q.floor());
    proof {
        fractions_stay_below_one(q.value());
        f.lemma_at_most_one();
        narrowing_keeps_one(f.value() as nat);
    }
    let t = Single::narrow(f);
    (t.complement(), t)
}

fn find_taps(q: [Float; 3], dims: [usize; 3]) -> (t: Vec<Tap>)
    requires
        vector_within(q, 0x1000_0000_0000_0000_0000_0000),
    ensures
        tap_views(t@) == taps(coords(q), sides(dims)),
        taps_ok(t@, sides(dims)),
        t@.len() <= 8,
{
    let x = q[0].floor_i64() as i128;
    let y = q[1].floor_i64() as i128;
    let z = q[2].floor_i64() as i128;
    let wx = weights_of(q[0]);
    let wy = weights_of(q[1]);
    let wz = weights_of(q[2]);
    let mut t: Vec<Tap> = Vec::new();
    assert(tap_views(t@) =~= Seq::empty());
    push_z(&mut t, x, y, z, wz.0, wx, wy, dims);
    push_z(&mut t, x, y, z + 1, wz.1, wx, wy, dims);
    assert(tap_views(t@) =~= taps(coords(q), sides(dims)));
    t
}

fn load_sample(data: &[u8], at: usize, bytes: usize) -> (r: Single)
    requires
        1 <= bytes <= 2,
        at + bytes <= data@.len(),
    ensures
        r.wf() && r.e <= 103,
        r.value() == sample_at(data@, at as int, bytes as nat) * unity(),
{
    let tail = slice_subrange(data, at, data.len());
    if bytes == 1 {
        U8::load(tail)
    } else {
        U16Le::load(tail)
    }
}

fn store_sample(v: Single, bytes: usize, out: &mut Vec<u8>)
    requires
        1 <= bytes <= 2,
        v.wf(),
        v.e <= 0x1000_0000,
    ensures
        final(out)@ == old(out)@ + sample_bytes(
            nearest_sample(
                v.value(),
                if bytes == 1 {
                    255
                } else {
                    65535
                },
            ),
            bytes as nat,
        ),
{
    if bytes == 1 {
        U8::store(v, out);
    } else {
        U16Le::store(v, out);
    }
}

fn push_all(out: &mut Vec<u8>, data: &[u8])
    ensures
        final(out)@ == old(out)@ + data@,
{
    let ghost before = out@;
    for i in 0..data.len()
        invariant
            out@ == before + data@.take(i as int),
    {
        assert(data@.take(i + 1) =~= data@.take(i as int).push(data@[i as int]));
        out.push(data[i]);
        assert(out@ =~= before + data@.take(i + 1));
    }
    assert(data@.take(data@.len() as int) =~= data@);
}

impl<'a> Renderer<'a> {
    /// The renderer is one that can render.
    pub closed spec fn wf(&self) -> bool {
        &&& self@.wf()
        &&& self.pf.wf()
        &&& forall|p: int| 0 <= p < self.geoms@.len() ==> (#[trigger] self.geoms@[p]).wf()
    }

    /// The bytes of a voxel, or the fill where there is none.
    fn source<'b, F: Frames>(&'b self, frames: &'b F, p: usize, t: Tap) -> (r: &'b [u8])
        requires
            self.wf(),
            self@.reads(frames.frames()),
            p < self@.geoms.len(),
            t.wf(self@.geoms[p as int].in_dims),
        ensures
            r@ == self@.voxel_or_fill(frames.frames(), p as int, t.as_view().voxel),
            r@.len() == self@.format.bpp(p as int),
    {
        assert(self@.in_planes[p as int] == self.in_planes@[p as int]);
        assert(self@.geoms[p as int] == self.geoms@[p as int]@);
        assert(self@.fill[p as int] == self.fill@[p as int]@);
        if !t.inside {
            return self.fill[p].as_slice();
        }
        let frame = frames.frame(t.z);
        let bpp = self.pf.bpp(p);
        let reg = self.in_planes[p];
        let w = self.geoms[p].in_dims[0];
        proof {
            assert(self@.geoms[p as int].in_dims[0] == w);
            lemma_voxel_inside(t.x as int, t.y as int, reg.w as int, reg.h as int, bpp as int);
        }
        let at: usize = reg.offset + (t.y * w + t.x) * bpp;
        slice_subrange(frame, at, at + bpp)
    }

    fn blend<F: Frames>(&self, frames: &F, p: usize, t: &Vec<Tap>, c: usize) -> (r: Single)
        requires
            self.wf(),
            self@.reads(frames.frames()),
            p < self@.geoms.len(),
            taps_ok(t@, self@.geoms[p as int].in_dims),
            t@.len() <= 8,
            c < self@.format.planes[p as int].channels,
        ensures
            r.wf() && r.e <= 0x1000_0000,
            r.value() == self@.blended(frames.frames(), p as int, tap_views(t@), c as int),
    {
        let bytes = self.pf.bytes;
        let mut acc = Single::zero();
        let ghost views = tap_views(t@);
        assert(views.take(0).len() == 0);
        assert(self@.format == self.pf@);
        assert(self@.format.planes[p as int].channels <= 4);
        for i in 0..t.len()
            invariant
                self.wf(),
                self@.reads(frames.frames()),
                p < self@.geoms.len(),
                taps_ok(t@, self@.geoms[p as int].in_dims),
                t@.len() <= 8,
                c < self@.format.planes[p as int].channels <= 4,
                bytes == self@.format.bytes,
                1 <= bytes <= 2,
                views == tap_views(t@),
                acc.wf() && acc.e <= 2000 + 103 * i,
                acc.value() == self@.blended(
                    frames.frames(),
                    p as int,
                    views.take(i as int),
                    c as int,
                ),
        {
            let x = t[i];
            assert(t@[i as int].wf(self@.geoms[p as int].in_dims));
            let src = self.source(frames, p, x);
            proof {
                let ch = self@.format.planes[p as int].channels;
                assert(c * bytes + bytes <= ch * bytes && 0 <= c * bytes <= 8) by (nonlinear_arith)
                    requires
                        c + 1 <= ch <= 4,
                        0 <= bytes <= 2,
                ;
                assert(views.take(i + 1).drop_last() =~= views.take(i as int));
                assert(views[i as int] == x.as_view());
            }
            let s = load_sample(src, c * bytes, bytes);
            acc = acc.plus(x.weight.times(s));
        }
        assert(views.take(t@.len() as int) =~= views);
        acc
    }

    fn push_blended<F: Frames>(&self, frames: &F, p: usize, q: [Float; 3], out: &mut Vec<u8>)
        requires
            self.wf(),
            self@.reads(frames.frames()),
            p < self@.geoms.len(),
            vector_within(q, 0x1000_0000_0000_0000_0000_0000),
        ensures
            final(out)@ == old(out)@ + self@.blended_bytes(
                frames.frames(),
                p as int,
                taps(coords(q), self@.geoms[p as int].in_dims),
                self@.format.planes[p as int].channels,
            ),
    {
        assert(self@.geoms[p as int] == self.geoms@[p as int]@);
        assert(self@.format.planes[p as int] == self.pf.planes@[p as int]@);
        let t = find_taps(q, self.geoms[p].in_dims);
        let ghost views = tap_views(t@);
        let ghost vol = frames.frames();
        let bytes = self.pf.bytes;
        let ghost before = out@;
        let n = self.pf.planes[p].channels;
        for c in 0..n
            invariant
                self.wf(),
                self@.reads(frames.frames()),
                vol == frames.frames(),
                p < self@.geoms.len(),
                n == self@.format.planes[p as int].channels,
                bytes == self@.format.bytes,
                1 <= bytes <= 2,
                taps_ok(t@, self@.geoms[p as int].in_dims),
                t@.len() <= 8,
                views == tap_views(t@),
                out@ == before + self@.blended_bytes(vol, p as int, views, c as nat),
        {
            let v = self.blend(frames, p, &t, c);
            store_sample(v, bytes, out);
            assert(out@ =~= before + self@.blended_bytes(vol, p as int, views, (c + 1) as nat));
        }
    }

    fn push_nearest<F: Frames>(&self, frames: &F, p: usize, q: [Float; 3], out: &mut Vec<u8>)
        requires
            self.wf(),
            self@.reads(frames.frames()),
            p < self@.geoms.len(),
            vector_within(q, 0x1000_0000_0000_0000_0000_0000),
        ensures
            final(out)@ == old(out)@ + self@.voxel_or_fill(
                frames.frames(),
                p as int,
                self@.hit(p as int, coords(q)),
            ),
    {
        assert(self@.geoms[p as int] == self.geoms@[p as int]@);
        let x = q[0].floor_i64();
        let y = q[1].floor_i64();
        let z = q[2].floor_i64();
        let d = self.geoms[p].in_dims;
        let inside = 0 <= x && (x as i128) < d[0] as i128 && 0 <= y && (y as i128) < d[1] as i128
            && 0 <= z && (z as i128) < d[2] as i128;
        let t = if inside {
            Tap { weight: Single::zero(), inside, x: x as usize, y: y as usize, z: z as usize }
        } else {
            Tap { weight: Single::zero(), inside, x: 0, y: 0, z: 0 }
        };
        assert(sides(d)[0] == d[0] && sides(d)[1] == d[1] && sides(d)[2] == d[2]);
        push_all(out, self.source(frames, p, t));
    }
}

/// Every pixel has the bytes of a pixel of its plane.
pub proof fn lemma_pixel_len(r: RendererView, vol: Seq<Seq<u8>>, p: int, q0: Seq<int>, x: nat)
    requires
        r.wf(),
        r.reads(vol),
        0 <= p < r.geoms.len(),
    ensures
        r.row_pixel(vol, p, q0, x).len() == r.format.bpp(p),
{
    let g = r.geoms[p];
    let dq = g.step_x();
    let q = seq![along(q0[0], dq[0], x), along(q0[1], dq[1], x), along(q0[2], dq[2], x)];
    assert(r.fill[p].len() == r.format.bpp(p));
    assert(r.in_planes[p].offset + r.in_planes[p].bytes <= r.in_size());
    assert(1 <= r.format.bpp(p)) by {
        let pl = r.format.planes[p];
        let (c, b) = (pl.channels, r.format.bytes);
        assert(1 <= c * b) by (nonlinear_arith)
            requires
                c >= 1,
                b >= 1,
        ;
    }
    match r.interp {
        Interp::Nearest => {
            if let Some((vx, vy, vz)) = r.hit(p, q) {
                let reg = r.in_planes[p];
                lemma_voxel_inside(vx, vy, reg.w as int, reg.h as int, r.format.bpp(p) as int);
                assert(vol[vz].len() >= r.in_size());
            }
        },
        Interp::Trilinear => {
            let h = seq![
                difference(q[0], half()),
                difference(q[1], half()),
                difference(q[2], half()),
            ];
            lemma_blended_len(r, vol, p, taps(h, g.in_dims), r.format.planes[p].channels);
        },
    }
}

proof fn lemma_blended_len(r: RendererView, vol: Seq<Seq<u8>>, p: int, t: Seq<TapView>, n: nat)
    requires
        1 <= r.format.bytes <= 2,
    ensures
        r.blended_bytes(vol, p, t, n).len() == n * r.format.bytes,
    decreases n,
{
    if n > 0 {
        lemma_blended_len(r, vol, p, t, (n - 1) as nat);
        let b = r.format.bytes;
        assert((n - 1) * b + b == n * b) by (nonlinear_arith);
    } else {
        assert(0 * r.format.bytes == 0);
    }
}

pub proof fn lemma_row_len(r: RendererView, vol: Seq<Seq<u8>>, p: int, y: nat, z: nat, n: nat)
    requires
        r.wf(),
        r.reads(vol),
        0 <= p < r.geoms.len(),
    ensures
        r.row(vol, p, y, z, n).len() == n * r.format.bpp(p),
    decreases n,
{
    if n > 0 {
        lemma_row_len(r, vol, p, y, z, (n - 1) as nat);
        lemma_pixel_len(r, vol, p, r.row_start(p, y, z), (n - 1) as nat);
        let b = r.format.bpp(p);
        assert((n - 1) * b + b == n * b) by (nonlinear_arith);
    } else {
        assert(0 * r.format.bpp(p) == 0);
    }
}

pub proof fn lemma_plane_len(r: RendererView, vol: Seq<Seq<u8>>, p: int, z: nat, n: nat)
    requires
        r.wf(),
        r.reads(vol),
        0 <= p < r.geoms.len(),
    ensures
        r.plane(vol, p, z, n).len() == r.out_planes[p].w * n * r.format.bpp(p),
    decreases n,
{
    let w = r.out_planes[p].w as nat;
    let b = r.format.bpp(p);
    if n > 0 {
        lemma_plane_len(r, vol, p, z, (n - 1) as nat);
        lemma_row_len(r, vol, p, (n - 1) as nat, z, w);
        assert(w * (n - 1) * b + w * b == w * n * b) by (nonlinear_arith);
    } else {
        assert(w * 0 * b == 0) by (nonlinear_arith);
    }
}

/// Every rendered frame has the bytes of an output frame.
pub proof fn rendered_frames_are_whole(r: RendererView, vol: Seq<Seq<u8>>, z: nat)
    requires
        r.wf(),
        r.reads(vol),
        forall|p: int|
            0 <= p < r.out_planes.len() ==> (#[trigger] r.out_planes[p]).offset == if p == 0 {
                0
            } else {
                r.out_planes[p - 1].offset + r.out_planes[p - 1].bytes
            },
    ensures
        r.frame(vol, z, r.format.planes.len()).len() == r.out_size(),
{
    lemma_frame_len(r, vol, z, r.format.planes.len());
}

pub proof fn lemma_frame_len(r: RendererView, vol: Seq<Seq<u8>>, z: nat, n: nat)
    requires
        r.wf(),
        r.reads(vol),
        0 < n <= r.out_planes.len(),
        forall|p: int|
            0 <= p < r.out_planes.len() ==> (#[trigger] r.out_planes[p]).offset == if p == 0 {
                0
            } else {
                r.out_planes[p - 1].offset + r.out_planes[p - 1].bytes
            },
    ensures
        r.frame(vol, z, n).len() == r.out_planes[n - 1].offset + r.out_planes[n - 1].bytes,
    decreases n,
{
    let p = n - 1;
    lemma_plane_len(r, vol, p, z, r.out_planes[p].h as nat);
    assert(r.out_planes[p].offset == if p == 0 {
        0
    } else {
        r.out_planes[p - 1].offset + r.out_planes[p - 1].bytes
    });
    if n > 1 {
        lemma_frame_len(r, vol, z, (n - 1) as nat);
    } else {
        assert(r.frame(vol, z, 0).len() == 0);
    }
}

impl<'a> Renderer<'a> {
    /// A renderer of frames of `in_dims` into frames of `out_dims`.
    pub fn new(
        pf: &'a PixelFormat,
        rot: &Mat3,
        in_dims: [usize; 3],
        out_dims: [usize; 3],
        track: Track,
        interp: Interp,
        fill: Vec<Vec<u8>>,
    ) -> (r: Renderer<'a>)
        requires
            pf.wf(),
            within(*rot, 100),
            track.within(100),
            pf@.frame_size(in_dims[0] as nat, in_dims[1] as nat) <= usize::MAX,
            pf@.frame_size(out_dims[0] as nat, out_dims[1] as nat) <= usize::MAX,
            fill@.len() == pf@.planes.len(),
            forall|p: int| 0 <= p < fill@.len() ==> (#[trigger] fill@[p])@.len() == pf@.bpp(p),
        ensures
            r.wf(),
            r@.wf(),
            r@.renders(
                pf@,
                grid(*rot),
                sides(in_dims),
                sides(out_dims),
                track@,
                interp,
                voxels(fill@),
            ),
            r@.in_size() == pf@.frame_size(in_dims[0] as nat, in_dims[1] as nat),
            r@.out_size() == pf@.frame_size(out_dims[0] as nat, out_dims[1] as nat),
    {
        let mut geoms: Vec<Geometry> = Vec::new();
        let ghost f = pf@;
        for p in 0..pf.planes.len()
            invariant
                pf.wf(),
                f == pf@,
                within(*rot, 100),
                track.within(100),
                geoms@.len() == p,
                forall|q: int| 0 <= q < p ==> (#[trigger] geoms@[q]).wf(),
                forall|q: int|
                    0 <= q < p ==> (#[trigger] geoms@[q])@ == plane_mapping(
                        grid(*rot),
                        sides(in_dims),
                        sides(out_dims),
                        track@,
                        f.planes[q].sx,
                        f.planes[q].sy,
                    ),
        {
            let pl = &pf.planes[p];
            assert(f.planes[p as int] == pl@);
            geoms.push(Geometry::plane(rot, in_dims, out_dims, track, pl.sx, pl.sy));
        }
        let in_planes = pf.layout(in_dims[0], in_dims[1]);
        let out_planes = pf.layout(out_dims[0], out_dims[1]);
        let r = Renderer { pf, geoms, in_planes, out_planes, interp, fill };
        proof {
            let n = f.planes.len();
            let (w, h) = (in_dims[0] as nat, in_dims[1] as nat);
            let (ow, oh) = (out_dims[0] as nat, out_dims[1] as nat);
            planes_tile_the_frame(f, w, h, n - 1);
            planes_tile_the_frame(f, ow, oh, n - 1);
            assert(r.in_planes@[n - 1].is_plane(f, n - 1, w, h));
            assert(r.out_planes@[n - 1].is_plane(f, n - 1, ow, oh));
            assert forall|p: int| 0 <= p < n implies {
                let reg = #[trigger] r@.in_planes[p];
                let g = r@.geoms[p];
                &&& g.in_dims.len() == 3
                &&& g.in_dims[0] == reg.w
                &&& g.in_dims[1] == reg.h
                &&& g.in_dims[2] <= usize::MAX
                &&& reg.bytes == reg.w * reg.h * f.bpp(p)
                &&& reg.offset + reg.bytes <= r@.in_size()
            } by {
                assert(r.in_planes@[p].is_plane(f, p, w, h));
                assert(r@.geoms[p] == r.geoms@[p]@);
                planes_tile_the_frame(f, w, h, p);
            }
            assert forall|p: int| 0 <= p < n implies {
                let reg = #[trigger] r@.out_planes[p];
                &&& reg.bytes == reg.w * reg.h * f.bpp(p)
            } by {
                assert(r.out_planes@[p].is_plane(f, p, ow, oh));
            }
            assert forall|p: int| 0 <= p < n implies (#[trigger] r@.fill[p]).len() == f.bpp(p) by {
                assert(r@.fill[p] == r.fill@[p]@);
            }
        }
        r
    }

    /// The bytes of an input frame.
    pub fn in_frame_bytes(&self) -> (r: usize)
        requires
            self.wf(),
        ensures
            r == self@.in_size(),
    {
        let last = &self.in_planes[self.in_planes.len() - 1];
        last.offset + last.bytes
    }

    /// The bytes of an output frame.
    pub fn out_frame_bytes(&self) -> (r: usize)
        requires
            self.wf(),
        ensures
            r == self@.out_size(),
    {
        let last = &self.out_planes[self.out_planes.len() - 1];
        last.offset + last.bytes
    }

    /// Where the planes of an output frame lie.
    pub fn regions(&self) -> (r: &Vec<Region>)
        ensures
            r@ == self@.out_planes,
    {
        &self.out_planes
    }

    /// Appends pixel `x` of a row that starts at `q0` and moves by `dq`.
    fn push_pixel<F: Frames>(
        &self,
        frames: &F,
        p: usize,
        q0: [Float; 3],
        dq: [Float; 3],
        range: Option<(usize, usize)>,
        x: usize,
        out: &mut Vec<u8>,
    )
        requires
            self.wf(),
            self@.reads(frames.frames()),
            p < self@.geoms.len(),
            coords(dq) == self@.geoms[p as int].step_x(),
            vector_within(q0, 4000),
            vector_within(dq, 252),
            self@.touches(p as int, coords(q0), range),
        ensures
            final(out)@ == old(out)@ + self@.row_pixel(
                frames.frames(),
                p as int,
                coords(q0),
                x as nat,
            ),
    {
        assert(self@.fill[p as int] == self.fill@[p as int]@);
        let touched = match range {
            Some((x0, x1)) => x0 <= x && x < x1,
            None => false,
        };
        if !touched {
            push_all(out, self.fill[p].as_slice());
            return;
        }
        let t = Float::from_u64(x as u64);
        let q = [
            q0[0].plus(t.times(dq[0])),
            q0[1].plus(t.times(dq[1])),
            q0[2].plus(t.times(dq[2])),
        ];
        proof {
            let start = coords(q0);
            let st = coords(dq);
            assert(coords(q) =~= seq![
                along(start[0], st[0], x as nat),
                along(start[1], st[1], x as nat),
                along(start[2], st[2], x as nat),
            ]);
        }
        match self.interp {
            Interp::Nearest => {
                self.push_nearest(frames, p, q, out);
            },
            Interp::Trilinear => {
                let h = Float::ratio(1, 2);
                let c = [q[0].minus(h), q[1].minus(h), q[2].minus(h)];
                proof {
                    assert(coords(c) =~= seq![
                        difference(coords(q)[0], half()),
                        difference(coords(q)[1], half()),
                        difference(coords(q)[2], half()),
                    ]);
                }
                self.push_blended(frames, p, c, out);
            },
        }
    }

    /// Renders row `y` of plane `p` in output frame `z`.
    pub fn render_row<F: Frames>(&self, frames: &F, p: usize, y: usize, z: usize) -> (r: Vec<u8>)
        requires
            self.wf(),
            self@.reads(frames.frames()),
            p < self@.geoms.len(),
        ensures
            r@ == self@.row(
                frames.frames(),
                p as int,
                y as nat,
                z as nat,
                self@.out_planes[p as int].w as nat,
            ),
            r@.len() == self@.out_planes[p as int].w * self@.format.bpp(p as int),
    {
        let ghost vol = frames.frames();
        assert(self@.geoms[p as int] == self.geoms@[p as int]@);
        let g = &self.geoms[p];
        let q0 = g.map(Float::zero(), Float::from_u64(y as u64), Float::from_u64(z as u64));
        let dq = g.dx();
        let margin = match self.interp {
            Interp::Nearest => Float::zero(),
            Interp::Trilinear => Float::ratio(1, 2),
        };
        let range = row_range(g, q0, dq, margin);
        let w = self.out_planes[p].w;
        let mut out: Vec<u8> = Vec::new();
        let ghost start = self@.row_start(p as int, y as nat, z as nat);
        for x in 0..w
            invariant
                self.wf(),
                vol == frames.frames(),
                self@.reads(frames.frames()),
                p < self@.geoms.len(),
                start == self@.row_start(p as int, y as nat, z as nat),
                coords(q0) == start,
                coords(dq) == self@.geoms[p as int].step_x(),
                vector_within(q0, 4000),
                vector_within(dq, 252),
                self@.touches(p as int, start, range),
                out@ == self@.row(vol, p as int, y as nat, z as nat, x as nat),
        {
            self.push_pixel(frames, p, q0, dq, range, x, &mut out);
        }
        proof {
            lemma_row_len(self@, vol, p as int, y as nat, z as nat, w as nat);
        }
        out
    }

    /// Renders output frame `z` into `out` (exactly one output frame).
    pub fn render_frame<F: Frames>(&self, frames: &F, z: usize, out: &mut Vec<u8>)
        requires
            self.wf(),
            self@.reads(frames.frames()),
            old(out)@.len() == self@.out_size(),
        ensures
            final(out)@ == self@.frame(frames.frames(), z as nat, self@.format.planes.len()),
    {
        let ghost vol = frames.frames();
        let mut all: Vec<u8> = Vec::new();
        let n = self.out_planes.len();
        for p in 0..n
            invariant
                self.wf(),
                vol == frames.frames(),
                self@.reads(frames.frames()),
                n == self@.out_planes.len(),
                n == self@.geoms.len(),
                all@ == self@.frame(vol, z as nat, p as nat),
        {
            let h = self.out_planes[p].h;
            let ghost front = all@;
            for y in 0..h
                invariant
                    self.wf(),
                    vol == frames.frames(),
                    self@.reads(frames.frames()),
                    p < n,
                    n == self@.geoms.len(),
                    h == self@.out_planes[p as int].h,
                    all@ == front + self@.plane(vol, p as int, z as nat, y as nat),
            {
                let row = self.render_row(frames, p, y, z);
                push_all(&mut all, row.as_slice());
                assert(all@ =~= front + self@.plane(vol, p as int, z as nat, (y + 1) as nat));
            }
            assert(all@ =~= self@.frame(vol, z as nat, (p + 1) as nat));
        }
        *out = all;
    }
}

} // verus!
