//! Where the voxels of an output plane come from in the input plane.

use vstd::prelude::*;
use vstd::arithmetic::power2::{lemma2_to64, lemma_pow2_pos, lemma_pow2_strictly_increases, pow2};
use crate::binary64::{difference, one, product, quotient, sum, Float};
use crate::geometry::{
    applied, bounded_image, coords, grid, sides, transpose, vector_within, within, Mat3,
};
use crate::pixfmt::{subsample, subsampled};
use crate::rounding::power;
use crate::track::{half, half_side, Track, TrackView};

verus! {

/// Maps output voxel centers of one plane to continuous input coordinates of the same plane.
#[derive(Clone, Debug)]
pub struct Geometry {
    pub in_dims: [usize; 3],
    pub out_dims: [usize; 3],
    /// Inverse rotation in plane units: S⁻¹ Rᵀ S with S = diag(2^sx, 2^sy, 1).
    pub inv: Mat3,
    pub in_center: [Float; 3],
    pub out_center: [Float; 3],
    /// Window path in plane units.
    pub track: Track,
}

/// A mapping as a value.
#[verifier::ext_equal]
pub struct GeometryView {
    pub in_dims: Seq<nat>,
    pub out_dims: Seq<nat>,
    pub inv: Seq<Seq<int>>,
    pub in_center: Seq<int>,
    pub out_center: Seq<int>,
    pub track: TrackView,
}

impl View for Geometry {
    type V = GeometryView;

    open spec fn view(&self) -> GeometryView {
        GeometryView {
            in_dims: sides(self.in_dims),
            out_dims: sides(self.out_dims),
            inv: grid(self.inv),
            in_center: coords(self.in_center),
            out_center: coords(self.out_center),
            track: self.track@,
        }
    }
}

/// How many pixels one sample of a plane stands for along each axis.
pub open spec fn steps(sx: nat, sy: nat) -> Seq<int> {
    seq![(pow2(sx) * one()) as int, (pow2(sy) * one()) as int, one() as int]
}

/// The sides of a plane.
pub open spec fn plane_sides(d: Seq<nat>, sx: nat, sy: nat) -> Seq<nat> {
    seq![subsampled(d[0], sx), subsampled(d[1], sy), d[2]]
}

/// The centre of a plane, in its samples.
pub open spec fn plane_center(d: Seq<nat>, s: Seq<int>) -> Seq<int> {
    seq![quotient(half_side(d[0]), s[0]), quotient(half_side(d[1]), s[1]), half_side(d[2])]
}

/// The mapping of a plane.
pub open spec fn plane_mapping(
    g: Seq<Seq<int>>,
    in_dims: Seq<nat>,
    out_dims: Seq<nat>,
    track: TrackView,
    sx: nat,
    sy: nat,
) -> GeometryView {
    let s = steps(sx, sy);
    GeometryView {
        in_dims: plane_sides(in_dims, sx, sy),
        out_dims: plane_sides(out_dims, sx, sy),
        inv: Seq::new(
            3,
            |i: int| Seq::new(3, |j: int| quotient(product(g[j][i], s[j]), s[i])),
        ),
        in_center: plane_center(in_dims, s),
        out_center: plane_center(out_dims, s),
        track: TrackView {
            pos: seq![quotient(track.pos[0], s[0]), quotient(track.pos[1], s[1])],
            vel: seq![quotient(track.vel[0], s[0]), quotient(track.vel[1], s[1])],
            zc: track.zc,
        },
    }
}

impl GeometryView {
    /// The centre of an output voxel, relative to the centre of the rotated volume.
    pub open spec fn placed(self, x: int, y: int, z: int) -> Seq<int> {
        seq![
            sum(difference(sum(x, half()), self.out_center[0]), self.track.center(z, 0)),
            sum(difference(sum(y, half()), self.out_center[1]), self.track.center(z, 1)),
            difference(sum(z, half()), self.out_center[2]),
        ]
    }

    /// The input coordinate of the center of an output voxel.
    pub open spec fn mapped(self, x: int, y: int, z: int) -> Seq<int> {
        let q = applied(self.inv, self.placed(x, y, z));
        seq![
            sum(q[0], self.in_center[0]),
            sum(q[1], self.in_center[1]),
            sum(q[2], self.in_center[2]),
        ]
    }

    /// The step in the input when moving one output voxel along X.
    pub open spec fn step_x(self) -> Seq<int> {
        seq![self.inv[0][0], self.inv[1][0], self.inv[2][0]]
    }
}

fn scaled_row(row: [Float; 3], s: [Float; 3], by: Float) -> (r: [Float; 3])
    requires
        vector_within(row, 100),
        vector_within(s, 76),
        by.wf() && by.e <= 76 && by.m != 0 && by.value() >= one(),
    ensures
        forall|j: int|
            0 <= j < 3 ==> (#[trigger] r[j]).value() == quotient(
                product(row[j].value(), s[j].value()),
                by.value(),
            ),
        vector_within(r, 252),
{
    let p = [row[0].times(s[0]), row[1].times(s[1]), row[2].times(s[2])];
    let r = [p[0].over(by), p[1].over(by), p[2].over(by)];
    proof {
        let d = by.value() as nat;
        p[0].lemma_divided(r[0], d);
        p[1].lemma_divided(r[1], d);
        p[2].lemma_divided(r[2], d);
    }
    r
}

fn step_of(s: u8) -> (r: Float)
    requires
        s <= 31,
    ensures
        r.wf() && r.e <= 76 && r.m != 0,
        r.value() == pow2(s as nat) * one(),
        r.value() >= one(),
{
    proof {
        lemma2_to64();
        lemma_pow2_pos(1074);
        if s < 31 {
            lemma_pow2_strictly_increases(s as nat, 31);
        }
    }
    let p = power(s as u32) as u64;
    let r = Float::from_int(p);
    proof {
        assert(p * one() >= one()) by (nonlinear_arith)
            requires
                p > 0,
                one() > 0,
        ;
        r.lemma_nonzero();
    }
    r
}

fn center_of(d: [usize; 3], a: Float, b: Float) -> (r: [Float; 3])
    requires
        a.wf() && a.e <= 76 && a.m != 0 && a.value() >= one(),
        b.wf() && b.e <= 76 && b.m != 0 && b.value() >= one(),
    ensures
        coords(r) == plane_center(sides(d), seq![a.value(), b.value(), one() as int]),
        vector_within(r, 76),
{
    let t = Float::from_int(2);
    proof {
        lemma_pow2_pos(1074);
        t.lemma_nonzero();
    }
    let s = [Float::from_u64(d[0] as u64), Float::from_u64(d[1] as u64), Float::from_u64(d[2] as u64)];
    let h = [s[0].over(t), s[1].over(t), s[2].over(t)];
    let r = [h[0].over(a), h[1].over(b), h[2]];
    proof {
        let two = t.value() as nat;
        s[0].lemma_divided(h[0], two);
        s[1].lemma_divided(h[1], two);
        s[2].lemma_divided(h[2], two);
        h[0].lemma_divided(r[0], a.value() as nat);
        h[1].lemma_divided(r[1], b.value() as nat);
    }
    assert(coords(r) =~= plane_center(sides(d), seq![a.value(), b.value(), one() as int]));
    r
}

impl Geometry {
    /// Every number is one that the mapping can compute with: none is so large that a result could be
    /// infinite.
    pub open spec fn wf(self) -> bool {
        &&& within(self.inv, 252)
        &&& vector_within(self.in_center, 76)
        &&& vector_within(self.out_center, 76)
        &&& self.track.within(100)
    }

    /// Geometry of a plane that is not subsampled, with the window in the middle.
    pub fn new(rot: Mat3, in_dims: [usize; 3], out_dims: [usize; 3]) -> (r: Geometry)
        requires
            within(rot, 100),
        ensures
            r@ == plane_mapping(
                grid(rot),
                sides(in_dims),
                sides(out_dims),
                TrackView::centred(0),
                0,
                0,
            ),
            r.wf(),
    {
        Self::plane(&rot, in_dims, out_dims, Track::default(), 0, 0)
    }

    /// Geometry of a plane subsampled by 2^sx x 2^sy; dims and track are full-resolution (luma) values.
    pub fn plane(
        rot: &Mat3,
        in_dims: [usize; 3],
        out_dims: [usize; 3],
        track: Track,
        sx: u8,
        sy: u8,
    ) -> (r: Geometry)
        requires
            within(*rot, 100),
            track.within(100),
            sx <= 31,
            sy <= 31,
        ensures
            r@ == plane_mapping(
                grid(*rot),
                sides(in_dims),
                sides(out_dims),
                track@,
                sx as nat,
                sy as nat,
            ),
            r.wf(),
    {
        let a = step_of(sx);
        let b = step_of(sy);
        let u = Float::from_int(1);
        proof {
            lemma_pow2_pos(1074);
            assert(1 * one() == one());
            u.lemma_nonzero();
        }
        let s = [a, b, u];
        let rt = transpose(rot);
        assert forall|i: int| 0 <= i < 3 implies vector_within(#[trigger] rt[i], 100) by {
            assert forall|j: int| 0 <= j < 3 implies (#[trigger] rt[i][j]).wf() && rt[i][j].e
                <= 100 by {
                assert(rt[i][j] == rot[j][i]);
            }
        }
        let inv = [scaled_row(rt[0], s, a), scaled_row(rt[1], s, b), scaled_row(rt[2], s, u)];
        let ghost st = steps(sx as nat, sy as nat);
        let ghost g = grid(*rot);
        assert forall|i: int, j: int| 0 <= i < 3 && 0 <= j < 3 implies (#[trigger] grid(inv)[i][j])
            == quotient(product(g[j][i], st[j]), st[i]) by {
            assert(inv[i][j].value() == quotient(
                product(rt[i][j].value(), s[j].value()),
                s[i].value(),
            ));
            assert(rt[i][j] == rot[j][i]);
            assert(s[j].value() == st[j]);
            assert(s[i].value() == st[i]);
        }
        let moved = Track {
            pos: [track.pos[0].over(a), track.pos[1].over(b)],
            vel: [track.vel[0].over(a), track.vel[1].over(b)],
            zc: track.zc,
        };
        proof {
            track.pos[0].lemma_divided(moved.pos[0], a.value() as nat);
            track.pos[1].lemma_divided(moved.pos[1], b.value() as nat);
            track.vel[0].lemma_divided(moved.vel[0], a.value() as nat);
            track.vel[1].lemma_divided(moved.vel[1], b.value() as nat);
        }
        let r = Geometry {
            in_dims: [subsample(in_dims[0], sx), subsample(in_dims[1], sy), in_dims[2]],
            out_dims: [subsample(out_dims[0], sx), subsample(out_dims[1], sy), out_dims[2]],
            inv,
            in_center: center_of(in_dims, a, b),
            out_center: center_of(out_dims, a, b),
            track: moved,
        };
        proof {
            let want = plane_mapping(
                g,
                sides(in_dims),
                sides(out_dims),
                track@,
                sx as nat,
                sy as nat,
            );
            assert(r@.inv =~~= want.inv);
            assert(r@.in_dims =~= want.in_dims);
            assert(r@.out_dims =~= want.out_dims);
            assert(r@.track =~= want.track);
        }
        r
    }

    /// Continuous input coordinate of the center of output voxel (x, y, z).
    pub fn map(&self, x: Float, y: Float, z: Float) -> (r: [Float; 3])
        requires
            self.wf(),
            x.wf() && x.e <= 100,
            y.wf() && y.e <= 100,
            z.wf() && z.e <= 100,
        ensures
            coords(r) == self@.mapped(x.value(), y.value(), z.value()),
            vector_within(r, 4000),
    {
        let w = self.track.center(z);
        let h = Float::ratio(1, 2);
        let p = [
            x.plus(h).minus(self.out_center[0]).plus(w[0]),
            y.plus(h).minus(self.out_center[1]).plus(w[1]),
            z.plus(h).minus(self.out_center[2]),
        ];
        assert(coords(p) =~= self@.placed(x.value(), y.value(), z.value()));
        let q = bounded_image(
            &self.inv,
            p,
            Ghost(252),
            Ghost(2500),
        );
        let r = [
            q[0].plus(self.in_center[0]),
            q[1].plus(self.in_center[1]),
            q[2].plus(self.in_center[2]),
        ];
        proof {
            assert(q[0].value() == coords(q)[0]);
            assert(q[1].value() == coords(q)[1]);
            assert(q[2].value() == coords(q)[2]);
            assert(coords(r) =~= self@.mapped(x.value(), y.value(), z.value()));
        }
        r
    }

    /// Input-space step when moving one output voxel along output X.
    pub fn dx(&self) -> (r: [Float; 3])
        requires
            self.wf(),
        ensures
            coords(r) == self@.step_x(),
            vector_within(r, 252),
    {
        let r = [self.inv[0][0], self.inv[1][0], self.inv[2][0]];
        assert(coords(r) =~= self@.step_x());
        r
    }
}

} // verus!
