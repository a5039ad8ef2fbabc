//! What rendering keeps exactly: turns by multiples of 90° and flips move voxels unchanged.

use vstd::prelude::*;
use vstd::arithmetic::div_mod::{lemma_fundamental_div_mod, lemma_fundamental_div_mod_converse};
use vstd::arithmetic::power2::{
    lemma2_to64, lemma2_to64_rest, lemma_pow2_adds, lemma_pow2_pos, lemma_pow2_strictly_increases,
    pow2,
};
use crate::binary32::{complement32, narrowed, product32, sum32, unity};
use crate::binary64::{
    difference, floor_of, fraction, halves_are_exact, one, product, quotient, round_signed,
    small_fractions, sum, whole_numbers_are_exact, zero_product,
};
use crate::geometry::{applied, dot};
use crate::mapping::{plane_mapping, plane_sides, steps, GeometryView};
use crate::pixfmt::{planes_tile_the_frame, sample_bytes, subsampled};
use crate::render::{
    along, cell, lemma_voxel_inside, met, met_all, row_touched, taps, weights, RendererView,
    TapView,
};
use crate::rounding::{lemma_exact, lemma_rounded_positive, lemma_rounded_scale};
use crate::track::{half, half_side, TrackView};
use crate::volume::nearest_sample;

verus! {

/// One sixteenth: the centres of all planes are multiples of it.
pub open spec fn sixteenth() -> nat {
    pow2(1070)
}

/// A multiple of one sixteenth.
pub open spec fn at(m: int) -> int {
    m * sixteenth()
}

/// A multiple of one sixteenth that is not too large is exact.
pub proof fn lemma_at(m: int)
    requires
        -0x20_0000_0000_0000 < m < 0x20_0000_0000_0000,
    ensures
        round_signed(at(m), 1) == at(m),
        one() == 16 * sixteenth(),
        sixteenth() > 0,
        at(16) == one(),
        at(0) == 0,
{
    let e = sixteenth();
    lemma2_to64();
    lemma2_to64_rest();
    lemma_pow2_adds(4, 1070);
    lemma_pow2_pos(1070);
    if m < 0 {
        let n = (-m) as nat;
        lemma_exact(n, 1070, 53);
        assert(m * e == -(n * e)) by (nonlinear_arith)
            requires
                m == -n,
        ;
        assert(n * e > 0) by (nonlinear_arith)
            requires
                n > 0,
                e > 0,
        ;
    } else {
        lemma_exact(m as nat, 1070, 53);
        assert(m * e >= 0) by (nonlinear_arith)
            requires
                m >= 0,
                e > 0,
        ;
    }
    assert(0 * e == 0);
}

/// Sums and differences of multiples of one sixteenth are exact.
pub proof fn lemma_at_sum(m: int, n: int)
    requires
        -0x20_0000_0000_0000 < m + n < 0x20_0000_0000_0000,
        -0x20_0000_0000_0000 < m - n < 0x20_0000_0000_0000,
    ensures
        sum(at(m), at(n)) == at(m + n),
        difference(at(m), at(n)) == at(m - n),
{
    let e = sixteenth();
    lemma_at(m + n);
    lemma_at(m - n);
    assert(m * e + n * e == (m + n) * e) by (nonlinear_arith);
    assert(m * e + (-(n * e)) == (m - n) * e) by (nonlinear_arith);
}

/// A rounded quotient by one is the number, and by minus one its opposite.
proof fn lemma_at_unit(m: int)
    requires
        -0x20_0000_0000_0000 < m < 0x20_0000_0000_0000,
    ensures
        product(at(m), one() as int) == at(m),
        product(one() as int, at(m)) == at(m),
        product(at(m), -(one() as int)) == at(-m),
        product(-(one() as int), at(m)) == at(-m),
        quotient(at(m), one() as int) == at(m),
        quotient(at(m), -(one() as int)) == at(-m),
{
    let e = sixteenth();
    let u = one();
    lemma_at(m);
    lemma_at(-m);
    lemma_scaled(m, u);
    lemma_scaled(-m, u);
    assert(u * (m * e) == (m * e) * u) by (nonlinear_arith);
    assert((m * e) * (-u) == ((-m) * e) * u) by (nonlinear_arith);
    assert((-u) * (m * e) == ((-m) * e) * u) by (nonlinear_arith);
    assert((-(m * e)) * u == ((-m) * e) * u) by (nonlinear_arith);
}

/// A multiple of one sixteenth, scaled up and divided by the scale, is itself.
proof fn lemma_scaled(m: int, c: nat)
    requires
        -0x20_0000_0000_0000 < m < 0x20_0000_0000_0000,
        c > 0,
    ensures
        round_signed(at(m) * c, c) == at(m),
{
    lemma_at(m);
    let v = at(m);
    assert(1 * c == c);
    if v < 0 {
        assert(v * c < 0) by (nonlinear_arith)
            requires
                v < 0,
                c > 0,
        ;
        let n = (-v) as nat;
        assert((-(v * c)) == n * c) by (nonlinear_arith)
            requires
                n == -v,
        ;
        lemma_rounded_scale(n, 1, c, 53);
    } else {
        assert(v * c >= 0) by (nonlinear_arith)
            requires
                v >= 0,
                c > 0,
        ;
        lemma_rounded_scale(v as nat, 1, c, 53);
    }
}

/// Dividing by a power of two that divides is exact.
pub proof fn lemma_at_shift(m: int, s: nat)
    requires
        -0x20_0000_0000_0000 < m < 0x20_0000_0000_0000,
    ensures
        quotient(at(m * pow2(s)), (pow2(s) * one()) as int) == at(m),
        product(one() as int, (pow2(s) * one()) as int) == pow2(s) * one(),
        quotient((pow2(s) * one()) as int, (pow2(s) * one()) as int) == one(),
        quotient(-((pow2(s) * one()) as int), (pow2(s) * one()) as int) == -(one() as int),
        product(-(one() as int), (pow2(s) * one()) as int) == -((pow2(s) * one()) as int),
        quotient(0, (pow2(s) * one()) as int) == 0,
{
    let e = sixteenth();
    let u = one();
    let p = pow2(s);
    let c = (p * u) as nat;
    lemma_pow2_pos(s);
    lemma_pow2_pos(1074);
    assert(c > 0) by (nonlinear_arith)
        requires
            c == p * u,
            p > 0,
            u > 0,
    ;
    lemma_scaled(m, c);
    assert(((m * p) * e) * u == (m * e) * (p * u)) by (nonlinear_arith);
    lemma_at(16);
    lemma_scaled(16, c);
    lemma_scaled(-16, c);
    lemma_scaled(0, c);
    assert(at(-16) == -(u as int)) by (nonlinear_arith)
        requires
            at(-16) == -16 * e,
            u == 16 * e,
    ;
    assert(c * u == u * c) by (nonlinear_arith);
    assert((-(c as int)) * u == (-(u as int)) * c) by (nonlinear_arith);
    assert(0 * u == 0);
    assert(0 * c == 0);
    assert((-(u as int)) * c == -(c * u)) by (nonlinear_arith);
    lemma2_to64();
    lemma2_to64_rest();
    lemma_exact(1, s + 1074, 53);
    lemma_pow2_adds(s, 1074);
    assert(1 * c == c);
    lemma_rounded_scale(c, 1, u, 53);
    assert(1 * u == u);
    assert(c * u > 0) by (nonlinear_arith)
        requires
            c > 0,
            u > 0,
    ;
}

/// How the axes of the input lie in the output: input axis `j` runs along output axis `from[j]`,
/// backwards where `flip[j]` says so.
pub struct Turn {
    pub from: Seq<int>,
    pub flip: Seq<bool>,
}

impl Turn {
    /// Every output axis takes one input axis over.
    pub open spec fn wf(self) -> bool {
        &&& self.from.len() == 3
        &&& self.flip.len() == 3
        &&& forall|j: int| 0 <= j < 3 ==> 0 <= #[trigger] self.from[j] < 3
        &&& forall|j: int, k: int|
            0 <= j < 3 && 0 <= k < 3 && j != k ==> #[trigger] self.from[j] != #[trigger] self.from[k]
    }

    /// The entry of the rotation at output axis `i` and input axis `j`.
    pub open spec fn entry(self, i: int, j: int) -> int {
        if i != self.from[j] {
            0
        } else if self.flip[j] {
            -(one() as int)
        } else {
            one() as int
        }
    }

    /// The matrix is this turn.
    pub open spec fn is(self, g: Seq<Seq<int>>) -> bool {
        forall|i: int, j: int| 0 <= i < 3 && 0 <= j < 3 ==> #[trigger] g[i][j] == self.entry(i, j)
    }

    /// The turn fits frames of these sizes in a plane that is subsampled by `2^sx` and `2^sy`: sides
    /// change places only with sides of the same length and subsampling, and a side that is flipped
    /// is covered by whole samples.
    pub open spec fn fits(self, in_dims: Seq<nat>, out_dims: Seq<nat>, sx: nat, sy: nat) -> bool {
        let s = seq![sx, sy, 0];
        forall|j: int| #![trigger self.from[j]]
            0 <= j < 3 ==> {
                let i = self.from[j];
                &&& 0 < in_dims[j] < 0x1_0000_0000_0000
                &&& out_dims[i] == in_dims[j]
                &&& s[i] == s[j]
                &&& self.flip[j] ==> in_dims[j] % pow2(s[j]) == 0
            }
    }

    /// The voxel of the input plane that an output voxel shows.
    pub open spec fn source(self, dims: Seq<nat>, c: Seq<nat>) -> Seq<int> {
        Seq::new(
            3,
            |j: int|
                if self.flip[j] {
                    dims[j] - 1 - c[self.from[j]]
                } else {
                    c[self.from[j]] as int
                },
        )
    }
}

/// A side in sixteenths of a sample, halved.
pub open spec fn mid(d: nat, s: nat) -> int {
    if s == 0 {
        8 * d as int
    } else if s == 1 {
        4 * d as int
    } else {
        2 * d as int
    }
}

/// The centre of a side is exact.
proof fn lemma_center(d: nat, s: nat)
    requires
        d < 0x1_0000_0000_0000,
        s <= 2,
    ensures
        half_side(d) == at(8 * d as int),
        quotient(half_side(d), (pow2(s) * one()) as int) == at(mid(d, s)),
{
    let e = sixteenth();
    lemma2_to64();
    let w = 16 * d as int;
    lemma_at(w);
    whole_numbers_are_exact(d);
    assert(d * (16 * e) == w * e) by (nonlinear_arith)
        requires
            w == 16 * d,
    ;
    assert(fraction(d, 1) == at(w));
    lemma_at_shift(8 * d as int, 1);
    lemma_at_shift(mid(d, s), s);
    let (m, p) = (mid(d, s), pow2(s));
    assert(m * p == 8 * d) by (nonlinear_arith)
        requires
            (p == 1 && m == 8 * d) || (p == 2 && m == 4 * d) || (p == 4 && m == 2 * d),
    ;
}

/// The opposite of a multiple of one sixteenth.
proof fn lemma_at_neg(m: int)
    ensures
        at(-m) == -at(m),
{
    let e = sixteenth();
    assert((-m) * e == -(m * e)) by (nonlinear_arith);
}

/// A row of the inverse that takes one axis over picks that coordinate.
pub proof fn lemma_picked(row: Seq<int>, v: Seq<int>, i: int, flip: bool, m: Seq<int>)
    requires
        row.len() == 3,
        v.len() == 3,
        m.len() == 3,
        0 <= i < 3,
        forall|k: int| 0 <= k < 3 ==> #[trigger] v[k] == at(m[k]),
        forall|k: int|
            0 <= k < 3 ==> -0x10_0000_0000_0000 < #[trigger] m[k] < 0x10_0000_0000_0000,
        forall|k: int|
            0 <= k < 3 ==> #[trigger] row[k] == (if k != i {
                0
            } else if flip {
                -(one() as int)
            } else {
                one() as int
            }),
    ensures
        dot(row, v) == at(if flip {
            -m[i]
        } else {
            m[i]
        }),
{
    assert(v[0] == at(m[0]) && v[1] == at(m[1]) && v[2] == at(m[2]));
    assert(-0x10_0000_0000_0000 < m[0] < 0x10_0000_0000_0000);
    assert(-0x10_0000_0000_0000 < m[1] < 0x10_0000_0000_0000);
    assert(-0x10_0000_0000_0000 < m[2] < 0x10_0000_0000_0000);
    zero_product(v[0]);
    zero_product(v[1]);
    zero_product(v[2]);
    lemma_at_unit(m[i]);
    lemma_at(0);
    let w = if flip {
        -m[i]
    } else {
        m[i]
    };
    lemma_at_sum(w, 0);
    lemma_at_sum(0, w);
    lemma_at_sum(0, 0);
}

/// A plane mapping of a turn is the turn again.
proof fn lemma_inverse(t: Turn, g: Seq<Seq<int>>, sx: nat, sy: nat, j: int, k: int)
    requires
        t.wf(),
        t.is(g),
        sx <= 2,
        sy <= 2,
        0 <= j < 3,
        0 <= k < 3,
        ({
            let s = seq![sx, sy, 0];
            s[t.from[j]] == s[j]
        }),
    ensures
        quotient(product(g[k][j], steps(sx, sy)[k]), steps(sx, sy)[j]) == t.entry(k, j),
{
    let s = seq![sx, sy, 0nat];
    lemma2_to64();
    lemma_at_shift(0, s[k]);
    lemma_at_shift(0, s[j]);
    assert(g[k][j] == t.entry(k, j));
    assert(steps(sx, sy)[k] == pow2(s[k]) * one()) by {
        assert(1 * one() == one());
    }
    assert(steps(sx, sy)[j] == pow2(s[j]) * one()) by {
        assert(1 * one() == one());
    }
    zero_product(steps(sx, sy)[k]);
}

/// A plane of a still window in the middle.
pub open spec fn still_plane(
    g: Seq<Seq<int>>,
    in_dims: Seq<nat>,
    out_dims: Seq<nat>,
    zc: int,
    sx: nat,
    sy: nat,
) -> GeometryView {
    plane_mapping(g, in_dims, out_dims, TrackView::centred(zc), sx, sy)
}

/// A window in the middle adds nothing.
pub proof fn lemma_still(
    g: Seq<Seq<int>>,
    in_dims: Seq<nat>,
    out_dims: Seq<nat>,
    zc: int,
    sx: nat,
    sy: nat,
    z: int,
    a: int,
)
    requires
        0 <= a < 2,
    ensures
        still_plane(g, in_dims, out_dims, zc, sx, sy).track.center(z, a) == 0,
{
    let t = still_plane(g, in_dims, out_dims, zc, sx, sy).track;
    lemma_at_shift(0, sx);
    lemma_at_shift(0, sy);
    lemma_at(0);
    lemma_at_sum(0, 0);
    assert(t.pos[a] == 0);
    assert(t.vel[a] == 0);
    zero_product(difference(sum(z, half()), t.zc));
}

/// Where an output voxel lies, in sixteenths of a sample.
pub open spec fn spot(out_dims: Seq<nat>, s: Seq<nat>, c: Seq<nat>, i: int) -> int {
    16 * c[i] + 8 - mid(out_dims[i], s[i])
}

/// An output voxel is placed exactly.
pub proof fn lemma_placed(
    g: Seq<Seq<int>>,
    in_dims: Seq<nat>,
    out_dims: Seq<nat>,
    zc: int,
    sx: nat,
    sy: nat,
    c: Seq<nat>,
    i: int,
)
    requires
        out_dims.len() == 3,
        c.len() == 3,
        sx <= 2,
        sy <= 2,
        0 <= i < 3,
        c[i] < 0x1_0000_0000_0000,
        out_dims[i] < 0x1_0000_0000_0000,
    ensures
        ({
            let p = still_plane(g, in_dims, out_dims, zc, sx, sy);
            p.placed(
                fraction(c[0], 1) as int,
                fraction(c[1], 1) as int,
                fraction(c[2], 1) as int,
            )[i] == at(spot(out_dims, seq![sx, sy, 0], c, i))
        }),
{
    let p = still_plane(g, in_dims, out_dims, zc, sx, sy);
    let s = seq![sx, sy, 0nat];
    let e = sixteenth();
    let n = c[i];
    lemma2_to64();
    lemma_center(out_dims[i], s[i]);
    assert(1 * one() == one());
    lemma_at(0);
    whole_numbers_are_exact(n);
    assert(n * (16 * e) == (16 * n as int) * e) by (nonlinear_arith);
    assert(fraction(n, 1) == at(16 * n as int));
    halves_are_exact(1);
    assert(1 * pow2(1073) == pow2(1073));
    assert(half() == at(8));
    lemma_at_sum(16 * n as int, 8);
    let m = mid(out_dims[i], s[i]);
    assert(p.out_center[i] == at(m));
    lemma_at_sum(16 * n as int + 8, m);
    lemma_at_sum(16 * n as int + 8 - m, 0);
    if i < 2 {
        lemma_still(g, in_dims, out_dims, zc, sx, sy, fraction(c[2], 1) as int, i);
    }
}

/// Where a turn finds an output voxel: in the middle of the voxel that it shows.
proof fn lemma_turned(
    t: Turn,
    g: Seq<Seq<int>>,
    in_dims: Seq<nat>,
    out_dims: Seq<nat>,
    zc: int,
    sx: nat,
    sy: nat,
    c: Seq<nat>,
    j: int,
)
    requires
        t.wf(),
        t.is(g),
        t.fits(in_dims, out_dims, sx, sy),
        in_dims.len() == 3,
        out_dims.len() == 3,
        c.len() == 3,
        sx <= 2,
        sy <= 2,
        0 <= j < 3,
        forall|i: int| 0 <= i < 3 ==> #[trigger] c[i] < plane_sides(out_dims, sx, sy)[i],
    ensures
        ({
            let p = still_plane(g, in_dims, out_dims, zc, sx, sy);
            let src = t.source(p.in_dims, c);
            &&& p.mapped(
                fraction(c[0], 1) as int,
                fraction(c[1], 1) as int,
                fraction(c[2], 1) as int,
            )[j] == at(16 * src[j] + 8)
            &&& 0 <= src[j] < p.in_dims[j]
        }),
{
    let p = still_plane(g, in_dims, out_dims, zc, sx, sy);
    let s = seq![sx, sy, 0nat];
    let i = t.from[j];
    let m = spots(out_dims, s, c);
    let v = p.placed(
        fraction(c[0], 1) as int,
        fraction(c[1], 1) as int,
        fraction(c[2], 1) as int,
    );
    lemma_spots(t, g, in_dims, out_dims, zc, sx, sy, c);
    lemma_rows(t, g, in_dims, out_dims, zc, sx, sy, j);
    lemma_picked(p.inv[j], v, i, t.flip[j], m);
    let o = mid(in_dims[j], s[j]);
    lemma_middle(g, in_dims, out_dims, zc, sx, sy, j);
    let w = if t.flip[j] {
        -m[i]
    } else {
        m[i]
    };
    lemma_found(
        p,
        fraction(c[0], 1) as int,
        fraction(c[1], 1) as int,
        fraction(c[2], 1) as int,
        j,
        w,
        o,
    );
    lemma_shown(t, in_dims, out_dims, sx, sy, c, j);
}

/// The centre of the input plane along an axis.
pub proof fn lemma_middle(
    g: Seq<Seq<int>>,
    in_dims: Seq<nat>,
    out_dims: Seq<nat>,
    zc: int,
    sx: nat,
    sy: nat,
    j: int,
)
    requires
        in_dims.len() == 3,
        sx <= 2,
        sy <= 2,
        0 <= j < 3,
        in_dims[j] < 0x1_0000_0000_0000,
    ensures
        still_plane(g, in_dims, out_dims, zc, sx, sy).in_center[j] == at(
            mid(in_dims[j], seq![sx, sy, 0][j]),
        ),
{
    lemma2_to64();
    assert(1 * one() == one());
    lemma_center(in_dims[j], seq![sx, sy, 0nat][j]);
}

/// A coordinate that is rotated and moved exactly.
pub proof fn lemma_found(p: GeometryView, x: int, y: int, z: int, j: int, w: int, o: int)
    requires
        0 <= j < 3,
        dot(p.inv[j], p.placed(x, y, z)) == at(w),
        p.in_center[j] == at(o),
        -0x10_0000_0000_0000 < w < 0x10_0000_0000_0000,
        -0x10_0000_0000_0000 < o < 0x10_0000_0000_0000,
    ensures
        p.mapped(x, y, z)[j] == at(w + o),
{
    lemma_at_sum(w, o);
    assert(applied(p.inv, p.placed(x, y, z))[j] == dot(p.inv[j], p.placed(x, y, z)));
}

/// The voxel that a turn shows, in sixteenths.
proof fn lemma_shown(
    t: Turn,
    in_dims: Seq<nat>,
    out_dims: Seq<nat>,
    sx: nat,
    sy: nat,
    c: Seq<nat>,
    j: int,
)
    requires
        t.wf(),
        t.fits(in_dims, out_dims, sx, sy),
        in_dims.len() == 3,
        out_dims.len() == 3,
        c.len() == 3,
        sx <= 2,
        sy <= 2,
        0 <= j < 3,
        c[t.from[j]] < plane_sides(out_dims, sx, sy)[t.from[j]],
    ensures
        ({
            let s = seq![sx, sy, 0];
            let m = spots(out_dims, s, c)[t.from[j]];
            let w = if t.flip[j] {
                -m
            } else {
                m
            };
            let dims = plane_sides(in_dims, sx, sy);
            let src = t.source(dims, c);
            &&& w + mid(in_dims[j], s[j]) == 16 * src[j] + 8
            &&& 0 <= src[j] < dims[j]
        }),
{
    let s = seq![sx, sy, 0nat];
    let i = t.from[j];
    lemma_whole_samples(in_dims[j], s[j]);
    lemma_unsampled(out_dims[2]);
    lemma_unsampled(in_dims[2]);
    assert(plane_sides(out_dims, sx, sy)[i] == subsampled(in_dims[j], s[j]));
    assert(plane_sides(in_dims, sx, sy)[j] == subsampled(in_dims[j], s[j]));
    assert(spots(out_dims, s, c)[i] == 16 * c[i] + 8 - mid(in_dims[j], s[j]));
}

/// Where an output voxel lies along each axis.
pub open spec fn spots(out_dims: Seq<nat>, s: Seq<nat>, c: Seq<nat>) -> Seq<int> {
    seq![spot(out_dims, s, c, 0), spot(out_dims, s, c, 1), spot(out_dims, s, c, 2)]
}

/// Output voxels are placed exactly, and not too far away.
proof fn lemma_spots(
    t: Turn,
    g: Seq<Seq<int>>,
    in_dims: Seq<nat>,
    out_dims: Seq<nat>,
    zc: int,
    sx: nat,
    sy: nat,
    c: Seq<nat>,
)
    requires
        t.wf(),
        t.fits(in_dims, out_dims, sx, sy),
        in_dims.len() == 3,
        out_dims.len() == 3,
        c.len() == 3,
        sx <= 2,
        sy <= 2,
        forall|i: int| 0 <= i < 3 ==> #[trigger] c[i] < plane_sides(out_dims, sx, sy)[i],
    ensures
        ({
            let v = still_plane(g, in_dims, out_dims, zc, sx, sy).placed(
                fraction(c[0], 1) as int,
                fraction(c[1], 1) as int,
                fraction(c[2], 1) as int,
            );
            let m = spots(out_dims, seq![sx, sy, 0], c);
            &&& v.len() == 3
            &&& forall|k: int| 0 <= k < 3 ==> #[trigger] v[k] == at(m[k])
            &&& forall|k: int|
                0 <= k < 3 ==> -0x10_0000_0000_0000 < #[trigger] m[k] < 0x10_0000_0000_0000
        }),
{
    lemma_small(t, in_dims, out_dims, sx, sy, 0);
    lemma_small(t, in_dims, out_dims, sx, sy, 1);
    lemma_small(t, in_dims, out_dims, sx, sy, 2);
    assert(c[0] < plane_sides(out_dims, sx, sy)[0]);
    assert(c[1] < plane_sides(out_dims, sx, sy)[1]);
    assert(c[2] < plane_sides(out_dims, sx, sy)[2]);
    lemma_placed(g, in_dims, out_dims, zc, sx, sy, c, 0);
    lemma_placed(g, in_dims, out_dims, zc, sx, sy, c, 1);
    lemma_placed(g, in_dims, out_dims, zc, sx, sy, c, 2);
}

/// The rows of the inverse are those of the turn.
proof fn lemma_rows(
    t: Turn,
    g: Seq<Seq<int>>,
    in_dims: Seq<nat>,
    out_dims: Seq<nat>,
    zc: int,
    sx: nat,
    sy: nat,
    j: int,
)
    requires
        t.wf(),
        t.is(g),
        t.fits(in_dims, out_dims, sx, sy),
        sx <= 2,
        sy <= 2,
        0 <= j < 3,
    ensures
        ({
            let row = still_plane(g, in_dims, out_dims, zc, sx, sy).inv[j];
            &&& row.len() == 3
            &&& forall|k: int| 0 <= k < 3 ==> #[trigger] row[k] == t.entry(k, j)
        }),
{
    let row = still_plane(g, in_dims, out_dims, zc, sx, sy).inv[j];
    assert(0 <= t.from[j] < 3);
    assert forall|k: int| 0 <= k < 3 implies #[trigger] row[k] == t.entry(k, j) by {
        lemma_inverse(t, g, sx, sy, j, k);
    }
}

/// No subsampling keeps every pixel.
pub proof fn lemma_unsampled(d: nat)
    ensures
        subsampled(d, 0) == d,
{
    lemma2_to64();
}

/// There are no more samples than pixels.
pub proof fn lemma_samples(d: nat, s: nat)
    requires
        s <= 2,
        d > 0,
    ensures
        0 < subsampled(d, s) <= d,
{
    lemma2_to64();
    if s == 1 {
        assert((d + 2 - 1) / 2 <= d);
    } else if s == 2 {
        assert((d + 4 - 1) / 4 <= d);
    }
}

/// The sides of what a turn fits are not too large, and no more samples than pixels.
proof fn lemma_small(
    t: Turn,
    in_dims: Seq<nat>,
    out_dims: Seq<nat>,
    sx: nat,
    sy: nat,
    k: int,
)
    requires
        t.wf(),
        t.fits(in_dims, out_dims, sx, sy),
        in_dims.len() == 3,
        out_dims.len() == 3,
        sx <= 2,
        sy <= 2,
        0 <= k < 3,
    ensures
        out_dims[k] < 0x1_0000_0000_0000,
        plane_sides(out_dims, sx, sy)[k] <= out_dims[k],
{
    assert(t.from[0] != t.from[1] && t.from[0] != t.from[2] && t.from[1] != t.from[2]);
    assert(0 <= t.from[0] < 3 && 0 <= t.from[1] < 3 && 0 <= t.from[2] < 3);
    assert(k == t.from[0] || k == t.from[1] || k == t.from[2]);
    lemma_samples(out_dims[k], seq![sx, sy, 0nat][k]);
    lemma_unsampled(out_dims[2]);
}

/// The samples that cover a side, where they cover it exactly.
proof fn lemma_whole_samples(d: nat, s: nat)
    requires
        s <= 2,
    ensures
        d % pow2(s) == 0 ==> 2 * mid(d, s) == 16 * subsampled(d, s),
{
    lemma2_to64();
    if d % pow2(s) == 0 {
        let p = pow2(s);
        let n = d / p;
        lemma_fundamental_div_mod(d as int, p as int);
        if s == 0 {
        } else if s == 1 {
            assert((d + 2 - 1) / 2 == n);
        } else {
            assert((d + 4 - 1) / 4 == n);
        }
    }
}

/// A row of a turn, voxel by voxel: each step along X goes one voxel along one input axis.
proof fn lemma_along(t: Turn, dims: Seq<nat>, c: Seq<nat>, j: int)
    requires
        t.wf(),
        c.len() == 3,
        dims.len() == 3,
        0 <= j < 3,
        c[0] < 0x1_0000_0000_0000,
        0 <= t.source(dims, c.update(0, 0))[j] < 0x1_0000_0000_0000,
        0 <= t.source(dims, c)[j] < 0x1_0000_0000_0000,
    ensures
        along(at(16 * t.source(dims, c.update(0, 0))[j] + 8), t.entry(0, j), c[0]) == at(
            16 * t.source(dims, c)[j] + 8,
        ),
{
    let x = c[0];
    let e = sixteenth();
    let k = t.source(dims, c.update(0, 0))[j];
    let m = 16 * k + 8;
    lemma_at(0);
    whole_numbers_are_exact(x);
    assert(x * (16 * e) == (16 * x as int) * e) by (nonlinear_arith);
    assert(fraction(x, 1) == at(16 * x as int));
    let w = 16 * x as int;
    if t.from[j] == 0 {
        lemma_at_unit(w);
        lemma_at_sum(m, w);
        lemma_at_sum(m, -w);
    } else {
        zero_product(fraction(x, 1) as int);
        lemma_at_sum(m, 0);
    }
}

/// A margin in sixteenths.
pub open spec fn sixteenths(m: int) -> int {
    if m == 0 {
        0
    } else {
        8
    }
}

/// A side and a half, in sixteenths.
pub proof fn lemma_bounds(dim: nat, margin: int)
    requires
        dim < 0x1_0000_0000_0000,
        margin == 0 || margin == half(),
    ensures
        margin == at(sixteenths(margin)),
        -margin == at(-sixteenths(margin)),
        half() == at(8),
        fraction(dim, 1) == at(16 * dim as int),
        sum(fraction(dim, 1) as int, margin) == at(16 * dim as int + sixteenths(margin)),
{
    let e = sixteenth();
    lemma_at(0);
    lemma_at(8);
    halves_are_exact(1);
    assert(1 * pow2(1073) == pow2(1073));
    assert(half() == at(8));
    assert(8 * e > 0);
    whole_numbers_are_exact(dim);
    assert(dim * (16 * e) == (16 * dim as int) * e) by (nonlinear_arith);
    lemma_at_sum(16 * dim as int, sixteenths(margin));
    lemma_at_neg(sixteenths(margin));
}

/// Multiples of one sixteenth are ordered as their numbers.
proof fn lemma_at_order(m: int, n: int)
    ensures
        (at(m) < at(n)) == (m < n),
        (at(m) == at(n)) == (m == n),
{
    let e = sixteenth();
    lemma_at(0);
    assert((m * e < n * e) == (m < n)) by (nonlinear_arith)
        requires
            e > 0,
    ;
    assert((m * e == n * e) == (m == n)) by (nonlinear_arith)
        requires
            e > 0,
    ;
}

/// An axis along which a row does not move: the row lies between the sides.
pub proof fn lemma_met_still(acc: (int, int), k: int, dim: nat, margin: int)
    requires
        dim < 0x1_0000_0000_0000,
        0 <= k < dim,
        margin == 0 || margin == half(),
    ensures
        met(acc, at(16 * k + 8), 0, dim, margin) == Some(acc),
{
    lemma_bounds(dim, margin);
    lemma_at_order(16 * k + 8, -sixteenths(margin));
    lemma_at_order(16 * dim as int + sixteenths(margin), 16 * k + 8);
    lemma_pow2_pos(1074);
    lemma_tiny();
}

/// A very small number is not zero, and less than one.
proof fn lemma_tiny()
    ensures
        0 < fraction(1, 1_000_000_000_000) < one(),
{
    small_fractions(1_000_000_000_000);
    lemma2_to64();
    lemma_pow2_strictly_increases(64, 1074);
    assert(1 * one() == one());
    lemma_rounded_positive(one(), 1_000_000_000_000, 53);
}

/// The axis along which a row moves: the row meets it over its whole length.
proof fn lemma_met_moving(flip: bool, dim: nat, margin: int)
    requires
        0 < dim < 0x1_0000_0000_0000,
        margin == 0 || margin == half(),
    ensures
        ({
            let start = if flip {
                dim - 1
            } else {
                0
            };
            let dq = if flip {
                -(one() as int)
            } else {
                one() as int
            };
            met((0, fraction(dim, 1) as int), at(16 * start + 8), dq, dim, margin) == Some(
                (0int, at(16 * dim as int - 8 + sixteenths(margin))),
            )
        }),
{
    let start = if flip {
        dim - 1
    } else {
        0
    };
    let q = 16 * start + 8;
    let mm = sixteenths(margin);
    lemma_tiny();
    lemma_at(0);
    lemma_bounds(dim, margin);
    lemma_at_sum(-mm, q);
    lemma_at_sum(16 * dim as int + mm, q);
    lemma_at_unit(-mm - q);
    lemma_at_unit(16 * dim as int + mm - q);
    let lo = -8 - mm;
    let hi = 16 * dim as int - 8 + mm;
    lemma_at_order(lo, hi);
    lemma_at_order(hi, lo);
    lemma_at_order(0, lo);
    lemma_at_order(hi, 16 * dim as int);
}

/// The whole parts of multiples of one sixteenth.
pub proof fn lemma_whole_part(k: int, r: int)
    requires
        0 <= r < 16,
    ensures
        floor_of(at(16 * k + r)) == k,
{
    let e = sixteenth();
    lemma_at(0);
    assert(r * e < 16 * e) by (nonlinear_arith)
        requires
            r < 16,
            e > 0,
    ;
    assert(0 <= r * e) by (nonlinear_arith)
        requires
            r >= 0,
            e > 0,
    ;
    assert((16 * k + r) * e == (16 * e) * k + r * e) by (nonlinear_arith);
    assert((16 * e) * k == k * (16 * e)) by (nonlinear_arith);
    lemma_fundamental_div_mod_converse((16 * k + r) * e, (16 * e) as int, k, r * e);
}

/// A row that meets the volume from end to end is rendered from end to end.
pub proof fn lemma_whole_row(g: GeometryView, q0: Seq<int>, dq: Seq<int>, margin: int)
    requires
        0 < g.out_dims[0] < 0x1_0000_0000_0000,
        g.out_dims[0] <= usize::MAX,
        margin == 0 || margin == half(),
        met_all(g, q0, dq, margin) == Some(
            (0int, at(16 * g.out_dims[0] as int - 8 + sixteenths(margin))),
        ),
    ensures
        row_touched(g, q0, dq, margin) == Some((0nat, g.out_dims[0])),
{
    let n = g.out_dims[0];
    let u = one();
    let e = sixteenth();
    let top = 16 * n as int - 8 + sixteenths(margin);
    lemma_at(0);
    lemma_at_order(0, top);
    lemma_bounds(n, 0);
    lemma_whole_part(0, 0);
    lemma_whole_part(n as int, 0);
    // rounding the ends down and up
    lemma_at_neg(top);
    if margin == 0 {
        assert(-top == 16 * (-(n as int)) + 8);
        lemma_whole_part(-(n as int), 8);
    } else {
        lemma_bounds(n, margin);
        assert(8 * e > 0);
        assert(-top == 16 * (-(n as int)));
        lemma_whole_part(-(n as int), 0);
    }
    assert(0 * u == 0);
    lemma_at_sum(0, 16);
    lemma_at_neg(16);
    lemma_at_order(-16, 0);
    assert(n * (16 * e) == (16 * n as int) * e) by (nonlinear_arith);
    lemma_at_sum(16 * n as int, 16);
    lemma_at_order(16 * n as int + 16, 16 * n as int);
}

/// The product of a binary32 number with one, and with zero.
pub proof fn lemma_unity(n: nat)
    requires
        n < 0x100_0000,
    ensures
        unity() > 0,
        product32(unity(), n * unity()) == n * unity(),
        sum32(0, n * unity()) == n * unity(),
        product32(unity(), unity()) == unity(),
        product32(unity(), 0) == 0,
        complement32(0) == unity(),
        narrowed(0) == 0,
{
    let u = unity();
    lemma2_to64();
    lemma_pow2_pos(149);
    lemma_pow2_pos(925);
    lemma_exact(n, 149, 24);
    lemma_exact(1, 149, 24);
    assert(1 * u == u);
    assert(u * (n * u) == (n * u) * u) by (nonlinear_arith);
    lemma_rounded_scale(n * u, 1, u, 24);
    lemma_rounded_scale(u, 1, u, 24);
    lemma_exact(0, 0, 24);
    assert(0 * pow2(0) == 0);
    assert(u * 0 == 0);
    assert(0 * u == 0);
    lemma_rounded_scale(0, 1, u, 24);
    let d = pow2(925);
    assert(0 * d == 0);
    assert(1 * d == d);
    lemma_rounded_scale(0, 1, d, 24);
}

/// A sample that is alone is stored as it was.
proof fn lemma_stored(n: nat, top: nat)
    requires
        n <= top < 0x10_0000,
    ensures
        nearest_sample(n * unity(), top) == n,
{
    let h = pow2(148);
    lemma2_to64();
    lemma_pow2_adds(1, 148);
    lemma_pow2_pos(148);
    lemma_exact(2 * n + 1, 148, 24);
    assert(n * (2 * h) + h == (2 * n + 1) * h) by (nonlinear_arith);
    assert((2 * n + 1) * h == (2 * h) * n + h) by (nonlinear_arith);
    assert((2 * h) * n == n * (2 * h)) by (nonlinear_arith);
    lemma_fundamental_div_mod_converse(((2 * n + 1) * h) as int, (2 * h) as int, n as int, h as int);
}

/// The voxels around the middle of a voxel are that voxel alone.
proof fn lemma_one_tap(k: Seq<int>, q: Seq<int>, dims: Seq<nat>)
    requires
        k.len() == 3,
        q.len() == 3,
        dims.len() == 3,
        forall|j: int| 0 <= j < 3 ==> 0 <= #[trigger] k[j] < dims[j] < 0x1_0000_0000_0000,
        forall|j: int| 0 <= j < 3 ==> #[trigger] q[j] == at(16 * k[j]),
    ensures
        taps(q, dims) == seq![
            TapView { weight: unity(), voxel: Some((k[0], k[1], k[2])) },
        ],
{
    lemma_unity(0);
    assert(0 <= k[0] < dims[0] < 0x1_0000_0000_0000);
    assert(0 <= k[1] < dims[1] < 0x1_0000_0000_0000);
    assert(0 <= k[2] < dims[2] < 0x1_0000_0000_0000);
    lemma_corner(k[0], q[0]);
    lemma_corner(k[1], q[1]);
    lemma_corner(k[2], q[2]);
    assert(taps(q, dims) =~= seq![
        TapView { weight: unity(), voxel: Some((k[0], k[1], k[2])) },
    ]);
}

/// At a whole coordinate the whole weight is on one cell.
pub proof fn lemma_corner(k: int, q: int)
    requires
        0 <= k < 0x1_0000_0000_0000,
        q == at(16 * k),
    ensures
        cell(q) == k,
        weights(q) == (unity(), 0nat),
{
    let e = sixteenth();
    lemma_unity(0);
    lemma_at(0);
    lemma_whole_part(k, 0);
    assert(k * (16 * e) == (16 * k) * e) by (nonlinear_arith);
    lemma_at_sum(16 * k, 16 * k);
}

/// A voxel alone gives its own bytes.
#[verifier::rlimit(40)]
proof fn lemma_alone(r: RendererView, vol: Seq<Seq<u8>>, p: int, t: TapView, n: nat)
    requires
        1 <= r.format.bytes <= 2,
        t.weight == unity(),
        r.voxel_or_fill(vol, p, t.voxel).len() >= n * r.format.bytes,
    ensures
        r.blended_bytes(vol, p, seq![t], n) == r.voxel_or_fill(vol, p, t.voxel).take(
            (n * r.format.bytes) as int,
        ),
    decreases n,
{
    let v = r.voxel_or_fill(vol, p, t.voxel);
    let b = r.format.bytes;
    if n == 0 {
        assert(0 * b == 0);
        assert(r.blended_bytes(vol, p, seq![t], 0) =~= v.take(0));
    } else {
        let m = (n - 1) as nat;
        assert(n * b == m * b + b) by (nonlinear_arith)
            requires
                n == m + 1,
        ;
        lemma_alone(r, vol, p, t, m);
        let x = r.tap_sample(vol, p, t, m as int);
        let top: nat = if b == 1 {
            255
        } else {
            65535
        };
        assert(x <= top);
        lemma_unity(x);
        assert(seq![t].drop_last() =~= Seq::<TapView>::empty());
        reveal_with_fuel(RendererView::blended, 2);
        assert(r.blended(vol, p, seq![t], m as int) == x * unity());
        lemma_stored(x, top);
        let at = (m * b) as int;
        assert(sample_bytes(x, b) =~= v.subrange(at, at + b)) by {
            if b == 2 {
                let (lo, hi) = (v[at] as nat, v[at + 1] as nat);
                assert(x == lo + 256 * hi);
                assert(x % 256 == lo && x / 256 == hi);
            }
        }
        assert(r.blended_bytes(vol, p, seq![t], n) =~= v.take((n * b) as int));
    }
}

/// What a renderer and a turn have to do with each other: the renderer turns frames of `in_dims`
/// into frames of `out_dims` with a still window in the middle, and the turn fits plane `p`.
#[verifier::opaque]
pub open spec fn turns_plane(
    r: RendererView,
    t: Turn,
    g: Seq<Seq<int>>,
    in_dims: Seq<nat>,
    out_dims: Seq<nat>,
    zc: int,
    p: int,
) -> bool {
    &&& r.wf()
    &&& r.renders(r.format, g, in_dims, out_dims, TrackView::centred(zc), r.interp, r.fill)
    &&& in_dims.len() == 3
    &&& out_dims.len() == 3
    &&& 0 <= p < r.format.planes.len()
    &&& t.wf()
    &&& t.is(g)
    &&& t.fits(in_dims, out_dims, r.format.planes[p].sx, r.format.planes[p].sy)
}

/// A plane of a turn: the turn fits, and the voxel lies in the output plane.
spec fn turned_plane(
    t: Turn,
    g: Seq<Seq<int>>,
    in_dims: Seq<nat>,
    out_dims: Seq<nat>,
    sx: nat,
    sy: nat,
    c: Seq<nat>,
) -> bool {
    &&& t.wf()
    &&& t.is(g)
    &&& t.fits(in_dims, out_dims, sx, sy)
    &&& in_dims.len() == 3
    &&& out_dims.len() == 3
    &&& c.len() == 3
    &&& sx <= 2
    &&& sy <= 2
    &&& forall|i: int| 0 <= i < 3 ==> #[trigger] c[i] < plane_sides(out_dims, sx, sy)[i]
}

/// The voxel that a turn shows, and the one at the start of its row.
proof fn lemma_turned_axis(
    t: Turn,
    g: Seq<Seq<int>>,
    in_dims: Seq<nat>,
    out_dims: Seq<nat>,
    zc: int,
    sx: nat,
    sy: nat,
    c: Seq<nat>,
    j: int,
)
    requires
        turned_plane(t, g, in_dims, out_dims, sx, sy, c),
        0 <= j < 3,
    ensures
        ({
            let m = still_plane(g, in_dims, out_dims, zc, sx, sy);
            let q0 = m.mapped(0, fraction(c[1], 1) as int, fraction(c[2], 1) as int);
            let src = t.source(m.in_dims, c);
            let start = t.source(m.in_dims, c.update(0, 0));
            &&& q0[j] == at(16 * start[j] + 8)
            &&& m.step_x()[j] == t.entry(0, j)
            &&& along(q0[j], m.step_x()[j], c[0]) == at(16 * src[j] + 8)
            &&& 0 <= src[j] < m.in_dims[j] < 0x1_0000_0000_0000
            &&& 0 <= start[j] < m.in_dims[j]
            &&& m.out_dims[0] < 0x1_0000_0000_0000
            &&& t.from[j] == 0 ==> m.in_dims[j] == m.out_dims[0]
        }),
{
    let m = still_plane(g, in_dims, out_dims, zc, sx, sy);
    assert(c[0] < plane_sides(out_dims, sx, sy)[0]);
    assert(0 <= t.from[j] < 3);
    assert(c[t.from[j]] < plane_sides(out_dims, sx, sy)[t.from[j]]);
    lemma_row_begin(t, g, in_dims, out_dims, zc, sx, sy, c, j);
    lemma_small(t, in_dims, out_dims, sx, sy, 0);
    lemma_shown(t, in_dims, out_dims, sx, sy, c, j);
    lemma_step(t, g, in_dims, out_dims, zc, sx, sy, j);
    lemma_plane_side(t, in_dims, out_dims, sx, sy, j);
    lemma_along(t, m.in_dims, c, j);
}

/// The step along a row goes along the input axis that lies along it.
proof fn lemma_step(
    t: Turn,
    g: Seq<Seq<int>>,
    in_dims: Seq<nat>,
    out_dims: Seq<nat>,
    zc: int,
    sx: nat,
    sy: nat,
    j: int,
)
    requires
        t.wf(),
        t.is(g),
        t.fits(in_dims, out_dims, sx, sy),
        sx <= 2,
        sy <= 2,
        0 <= j < 3,
    ensures
        still_plane(g, in_dims, out_dims, zc, sx, sy).step_x()[j] == t.entry(0, j),
{
    lemma_rows(t, g, in_dims, out_dims, zc, sx, sy, j);
    let row = still_plane(g, in_dims, out_dims, zc, sx, sy).inv[j];
    assert(row[0] == t.entry(0, j));
}

/// Where a row of a turn begins.
proof fn lemma_row_begin(
    t: Turn,
    g: Seq<Seq<int>>,
    in_dims: Seq<nat>,
    out_dims: Seq<nat>,
    zc: int,
    sx: nat,
    sy: nat,
    c: Seq<nat>,
    j: int,
)
    requires
        turned_plane(t, g, in_dims, out_dims, sx, sy, c),
        0 <= j < 3,
    ensures
        ({
            let m = still_plane(g, in_dims, out_dims, zc, sx, sy);
            let q0 = m.mapped(0, fraction(c[1], 1) as int, fraction(c[2], 1) as int);
            let start = t.source(m.in_dims, c.update(0, 0));
            &&& q0[j] == at(16 * start[j] + 8)
            &&& 0 <= start[j] < m.in_dims[j]
        }),
{
    let first = c.update(0, 0);
    whole_numbers_are_exact(0);
    assert(0 * one() == 0);
    let d = plane_sides(out_dims, sx, sy);
    assert(c[0] < d[0] && c[1] < d[1] && c[2] < d[2]);
    assert(first[0] == 0 && first[1] == c[1] && first[2] == c[2]);
    lemma_turned(t, g, in_dims, out_dims, zc, sx, sy, first, j);
}

/// The sides of planes that a turn fits.
proof fn lemma_plane_side(
    t: Turn,
    in_dims: Seq<nat>,
    out_dims: Seq<nat>,
    sx: nat,
    sy: nat,
    j: int,
)
    requires
        t.wf(),
        t.fits(in_dims, out_dims, sx, sy),
        in_dims.len() == 3,
        out_dims.len() == 3,
        sx <= 2,
        sy <= 2,
        0 <= j < 3,
    ensures
        plane_sides(in_dims, sx, sy)[j] < 0x1_0000_0000_0000,
        plane_sides(in_dims, sx, sy)[j] == plane_sides(out_dims, sx, sy)[t.from[j]],
{
    assert(0 <= t.from[j] < 3);
    lemma_samples(in_dims[j], seq![sx, sy, 0nat][j]);
    lemma_unsampled(in_dims[2]);
    lemma_unsampled(out_dims[2]);
}

/// What is left of a row of a turn at one axis: all of it.
proof fn lemma_met_axis(t: Turn, m: GeometryView, q: int, dq: int, c: Seq<nat>, margin: int, j: int)
    requires
        t.wf(),
        0 <= j < 3,
        m.in_dims.len() == 3,
        c.len() == 3,
        ({
            let k = t.source(m.in_dims, c.update(0, 0))[j];
            q == at(16 * k + 8) && 0 <= k < m.in_dims[j] < 0x1_0000_0000_0000
        }),
        dq == t.entry(0, j),
        margin == 0 || margin == half(),
        t.from[j] == 0 ==> m.in_dims[j] == m.out_dims[0],
    ensures
        ({
            let w = m.out_dims[0];
            let acc = (0int, fraction(w, 1) as int);
            let end = (0int, at(16 * w as int - 8 + sixteenths(margin)));
            let d = m.in_dims[j];
            if t.from[j] == 0 {
                met(acc, q, dq, d, margin) == Some(end)
            } else {
                met(acc, q, dq, d, margin) == Some(acc) && met(end, q, dq, d, margin) == Some(end)
            }
        }),
{
    let w = m.out_dims[0];
    let acc = (0int, fraction(w, 1) as int);
    let end = (0int, at(16 * w as int - 8 + sixteenths(margin)));
    let d = m.in_dims[j];
    let k = t.source(m.in_dims, c.update(0, 0))[j];
    if t.from[j] == 0 {
        lemma_met_moving(t.flip[j], d, margin);
    } else {
        lemma_met_still(acc, k, d, margin);
        lemma_met_still(end, k, d, margin);
    }
}

/// A row of a turn is rendered from end to end.
proof fn lemma_turned_row(
    t: Turn,
    g: Seq<Seq<int>>,
    in_dims: Seq<nat>,
    out_dims: Seq<nat>,
    zc: int,
    sx: nat,
    sy: nat,
    c: Seq<nat>,
    margin: int,
)
    requires
        turned_plane(t, g, in_dims, out_dims, sx, sy, c),
        plane_sides(out_dims, sx, sy)[0] <= usize::MAX,
        margin == 0 || margin == half(),
    ensures
        ({
            let m = still_plane(g, in_dims, out_dims, zc, sx, sy);
            let q0 = m.mapped(0, fraction(c[1], 1) as int, fraction(c[2], 1) as int);
            row_touched(m, q0, m.step_x(), margin) == Some((0nat, m.out_dims[0]))
        }),
{
    let m = still_plane(g, in_dims, out_dims, zc, sx, sy);
    let q0 = m.mapped(0, fraction(c[1], 1) as int, fraction(c[2], 1) as int);
    let dq = m.step_x();
    assert(c[0] < m.out_dims[0]);
    lemma_turned_axis(t, g, in_dims, out_dims, zc, sx, sy, c, 0);
    lemma_turned_axis(t, g, in_dims, out_dims, zc, sx, sy, c, 1);
    lemma_turned_axis(t, g, in_dims, out_dims, zc, sx, sy, c, 2);
    lemma_met_axis(t, m, q0[0], dq[0], c, margin, 0);
    lemma_met_axis(t, m, q0[1], dq[1], c, margin, 1);
    lemma_met_axis(t, m, q0[2], dq[2], c, margin, 2);
    assert(t.from[0] != t.from[1] && t.from[0] != t.from[2] && t.from[1] != t.from[2]);
    assert(0 <= t.from[0] < 3 && 0 <= t.from[1] < 3 && 0 <= t.from[2] < 3);
    lemma_whole_row(m, q0, dq, margin);
}

/// What the planes of a renderer that turns are.
#[verifier::rlimit(40)]
proof fn lemma_plane_of(
    r: RendererView,
    t: Turn,
    g: Seq<Seq<int>>,
    in_dims: Seq<nat>,
    out_dims: Seq<nat>,
    zc: int,
    p: int,
)
    requires
        turns_plane(r, t, g, in_dims, out_dims, zc, p),
    ensures
        ({
            let (sx, sy) = (r.format.planes[p].sx, r.format.planes[p].sy);
            &&& r.wf()
            &&& 0 <= p < r.format.planes.len()
            &&& in_dims.len() == 3
            &&& out_dims.len() == 3
            &&& t.wf()
            &&& t.is(g)
            &&& t.fits(in_dims, out_dims, sx, sy)
            &&& sx <= 2 && sy <= 2
            &&& r.geoms[p] == still_plane(g, in_dims, out_dims, zc, sx, sy)
            &&& plane_sides(out_dims, sx, sy)[0] <= usize::MAX
            &&& r.in_planes[p].offset == r.format.offset(p as nat, in_dims[0], in_dims[1])
            &&& r.in_planes[p].w == r.geoms[p].in_dims[0]
            &&& r.in_planes[p].h == r.geoms[p].in_dims[1]
            &&& r.in_planes[p].bytes == r.in_planes[p].w * r.in_planes[p].h * r.format.bpp(p)
            &&& r.in_planes[p].offset + r.in_planes[p].bytes <= r.in_size()
            &&& r.out_planes[p].w == r.geoms[p].out_dims[0]
            &&& r.out_planes[p].h == r.geoms[p].out_dims[1]
        }),
{
    reveal(turns_plane);
    assert(r.out_planes[p].is_plane(r.format, p, out_dims[0], out_dims[1]));
    assert(r.in_planes[p].is_plane(r.format, p, in_dims[0], in_dims[1]));
}

/// A sample in the middle of a voxel has the bytes of the voxel.
#[verifier::rlimit(40)]
proof fn lemma_sampled(r: RendererView, vol: Seq<Seq<u8>>, p: int, k: Seq<int>, q: Seq<int>)
    requires
        r.wf(),
        r.reads(vol),
        0 <= p < r.format.planes.len(),
        k.len() == 3,
        q.len() == 3,
        forall|j: int|
            0 <= j < 3 ==> 0 <= #[trigger] k[j] < r.geoms[p].in_dims[j] < 0x1_0000_0000_0000,
        forall|j: int| 0 <= j < 3 ==> #[trigger] q[j] == at(16 * k[j] + 8),
    ensures
        r.hit(p, q) == Some((k[0], k[1], k[2])),
        ({
            let h = seq![
                difference(q[0], half()),
                difference(q[1], half()),
                difference(q[2], half()),
            ];
            r.blended_bytes(
                vol,
                p,
                taps(h, r.geoms[p].in_dims),
                r.format.planes[p].channels,
            ) == r.voxel_or_fill(vol, p, Some((k[0], k[1], k[2])))
        }),
{
    let m = r.geoms[p];
    assert(0 <= k[0] < m.in_dims[0] < 0x1_0000_0000_0000);
    assert(0 <= k[1] < m.in_dims[1] < 0x1_0000_0000_0000);
    assert(0 <= k[2] < m.in_dims[2] < 0x1_0000_0000_0000);
    assert(q[0] == at(16 * k[0] + 8) && q[1] == at(16 * k[1] + 8) && q[2] == at(16 * k[2] + 8));
    lemma_whole_part(k[0], 8);
    lemma_whole_part(k[1], 8);
    lemma_whole_part(k[2], 8);
    let h = seq![difference(q[0], half()), difference(q[1], half()), difference(q[2], half())];
    lemma_bounds(0, 0);
    lemma_at_sum(16 * k[0] + 8, 8);
    lemma_at_sum(16 * k[1] + 8, 8);
    lemma_at_sum(16 * k[2] + 8, 8);
    let reg = r.in_planes[p];
    assert(m.in_dims.len() == 3);
    lemma_one_tap(k, h, m.in_dims);
    let tap = TapView { weight: unity(), voxel: Some((k[0], k[1], k[2])) };
    lemma_voxel_len(r, vol, p, k[0], k[1], k[2]);
    let v = r.voxel_or_fill(vol, p, tap.voxel);
    lemma_alone(r, vol, p, tap, r.format.planes[p].channels);
    assert(v.take(v.len() as int) =~= v);
}

/// A voxel has as many bytes as its plane says.
#[verifier::rlimit(40)]
proof fn lemma_voxel_len(r: RendererView, vol: Seq<Seq<u8>>, p: int, x: int, y: int, z: int)
    requires
        r.wf(),
        r.reads(vol),
        0 <= p < r.format.planes.len(),
        0 <= x < r.geoms[p].in_dims[0],
        0 <= y < r.geoms[p].in_dims[1],
        0 <= z < r.geoms[p].in_dims[2],
    ensures
        r.voxel_or_fill(vol, p, Some((x, y, z))).len() == r.format.bpp(p),
        r.format.bpp(p) == r.format.planes[p].channels * r.format.bytes,
        0 <= r.voxel_offset(p, x, y),
        r.voxel_offset(p, x, y) + r.format.bpp(p) <= r.in_size(),
        r.format.bpp(p) >= 1,
{
    let reg = r.in_planes[p];
    let bpp = r.format.bpp(p);
    let (c, b) = (r.format.planes[p].channels, r.format.bytes);
    assert(1 <= c * b) by (nonlinear_arith)
        requires
            c >= 1,
            b >= 1,
    ;
    lemma_voxel_inside(x, y, reg.w as int, reg.h as int, bpp as int);
    assert(vol[z].len() >= r.in_size());
}

/// A pixel whose sample lies in the middle of a voxel has the bytes of the voxel.
#[verifier::rlimit(40)]
proof fn lemma_row_pixel(
    r: RendererView,
    vol: Seq<Seq<u8>>,
    p: int,
    q0: Seq<int>,
    x: nat,
    n: nat,
    k: Seq<int>,
)
    requires
        r.wf(),
        r.reads(vol),
        0 <= p < r.format.planes.len(),
        row_touched(r.geoms[p], q0, r.geoms[p].step_x(), r.margin()) == Some((0nat, n)),
        x < n,
        k.len() == 3,
        forall|j: int|
            0 <= j < 3 ==> 0 <= #[trigger] k[j] < r.geoms[p].in_dims[j] < 0x1_0000_0000_0000,
        along(q0[0], r.geoms[p].step_x()[0], x) == at(16 * k[0] + 8),
        along(q0[1], r.geoms[p].step_x()[1], x) == at(16 * k[1] + 8),
        along(q0[2], r.geoms[p].step_x()[2], x) == at(16 * k[2] + 8),
    ensures
        r.row_pixel(vol, p, q0, x) == r.voxel_or_fill(vol, p, Some((k[0], k[1], k[2]))),
{
    let dq = r.geoms[p].step_x();
    let q = seq![along(q0[0], dq[0], x), along(q0[1], dq[1], x), along(q0[2], dq[2], x)];
    lemma_sampled(r, vol, p, k, q);
}

/// Turns by multiples of 90° and flips move voxels unchanged, whichever way they are sampled: each
/// pixel of the output has the bytes of the voxel that the turn shows there.
#[verifier::rlimit(40)]
pub proof fn turns_move_voxels_unchanged(
    r: RendererView,
    t: Turn,
    g: Seq<Seq<int>>,
    in_dims: Seq<nat>,
    out_dims: Seq<nat>,
    zc: int,
    vol: Seq<Seq<u8>>,
    p: int,
    c: Seq<nat>,
)
    requires
        turns_plane(r, t, g, in_dims, out_dims, zc, p),
        r.reads(vol),
        c.len() == 3,
        forall|i: int| 0 <= i < 3 ==> #[trigger] c[i] < r.geoms[p].out_dims[i],
    ensures
        ({
            let src = t.source(r.geoms[p].in_dims, c);
            &&& 0 <= src[0] < r.geoms[p].in_dims[0]
            &&& 0 <= src[1] < r.geoms[p].in_dims[1]
            &&& 0 <= src[2] < r.geoms[p].in_dims[2]
            &&& r.pixel(vol, p, c[0], c[1], c[2]) == r.voxel_or_fill(
                vol,
                p,
                Some((src[0], src[1], src[2])),
            )
        }),
{
    lemma_plane_of(r, t, g, in_dims, out_dims, zc, p);
    let m = r.geoms[p];
    let (sx, sy) = (r.format.planes[p].sx, r.format.planes[p].sy);
    let q0 = r.row_start(p, c[1], c[2]);
    let src = t.source(m.in_dims, c);
    assert(c[0] < m.out_dims[0]);
    assert(turned_plane(t, g, in_dims, out_dims, sx, sy, c));
    lemma_turned_axis(t, g, in_dims, out_dims, zc, sx, sy, c, 0);
    lemma_turned_axis(t, g, in_dims, out_dims, zc, sx, sy, c, 1);
    lemma_turned_axis(t, g, in_dims, out_dims, zc, sx, sy, c, 2);
    lemma_turned_row(t, g, in_dims, out_dims, zc, sx, sy, c, r.margin());
    lemma_row_pixel(r, vol, p, q0, c[0], m.out_dims[0], src);
}

/// No turn at all.
pub open spec fn identity_turn() -> Turn {
    Turn { from: seq![0, 1, 2], flip: seq![false, false, false] }
}

/// A row of an unturned plane is a row of the input.
#[verifier::rlimit(40)]
proof fn lemma_same_row(
    r: RendererView,
    g: Seq<Seq<int>>,
    dims: Seq<nat>,
    zc: int,
    vol: Seq<Seq<u8>>,
    p: int,
    y: nat,
    z: nat,
    n: nat,
)
    requires
        turns_plane(r, identity_turn(), g, dims, dims, zc, p),
        r.reads(vol),
        y < r.geoms[p].out_dims[1],
        z < r.geoms[p].out_dims[2],
        n <= r.geoms[p].out_dims[0],
    ensures
        ({
            let (off, w, bpp) = (
                r.in_planes[p].offset as int,
                r.geoms[p].in_dims[0] as int,
                r.format.bpp(p) as int,
            );
            &&& 0 <= off + (y * w) * bpp
            &&& (y * w) * bpp + n * bpp <= r.in_planes[p].bytes
            &&& r.row(vol, p, y, z, n) == vol[z as int].subrange(
                off + (y * w) * bpp,
                off + (y * w) * bpp + n * bpp,
            )
        }),
    decreases n,
{
    let m = r.geoms[p];
    let reg = r.in_planes[p];
    let (off, w, bpp) = (reg.offset as int, m.in_dims[0] as int, r.format.bpp(p) as int);
    lemma_plane_of(r, identity_turn(), g, dims, dims, zc, p);
    assert(m.in_dims == m.out_dims);
    assert(vol[z as int].len() >= r.in_size());
    lemma_row_inside(y as int, n as int, w, reg.h as int, bpp);
    if n == 0 {
        assert(0 * bpp == 0);
        assert(r.row(vol, p, y, z, 0) =~= vol[z as int].subrange(
            off + (y * w) * bpp,
            off + (y * w) * bpp + 0 * bpp,
        ));
    } else {
        let x = (n - 1) as nat;
        lemma_same_row(r, g, dims, zc, vol, p, y, z, x);
        let c = seq![x, y, z];
        turns_move_voxels_unchanged(r, identity_turn(), g, dims, dims, zc, vol, p, c);
        let src = identity_turn().source(m.in_dims, c);
        assert(src[0] == x && src[1] == y && src[2] == z);
        assert((y * w + x) * bpp == (y * w) * bpp + x * bpp) by (nonlinear_arith);
        assert(n * bpp == x * bpp + bpp) by (nonlinear_arith)
            requires
                n == x + 1,
        ;
        assert(x * bpp >= 0) by (nonlinear_arith)
            requires
                x >= 0,
                bpp >= 0,
        ;
        assert(r.row(vol, p, y, z, n) =~= vol[z as int].subrange(
            off + (y * w) * bpp,
            off + (y * w) * bpp + n * bpp,
        ));
    }
}

/// Part of a row lies in its plane.
proof fn lemma_row_inside(y: int, n: int, w: int, h: int, bpp: int)
    requires
        0 <= y < h,
        0 <= n <= w,
        bpp >= 0,
    ensures
        0 <= (y * w) * bpp,
        (y * w) * bpp + n * bpp <= w * h * bpp,
{
    assert(0 <= y * w && y * w + n <= w * h) by (nonlinear_arith)
        requires
            0 <= y < h,
            0 <= n <= w,
    ;
    let (a, b) = (y * w, w * h);
    assert(0 <= a * bpp && a * bpp + n * bpp <= b * bpp) by (nonlinear_arith)
        requires
            0 <= a,
            a + n <= b,
            bpp >= 0,
    ;
}

/// A plane that is not turned is a plane of the input.
#[verifier::rlimit(40)]
proof fn lemma_same_plane(
    r: RendererView,
    g: Seq<Seq<int>>,
    dims: Seq<nat>,
    zc: int,
    vol: Seq<Seq<u8>>,
    p: int,
    z: nat,
    n: nat,
)
    requires
        turns_plane(r, identity_turn(), g, dims, dims, zc, p),
        r.reads(vol),
        z < r.geoms[p].out_dims[2],
        n <= r.geoms[p].out_dims[1],
    ensures
        ({
            let (off, w, bpp) = (
                r.in_planes[p].offset as int,
                r.geoms[p].in_dims[0] as int,
                r.format.bpp(p) as int,
            );
            &&& 0 <= (n * w) * bpp <= r.in_planes[p].bytes
            &&& r.plane(vol, p, z, n) == vol[z as int].subrange(off, off + (n * w) * bpp)
        }),
    decreases n,
{
    let m = r.geoms[p];
    let reg = r.in_planes[p];
    let (off, w, bpp) = (reg.offset as int, m.in_dims[0] as int, r.format.bpp(p) as int);
    lemma_plane_of(r, identity_turn(), g, dims, dims, zc, p);
    assert(vol[z as int].len() >= r.in_size());
    if n == 0 {
        assert(0 * w == 0);
        assert(0 * bpp == 0);
        assert(r.plane(vol, p, z, 0) =~= vol[z as int].subrange(off, off));
    } else {
        let y = (n - 1) as nat;
        lemma_same_plane(r, g, dims, zc, vol, p, z, y);
        lemma_same_row(r, g, dims, zc, vol, p, y, z, w as nat);
        assert((n * w) * bpp == (y * w) * bpp + w * bpp) by (nonlinear_arith)
            requires
                n == y + 1,
        ;
        assert(w * bpp >= 0) by (nonlinear_arith)
            requires
                w >= 0,
                bpp >= 0,
        ;
        assert(r.plane(vol, p, z, n) =~= vol[z as int].subrange(off, off + (n * w) * bpp));
    }
}

/// The first planes that are not turned are those of the input.
#[verifier::rlimit(40)]
proof fn lemma_same_planes(
    r: RendererView,
    g: Seq<Seq<int>>,
    dims: Seq<nat>,
    zc: int,
    vol: Seq<Seq<u8>>,
    z: nat,
    n: nat,
)
    requires
        forall|p: int|
            0 <= p < r.format.planes.len() ==> #[trigger] turns_plane(
                r,
                identity_turn(),
                g,
                dims,
                dims,
                zc,
                p,
            ),
        r.format.planes.len() > 0,
        r.reads(vol),
        z < dims[2],
        n <= r.format.planes.len(),
    ensures
        r.format.offset(n, dims[0], dims[1]) <= vol[z as int].len(),
        r.frame(vol, z, n) == vol[z as int].take(r.format.offset(n, dims[0], dims[1]) as int),
    decreases n,
{
    let f = r.format;
    assert(turns_plane(r, identity_turn(), g, dims, dims, zc, 0));
    lemma_frame_len(r, g, dims, zc, vol, z);
    if n == 0 {
        assert(r.frame(vol, z, 0) =~= vol[z as int].take(0));
    } else {
        let p = n - 1;
        lemma_same_planes(r, g, dims, zc, vol, z, p as nat);
        assert(turns_plane(r, identity_turn(), g, dims, dims, zc, p));
        lemma_one_plane(r, g, dims, zc, vol, p, z);
        let (a, b) = (f.offset(p as nat, dims[0], dims[1]), f.offset(n, dims[0], dims[1]));
        assert(r.frame(vol, z, n) =~= vol[z as int].take(b as int));
    }
}

/// The frames of the volume are as long as the renderer reads them.
#[verifier::rlimit(40)]
proof fn lemma_frame_len(
    r: RendererView,
    g: Seq<Seq<int>>,
    dims: Seq<nat>,
    zc: int,
    vol: Seq<Seq<u8>>,
    z: nat,
)
    requires
        turns_plane(r, identity_turn(), g, dims, dims, zc, 0),
        r.reads(vol),
        z < dims[2],
    ensures
        vol[z as int].len() >= r.in_size(),
{
    lemma_plane_of(r, identity_turn(), g, dims, dims, zc, 0);
    assert(r.geoms[0].in_dims[2] == dims[2]);
    assert(vol.len() >= r.geoms[0].in_dims[2]);
}

/// One whole plane that is not turned.
#[verifier::rlimit(40)]
proof fn lemma_one_plane(
    r: RendererView,
    g: Seq<Seq<int>>,
    dims: Seq<nat>,
    zc: int,
    vol: Seq<Seq<u8>>,
    p: int,
    z: nat,
)
    requires
        turns_plane(r, identity_turn(), g, dims, dims, zc, p),
        r.reads(vol),
        z < dims[2],
    ensures
        ({
            let f = r.format;
            let (a, b) = (f.offset(p as nat, dims[0], dims[1]), f.offset((p + 1) as nat, dims[0], dims[1]));
            &&& 0 <= a <= b <= r.in_size()
            &&& r.plane(vol, p, z, r.out_planes[p].h as nat) == vol[z as int].subrange(
                a as int,
                b as int,
            )
        }),
{
    let f = r.format;
    let m = r.geoms[p];
    lemma_plane_of(r, identity_turn(), g, dims, dims, zc, p);
    lemma_same_plane(r, g, dims, zc, vol, p, z, r.out_planes[p].h as nat);
    let (w, h, bpp) = (m.in_dims[0] as int, m.in_dims[1] as int, f.bpp(p) as int);
    assert((h * w) * bpp == (w * h) * bpp) by (nonlinear_arith);
    planes_tile_the_frame(f, dims[0], dims[1], p);
}

/// A volume that is not rotated is rendered as it is: every frame comes out byte for byte, without
/// what may follow the bytes of a frame.
#[verifier::rlimit(40)]
pub proof fn no_rotation_keeps_every_frame(
    r: RendererView,
    g: Seq<Seq<int>>,
    dims: Seq<nat>,
    zc: int,
    vol: Seq<Seq<u8>>,
    z: nat,
)
    requires
        r.wf(),
        r.renders(r.format, g, dims, dims, TrackView::centred(zc), r.interp, r.fill),
        r.reads(vol),
        dims.len() == 3,
        forall|j: int| 0 <= j < 3 ==> 0 < #[trigger] dims[j] < 0x1_0000_0000_0000,
        identity_turn().is(g),
        z < dims[2],
    ensures
        r.frame(vol, z, r.format.planes.len()) == vol[z as int].take(r.in_size() as int),
        vol[z as int].len() == r.in_size() ==> r.frame(vol, z, r.format.planes.len())
            == vol[z as int],
{
    let f = r.format;
    let n = f.planes.len();
    let t = identity_turn();
    assert forall|p: int| 0 <= p < n implies #[trigger] turns_plane(r, t, g, dims, dims, zc, p) by {
        reveal(turns_plane);
        assert(0 < dims[0] && 0 < dims[1] && 0 < dims[2]);
    }
    lemma_same_planes(r, g, dims, zc, vol, z, n);
    assert(turns_plane(r, t, g, dims, dims, zc, 0));
    assert(r.geoms[0] == still_plane(g, dims, dims, zc, f.planes[0].sx, f.planes[0].sy));
    lemma_frame_len(r, g, dims, zc, vol, z);
    assert(r.in_planes[n - 1].is_plane(f, n - 1, dims[0], dims[1]));
    planes_tile_the_frame(f, dims[0], dims[1], n - 1);
    assert(vol[z as int].take(vol[z as int].len() as int) =~= vol[z as int]);
}

} // verus!
