//! An output window that follows the content instead of covering the whole bounding box.

use vstd::prelude::*;
use crate::binary64::{
    ceiling_of, clamped, difference, differences_do_not_vanish, floor_of, fraction, magnitude_of,
    one, product, quotient, sum, Float,
};
use crate::geometry::{
    applied, bounded_image, checked_output_dims, coords, fit_dims, fit_sides, grid, output_sides,
    sides, up_to_even, vector_within, within, DimSpec, Mat3, OutputSize,
};

verus! {

/// The number one half.
pub open spec fn half() -> int {
    fraction(1, 2) as int
}

/// The number two.
pub open spec fn two() -> int {
    (2 * one()) as int
}

/// Output window that follows the content: its centre (in luma pixels, relative to the centre of the
/// rotated volume) at output frame z is `pos + vel * (z + 0.5 - zc)`.
#[derive(Clone, Copy, Debug, PartialEq, Eq)]
pub struct Track {
    pub pos: [Float; 2],
    pub vel: [Float; 2],
    pub zc: Float,
}

/// The path of a window as a value.
#[verifier::ext_equal]
pub struct TrackView {
    pub pos: Seq<int>,
    pub vel: Seq<int>,
    pub zc: int,
}

impl View for Track {
    type V = TrackView;

    open spec fn view(&self) -> TrackView {
        TrackView {
            pos: seq![self.pos[0].value(), self.pos[1].value()],
            vel: seq![self.vel[0].value(), self.vel[1].value()],
            zc: self.zc.value(),
        }
    }
}

impl TrackView {
    /// The window stays in the middle.
    pub open spec fn centred(zc: int) -> TrackView {
        TrackView { pos: seq![0, 0], vel: seq![0, 0], zc }
    }

    /// The centre of the window along axis `a` at output frame `z`.
    pub open spec fn center(self, z: int, a: int) -> int {
        sum(self.pos[a], product(self.vel[a], difference(sum(z, half()), self.zc)))
    }
}

impl Track {
    /// Every number is one whose exponent is at most `k`.
    pub open spec fn within(self, k: int) -> bool {
        &&& self.pos[0].wf() && self.pos[0].e <= k
        &&& self.pos[1].wf() && self.pos[1].e <= k
        &&& self.vel[0].wf() && self.vel[0].e <= k
        &&& self.vel[1].wf() && self.vel[1].e <= k
        &&& self.zc.wf() && self.zc.e <= k
    }

    /// Every number is one of the format.
    pub open spec fn wf(self) -> bool {
        &&& self.pos[0].wf() && self.pos[1].wf()
        &&& self.vel[0].wf() && self.vel[1].wf()
        &&& self.zc.wf()
    }

    /// What is zero has no minus sign.
    pub open spec fn zeros_unsigned(self) -> bool {
        &&& self.pos[0].value() == 0 ==> !self.pos[0].neg
        &&& self.pos[1].value() == 0 ==> !self.pos[1].neg
        &&& self.vel[0].value() == 0 ==> !self.vel[0].neg
        &&& self.vel[1].value() == 0 ==> !self.vel[1].neg
    }

    /// The window that stays in the middle.
    pub fn still(zc: Float) -> (r: Track)
        requires
            zc.wf(),
        ensures
            r@ == TrackView::centred(zc.value()),
            r.zeros_unsigned(),
            forall|k: int| k >= 0 && zc.e <= k ==> #[trigger] r.within(k),
    {
        let o = Float::zero();
        Track { pos: [o, o], vel: [o, o], zc }
    }

    /// The centre of the window at output frame `z`.
    pub fn center(&self, z: Float) -> (r: [Float; 2])
        requires
            self.within(100),
            z.wf(),
            z.e <= 100,
        ensures
            r[0].value() == self@.center(z.value(), 0),
            r[1].value() == self@.center(z.value(), 1),
            r[0].wf() && r[0].e <= 2000,
            r[1].wf() && r[1].e <= 2000,
    {
        let t = z.plus(Float::ratio(1, 2)).minus(self.zc);
        [self.pos[0].plus(self.vel[0].times(t)), self.pos[1].plus(self.vel[1].times(t))]
    }

    /// Tells whether every number is less than 2^153, so that the mapping can compute with it.
    pub fn is_moderate(&self) -> (r: bool)
        requires
            self.wf(),
        ensures
            r == self.within(100),
    {
        self.pos[0].e <= 100 && self.pos[1].e <= 100 && self.vel[0].e <= 100 && self.vel[1].e <= 100
            && self.zc.e <= 100
    }

    /// True when the window does not move.
    pub fn is_static(&self) -> (r: bool)
        requires
            self.wf(),
        ensures
            r == (self@.vel[0] == 0 && self@.vel[1] == 0),
    {
        self.vel[0].equals(Float::zero()) && self.vel[1].equals(Float::zero())
    }
}

impl Default for Track {
    fn default() -> (r: Track)
        ensures
            r@ == TrackView::centred(0),
            r.zeros_unsigned(),
            r.within(0),
    {
        Track::still(Float::zero())
    }
}

/// A bounding box (left, right, top, bottom) with one more point in it.
pub open spec fn grown(b: Option<Seq<int>>, x: int, y: int) -> Option<Seq<int>> {
    match b {
        None => Some(seq![x, x, y, y]),
        Some(b) => Some(
            seq![
                if x < b[0] {
                    x
                } else {
                    b[0]
                },
                if x > b[1] {
                    x
                } else {
                    b[1]
                },
                if y < b[2] {
                    y
                } else {
                    b[2]
                },
                if y > b[3] {
                    y
                } else {
                    b[3]
                },
            ],
        ),
    }
}

/// Half a side.
pub open spec fn half_side(d: nat) -> int {
    quotient(fraction(d, 1) as int, two())
}

/// A coordinate of a corner: bit `k` of the number of the corner tells the side.
pub open spec fn corner_side(dims: Seq<nat>, i: int, k: int) -> int {
    let bit = if k == 0 {
        i % 2
    } else if k == 1 {
        (i / 2) % 2
    } else {
        (i / 4) % 2
    };
    if bit == 0 {
        -half_side(dims[k])
    } else {
        half_side(dims[k])
    }
}

/// A corner of the rotated box, relative to its centre.
pub open spec fn corner(g: Seq<Seq<int>>, dims: Seq<nat>, i: int) -> Seq<int> {
    applied(g, seq![corner_side(dims, i, 0), corner_side(dims, i, 1), corner_side(dims, i, 2)])
}

/// The twelve edges of a box: pairs of corners that differ in one bit.
pub open spec fn edges() -> Seq<(int, int)> {
    seq![
        (0, 1),
        (0, 2),
        (0, 4),
        (1, 3),
        (1, 5),
        (2, 3),
        (2, 6),
        (3, 7),
        (4, 5),
        (4, 6),
        (5, 7),
        (6, 7),
    ]
}

/// A bounding box with the points where the edge from `a` to `b` meets the plane at depth `z`.
pub open spec fn with_edge(acc: Option<Seq<int>>, a: Seq<int>, b: Seq<int>, z: int) -> Option<
    Seq<int>,
> {
    let da = difference(a[2], z);
    let db = difference(b[2], z);
    if product(da, db) > 0 {
        acc
    } else if da == db {
        grown(grown(acc, a[0], a[1]), b[0], b[1])
    } else {
        let t = quotient(da, difference(da, db));
        grown(
            acc,
            sum(a[0], product(t, difference(b[0], a[0]))),
            sum(a[1], product(t, difference(b[1], a[1]))),
        )
    }
}

/// The bounding box of what the first `n` edges contribute to the slice at depth `z`.
pub open spec fn slice_upto(g: Seq<Seq<int>>, dims: Seq<nat>, z: int, n: nat) -> Option<Seq<int>>
    decreases n,
{
    if n == 0 {
        None
    } else {
        let (i, j) = edges()[n - 1];
        with_edge(
            slice_upto(g, dims, z, (n - 1) as nat),
            corner(g, dims, i),
            corner(g, dims, j),
            z,
        )
    }
}

/// The bounding box of the slice of the rotated box at depth `z`, when the plane meets the box.
pub open spec fn slice_of(g: Seq<Seq<int>>, dims: Seq<nat>, z: int) -> Option<Seq<int>> {
    slice_upto(g, dims, z, 12)
}

/// The numbers of a bounding box.
pub open spec fn bounds(b: [Float; 4]) -> Seq<int> {
    seq![b[0].value(), b[1].value(), b[2].value(), b[3].value()]
}

/// Every bound is a number whose exponent is at most `k`.
pub open spec fn bounds_within(b: [Float; 4], k: int) -> bool {
    forall|i: int| 0 <= i < 4 ==> (#[trigger] b[i]).wf() && b[i].e <= k
}

/// A bounding box as a value.
pub open spec fn bounds_of(b: Option<[Float; 4]>) -> Option<Seq<int>> {
    match b {
        Some(b) => Some(bounds(b)),
        None => None,
    }
}

fn grow(b: Option<[Float; 4]>, x: Float, y: Float, Ghost(k): Ghost<int>) -> (r: Option<[Float; 4]>)
    requires
        b matches Some(b) ==> bounds_within(b, k),
        x.wf() && x.e <= k,
        y.wf() && y.e <= k,
    ensures
        bounds_of(r) == grown(bounds_of(b), x.value(), y.value()),
        r matches Some(c) && bounds_within(c, k),
{
    match b {
        None => {
            let c = [x, x, y, y];
            assert(bounds(c) =~= seq![x.value(), x.value(), y.value(), y.value()]);
            Some(c)
        },
        Some(b) => {
            let c = [b[0].min(x), b[1].max(x), b[2].min(y), b[3].max(y)];
            assert(bounds(c) =~= grown(Some(bounds(b)), x.value(), y.value())->Some_0);
            Some(c)
        },
    }
}

fn halved(d: usize) -> (r: Float)
    ensures
        r.wf(),
        r.value() == half_side(d as nat),
        r.e <= 1300,
{
    let t = Float::from_int(2);
    proof {
        vstd::arithmetic::power2::lemma_pow2_pos(1074);
        t.lemma_nonzero();
    }
    Float::from_u64(d as u64).over(t)
}

fn corner_at(r: &Mat3, half: [Float; 3], i: usize, Ghost(dims): Ghost<Seq<nat>>) -> (c: [Float; 3])
    requires
        within(*r, 0x1_0000),
        vector_within(half, 1300),
        dims.len() == 3,
        forall|k: int| 0 <= k < 3 ==> (#[trigger] half[k]).value() == half_side(dims[k]),
        i < 8,
    ensures
        coords(c) == corner(grid(*r), dims, i as int),
        vector_within(c, 0x2_0000),
{
    let v = [
        if i % 2 == 0 {
            half[0].negated()
        } else {
            half[0]
        },
        if (i / 2) % 2 == 0 {
            half[1].negated()
        } else {
            half[1]
        },
        if (i / 4) % 2 == 0 {
            half[2].negated()
        } else {
            half[2]
        },
    ];
    let ghost want = seq![
        corner_side(dims, i as int, 0),
        corner_side(dims, i as int, 1),
        corner_side(dims, i as int, 2),
    ];
    assert(coords(v) =~= want) by {
        assert(half[0].value() == half_side(dims[0]));
        assert(half[1].value() == half_side(dims[1]));
        assert(half[2].value() == half_side(dims[2]));
    }
    bounded_image(r, v, Ghost(0x1_0000), Ghost(1300))
}

fn add_edge(
    acc: Option<[Float; 4]>,
    a: [Float; 3],
    b: [Float; 3],
    z: Float,
) -> (r: Option<[Float; 4]>)
    requires
        acc matches Some(c) ==> bounds_within(c, 0x10_0000),
        vector_within(a, 0x2_0000),
        vector_within(b, 0x2_0000),
        z.wf(),
        z.e <= 0x1_0000,
    ensures
        bounds_of(r) == with_edge(bounds_of(acc), coords(a), coords(b), z.value()),
        r matches Some(c) ==> bounds_within(c, 0x10_0000),
{
    let da = a[2].minus(z);
    let db = b[2].minus(z);
    if da.times(db).is_positive() {
        return acc;
    }
    if da.equals(db) {
        let one_end = grow(acc, a[0], a[1], Ghost(0x10_0000));
        grow(one_end, b[0], b[1], Ghost(0x10_0000))
    } else {
        let apart = da.minus(db);
        proof {
            differences_do_not_vanish(da.value(), db.value());
            apart.lemma_nonzero();
        }
        let t = da.over(apart);
        let x = a[0].plus(t.times(b[0].minus(a[0])));
        let y = a[1].plus(t.times(b[1].minus(a[1])));
        grow(acc, x, y, Ghost(0x10_0000))
    }
}

/// XY bounding box of the slice of the rotated input box at output depth `z` (coordinates relative to
/// the rotated volume's centre), or nothing when the plane misses the box.
pub fn slice_bbox(r: &Mat3, in_dims: [usize; 3], z: Float) -> (b: Option<[Float; 4]>)
    requires
        within(*r, 100),
        z.wf(),
        z.e <= 100,
    ensures
        bounds_of(b) == slice_of(grid(*r), sides(in_dims), z.value()),
        b matches Some(c) ==> bounds_within(c, 0x10_0000),
{
    slice_box(r, in_dims, z)
}

#[verifier::spinoff_prover]
#[verifier::rlimit(40)]
fn slice_box(r: &Mat3, in_dims: [usize; 3], z: Float) -> (b: Option<[Float; 4]>)
    requires
        within(*r, 0x1_0000),
        z.wf(),
        z.e <= 0x1_0000,
    ensures
        bounds_of(b) == slice_of(grid(*r), sides(in_dims), z.value()),
        b matches Some(c) ==> bounds_within(c, 0x10_0000),
{
    let half = [halved(in_dims[0]), halved(in_dims[1]), halved(in_dims[2])];
    let pairs: [(usize, usize); 12] = [
        (0, 1),
        (0, 2),
        (0, 4),
        (1, 3),
        (1, 5),
        (2, 3),
        (2, 6),
        (3, 7),
        (4, 5),
        (4, 6),
        (5, 7),
        (6, 7),
    ];
    let ghost dims = sides(in_dims);
    let mut acc: Option<[Float; 4]> = None;
    for n in 0..12
        invariant
            within(*r, 0x1_0000),
            z.wf(),
            z.e <= 0x1_0000,
            vector_within(half, 1300),
            dims == sides(in_dims),
            forall|k: int| 0 <= k < 3 ==> (#[trigger] half[k]).value() == half_side(dims[k]),
            forall|k: int|
                0 <= k < 12 ==> (#[trigger] pairs[k]).0 < 8 && pairs[k].1 < 8 && edges()[k] == (
                    pairs[k].0 as int,
                    pairs[k].1 as int,
                ),
            bounds_of(acc) == slice_upto(grid(*r), dims, z.value(), n as nat),
            acc matches Some(c) ==> bounds_within(c, 0x10_0000),
    {
        let (i, j) = pairs[n];
        assert(edges()[n as int] == (i as int, j as int));
        let a = corner_at(r, half, i, Ghost(dims));
        let b = corner_at(r, half, j, Ghost(dims));
        acc = add_edge(acc, a, b, z);
    }
    acc
}

/// The depth of the middle of output frame `k`, relative to the centre at `zc`.
pub open spec fn depth_at(k: nat, zc: int) -> int {
    difference(sum(fraction(k, 1) as int, half()), zc)
}

/// A slice of the rotated box: its depth and its bounding box.
pub struct SliceView {
    pub t: int,
    pub bb: Seq<int>,
}

/// The slices in the first `n` output frames.
pub open spec fn slices_upto(g: Seq<Seq<int>>, dims: Seq<nat>, zc: int, n: nat) -> Seq<SliceView>
    decreases n,
{
    if n == 0 {
        Seq::empty()
    } else {
        let front = slices_upto(g, dims, zc, (n - 1) as nat);
        let z = depth_at((n - 1) as nat, zc);
        match slice_of(g, dims, z) {
            Some(bb) => front.push(SliceView { t: z, bb }),
            None => front,
        }
    }
}

/// The sum of some numbers, added up from the first to the last.
pub open spec fn added(s: Seq<int>) -> int
    decreases s.len(),
{
    if s.len() == 0 {
        0
    } else {
        sum(added(s.drop_last()), s.last())
    }
}

/// The mean of some numbers.
pub open spec fn mean(s: Seq<int>) -> int {
    quotient(added(s), fraction(s.len(), 1) as int)
}

/// The depths of some slices.
pub open spec fn depths(s: Seq<SliceView>) -> Seq<int> {
    s.map_values(|x: SliceView| x.t)
}

/// The centres of some slices along axis `a`.
pub open spec fn centres(s: Seq<SliceView>, a: int) -> Seq<int> {
    s.map_values(|x: SliceView| quotient(sum(x.bb[2 * a], x.bb[2 * a + 1]), two()))
}

/// The products of what two lists differ from their means by.
pub open spec fn deviations(x: Seq<int>, xm: int, y: Seq<int>, ym: int) -> Seq<int> {
    Seq::new(x.len(), |i: int| product(difference(x[i], xm), difference(y[i], ym)))
}

/// The velocity of the line through the slice centres by least squares.
pub open spec fn fitted_velocity(s: Seq<SliceView>, a: int) -> int {
    let t = depths(s);
    let c = centres(s, a);
    let stt = added(deviations(t, mean(t), t, mean(t)));
    if stt > 0 {
        quotient(added(deviations(t, mean(t), c, mean(c))), stt)
    } else {
        0
    }
}

/// A line that the centre of the window may move along.
pub struct LineView {
    pub pos: int,
    pub vel: int,
}

/// The line along an input axis, unless that axis runs across time.
pub open spec fn axis_line(g: Seq<Seq<int>>, a: int, j: int) -> Seq<LineView> {
    if magnitude_of(g[2][j]) > fraction(1, 1_000_000_000) {
        seq![LineView { pos: 0, vel: quotient(g[a][j], g[2][j]) }]
    } else {
        Seq::empty()
    }
}

/// The lines to try: none moved, the input axes through the centre, least squares.
pub open spec fn lines(g: Seq<Seq<int>>, s: Seq<SliceView>, a: int) -> Seq<LineView> {
    let vel = fitted_velocity(s, a);
    let pos = difference(mean(centres(s, a)), product(vel, mean(depths(s))));
    seq![LineView { pos: 0, vel: 0 }] + axis_line(g, a, 0) + axis_line(g, a, 1) + axis_line(g, a, 2)
        + seq![LineView { pos, vel }]
}

/// How far a slice reaches below and above the line along axis `a`.
pub open spec fn offsets(x: SliceView, a: int, l: LineView) -> (int, int) {
    let c = sum(l.pos, product(l.vel, x.t));
    (difference(x.bb[2 * a], c), difference(x.bb[2 * a + 1], c))
}

/// How far some slices reach below and above the line along axis `a`.
pub open spec fn span(s: Seq<SliceView>, a: int, l: LineView) -> (int, int)
    decreases s.len(),
{
    if s.len() == 0 {
        (0, 0)
    } else if s.len() == 1 {
        offsets(s[0], a, l)
    } else {
        let (lo, hi) = span(s.drop_last(), a, l);
        let (x, y) = offsets(s.last(), a, l);
        (
            if x < lo {
                x
            } else {
                lo
            },
            if y > hi {
                y
            } else {
                hi
            },
        )
    }
}

/// A window along one axis: how wide it is, where its centre starts and how it moves.
pub struct WindowView {
    pub extent: int,
    pub pos: int,
    pub vel: int,
}

/// The smallest window along a line that holds every slice.
pub open spec fn window_on(s: Seq<SliceView>, a: int, l: LineView) -> WindowView {
    let (lo, hi) = span(s, a, l);
    let n = ceiling_of(
        difference(difference(hi, lo), fraction(1, 1_000_000) as int),
    ) * one();
    WindowView {
        extent: if n < one() {
            one() as int
        } else {
            n
        },
        pos: sum(l.pos, quotient(sum(hi, lo), two())),
        vel: l.vel,
    }
}

/// The first of the smallest windows along some lines.
pub open spec fn best_window(s: Seq<SliceView>, a: int, l: Seq<LineView>) -> WindowView
    decreases l.len(),
{
    if l.len() <= 1 {
        window_on(s, a, l[0])
    } else {
        let front = best_window(s, a, l.drop_last());
        let last = window_on(s, a, l.last());
        if last.extent < front.extent {
            last
        } else {
            front
        }
    }
}

/// A number within 1e-9 of zero is zero.
pub open spec fn settled(v: int) -> int {
    if magnitude_of(v) < fraction(1, 1_000_000_000) {
        0
    } else {
        v
    }
}

/// The window along one axis: the best one, unless the bounding box is no wider.
#[verifier::opaque]
pub open spec fn window_along(
    g: Seq<Seq<int>>,
    s: Seq<SliceView>,
    a: int,
    fit: nat,
) -> WindowView {
    let full = WindowView { extent: fraction(fit, 1) as int, pos: 0, vel: 0 };
    if s.len() == 0 {
        full
    } else {
        let best = best_window(s, a, lines(g, s, a));
        if best.extent < full.extent {
            WindowView { extent: best.extent, pos: settled(best.pos), vel: settled(best.vel) }
        } else {
            full
        }
    }
}

/// The pixels across a window.
pub open spec fn window_side(w: WindowView, even: bool) -> nat {
    up_to_even(clamped(floor_of(w.extent), 0, usize::MAX as int) as nat, even)
}

/// The side follows the window rather than a size that was asked for.
pub open spec fn follows(size: OutputSize, a: int) -> bool {
    match size {
        OutputSize::Fit => true,
        OutputSize::Crop => false,
        OutputSize::Custom(d) => d[a] is Fit,
    }
}

/// The window along axis `a` of the rotated volume.
pub open spec fn tracked_window(
    g: Seq<Seq<int>>,
    dims: Seq<nat>,
    size: OutputSize,
    even: bool,
    a: int,
) -> WindowView {
    let depth = output_sides(g, dims, size, even)[2];
    let zc = half_side(depth);
    window_along(g, slices_upto(g, dims, zc, depth), a, fit_sides(g, dims)[a])
}

/// The sides of the output volume when the window follows the content.
pub open spec fn tracked_sides(
    g: Seq<Seq<int>>,
    dims: Seq<nat>,
    size: OutputSize,
    even: bool,
) -> Seq<nat> {
    let base = output_sides(g, dims, size, even);
    seq![
        if follows(size, 0) {
            window_side(tracked_window(g, dims, size, even, 0), even)
        } else {
            base[0]
        },
        if follows(size, 1) {
            window_side(tracked_window(g, dims, size, even, 1), even)
        } else {
            base[1]
        },
        base[2],
    ]
}

/// The path of the window when it follows the content.
pub open spec fn tracked_path(
    g: Seq<Seq<int>>,
    dims: Seq<nat>,
    size: OutputSize,
    even: bool,
) -> TrackView {
    let x = tracked_window(g, dims, size, even, 0);
    let y = tracked_window(g, dims, size, even, 1);
    TrackView {
        pos: seq![x.pos, y.pos],
        vel: seq![x.vel, y.vel],
        zc: half_side(output_sides(g, dims, size, even)[2]),
    }
}

/// A slice of the rotated box.
#[derive(Clone, Copy)]
struct Slice {
    t: Float,
    bb: [Float; 4],
}

impl Slice {
    spec fn as_view(self) -> SliceView {
        SliceView { t: self.t.value(), bb: bounds(self.bb) }
    }

    spec fn wf(self) -> bool {
        self.t.wf() && self.t.e <= 2000 && bounds_within(self.bb, 0x10_0000)
    }
}

spec fn slice_views(s: Seq<Slice>) -> Seq<SliceView> {
    s.map_values(|x: Slice| x.as_view())
}

spec fn slices_ok(s: Seq<Slice>) -> bool {
    forall|i: int| 0 <= i < s.len() ==> (#[trigger] s[i]).wf()
}

spec fn numbers_of(v: Seq<Float>) -> Seq<int> {
    v.map_values(|x: Float| x.value())
}

spec fn numbers_within(v: Seq<Float>, k: int) -> bool {
    forall|i: int| 0 <= i < v.len() ==> (#[trigger] v[i]).wf() && v[i].e <= k
}

fn find_slices(r: &Mat3, in_dims: [usize; 3], zc: Float, depth: usize) -> (s: Vec<Slice>)
    requires
        within(*r, 0x1_0000),
        zc.wf(),
        zc.e <= 1300,
    ensures
        slice_views(s@) == slices_upto(grid(*r), sides(in_dims), zc.value(), depth as nat),
        slices_ok(s@),
{
    let mut s: Vec<Slice> = Vec::new();
    assert(slice_views(s@) =~= Seq::empty());
    let h = Float::ratio(1, 2);
    for k in 0..depth
        invariant
            within(*r, 0x1_0000),
            zc.wf(),
            zc.e <= 1300,
            h.wf(),
            h.e <= 1214,
            h.value() == half(),
            slice_views(s@) == slices_upto(grid(*r), sides(in_dims), zc.value(), k as nat),
            slices_ok(s@),
    {
        let z = Float::from_u64(k as u64).plus(h).minus(zc);
        match slice_box(r, in_dims, z) {
            Some(bb) => {
                let ghost front = slice_views(s@);
                let one_more = Slice { t: z, bb };
                s.push(one_more);
                assert(slice_views(s@) =~= front.push(one_more.as_view()));
            },
            None => {},
        }
    }
    s
}

fn total(v: &Vec<Float>, Ghost(k): Ghost<int>) -> (r: Float)
    requires
        numbers_within(v@, k),
        0 <= k <= 0x100_0000_0000_0000_0000_0000,
    ensures
        r.wf(),
        r.value() == added(numbers_of(v@)),
        r.e <= k + 0x80_0000_0000_0000_0000,
{
    let mut acc = Float::zero();
    assert(numbers_of(v@).take(0).len() == 0);
    for i in 0..v.len()
        invariant
            numbers_within(v@, k),
            0 <= k <= 0x100_0000_0000_0000_0000_0000,
            acc.wf(),
            acc.e <= k + 76 * i,
            acc.value() == added(numbers_of(v@).take(i as int)),
    {
        proof {
            assert(numbers_of(v@).take(i + 1).drop_last() =~= numbers_of(v@).take(i as int));
        }
        acc = acc.plus(v[i]);
    }
    assert(numbers_of(v@).take(v@.len() as int) =~= numbers_of(v@));
    acc
}

fn mean_of(v: &Vec<Float>, Ghost(k): Ghost<int>) -> (r: Float)
    requires
        numbers_within(v@, k),
        0 <= k <= 0x100_0000_0000_0000_0000,
        v@.len() > 0,
    ensures
        r.wf(),
        r.value() == mean(numbers_of(v@)),
        r.e <= k + 0x100_0000_0000_0000_0000,
{
    total(v, Ghost(k)).over(Float::from_u64(v.len() as u64))
}

fn products(x: &Vec<Float>, xm: Float, y: &Vec<Float>, ym: Float) -> (r: Vec<Float>)
    requires
        x@.len() == y@.len(),
        numbers_within(x@, 0x20_0000),
        numbers_within(y@, 0x20_0000),
        xm.wf() && xm.e <= 0x200_0000_0000_0000_0000,
        ym.wf() && ym.e <= 0x200_0000_0000_0000_0000,
    ensures
        numbers_of(r@) == deviations(numbers_of(x@), xm.value(), numbers_of(y@), ym.value()),
        numbers_within(r@, 0x800_0000_0000_0000_0000),
{
    let mut r: Vec<Float> = Vec::new();
    for i in 0..x.len()
        invariant
            x@.len() == y@.len(),
            numbers_within(x@, 0x20_0000),
            numbers_within(y@, 0x20_0000),
            xm.wf() && xm.e <= 0x200_0000_0000_0000_0000,
            ym.wf() && ym.e <= 0x200_0000_0000_0000_0000,
            r@.len() == i,
            numbers_within(r@, 0x800_0000_0000_0000_0000),
            forall|j: int|
                0 <= j < i ==> (#[trigger] r@[j]).value() == product(
                    difference(x@[j].value(), xm.value()),
                    difference(y@[j].value(), ym.value()),
                ),
    {
        let p = x[i].minus(xm).times(y[i].minus(ym));
        r.push(p);
    }
    assert(numbers_of(r@) =~= deviations(
        numbers_of(x@),
        xm.value(),
        numbers_of(y@),
        ym.value(),
    ));
    r
}

/// A line that the centre of the window may move along.
#[derive(Clone, Copy)]
struct Line {
    pos: Float,
    vel: Float,
}

impl Line {
    spec fn as_view(self) -> LineView {
        LineView { pos: self.pos.value(), vel: self.vel.value() }
    }

    spec fn wf(self) -> bool {
        &&& self.pos.wf() && self.pos.e <= 0x2000_0000_0000_0000_0000
        &&& self.vel.wf() && self.vel.e <= 0x1000_0000_0000_0000_0000
    }
}

spec fn line_views(l: Seq<Line>) -> Seq<LineView> {
    l.map_values(|x: Line| x.as_view())
}

spec fn lines_ok(l: Seq<Line>) -> bool {
    forall|i: int| 0 <= i < l.len() ==> (#[trigger] l[i]).wf()
}

fn push_axis_line(l: &mut Vec<Line>, r: &Mat3, a: usize, j: usize)
    requires
        within(*r, 0x1_0000),
        a < 2,
        j < 3,
        lines_ok(old(l)@),
    ensures
        line_views(final(l)@) == line_views(old(l)@) + axis_line(grid(*r), a as int, j as int),
        lines_ok(final(l)@),
        final(l)@.len() >= old(l)@.len(),
{
    let ghost before = line_views(l@);
    let down = r[2][j];
    let along = r[a][j];
    assert(grid(*r)[2][j as int] == down.value());
    assert(grid(*r)[a as int][j as int] == along.value());
    let tiny = Float::ratio(1, 1_000_000_000);
    if tiny.less(down.abs()) {
        proof {
            down.lemma_nonzero();
            tiny.lemma_nonzero();
        }
        let one_more = Line { pos: Float::zero(), vel: along.over(down) };
        l.push(one_more);
        assert(line_views(l@) =~= before + seq![one_more.as_view()]);
    } else {
        assert(line_views(l@) =~= before + Seq::<LineView>::empty());
    }
}

fn candidate_lines(r: &Mat3, s: &Vec<Slice>, a: usize) -> (l: Vec<Line>)
    requires
        within(*r, 0x1_0000),
        slices_ok(s@),
        s@.len() > 0,
        a < 2,
    ensures
        line_views(l@) == lines(grid(*r), slice_views(s@), a as int),
        lines_ok(l@),
        l@.len() > 0,
{
    let two_f = Float::from_int(2);
    proof {
        vstd::arithmetic::power2::lemma_pow2_pos(1074);
        two_f.lemma_nonzero();
    }
    let mut t: Vec<Float> = Vec::new();
    let mut c: Vec<Float> = Vec::new();
    for i in 0..s.len()
        invariant
            slices_ok(s@),
            a < 2,
            two_f.wf(),
            two_f.m != 0,
            two_f.e <= 76,
            two_f.value() == two(),
            t@.len() == i,
            c@.len() == i,
            numbers_within(t@, 0x20_0000),
            numbers_within(c@, 0x20_0000),
            forall|j: int| 0 <= j < i ==> (#[trigger] t@[j]).value() == slice_views(s@)[j].t,
            forall|j: int|
                0 <= j < i ==> (#[trigger] c@[j]).value() == centres(slice_views(s@), a as int)[j],
    {
        let x = s[i];
        assert(s@[i as int].wf());
        assert(slice_views(s@)[i as int].bb == bounds(x.bb));
        t.push(x.t);
        c.push(x.bb[2 * a].plus(x.bb[2 * a + 1]).over(two_f));
    }
    assert(numbers_of(t@) =~= depths(slice_views(s@)));
    assert(numbers_of(c@) =~= centres(slice_views(s@), a as int));
    let tm = mean_of(&t, Ghost(0x20_0000));
    let cm = mean_of(&c, Ghost(0x20_0000));
    let stt = total(&products(&t, tm, &t, tm), Ghost(0x800_0000_0000_0000_0000));
    let vel = if stt.is_positive() {
        total(&products(&t, tm, &c, cm), Ghost(0x800_0000_0000_0000_0000)).over(stt)
    } else {
        Float::zero()
    };
    assert(vel.value() == fitted_velocity(slice_views(s@), a as int));
    let pos = cm.minus(vel.times(tm));
    let fitted = Line { pos, vel };
    let o = Float::zero();
    let mut l: Vec<Line> = Vec::new();
    l.push(Line { pos: o, vel: o });
    assert(line_views(l@) =~= seq![LineView { pos: 0, vel: 0 }]);
    push_axis_line(&mut l, r, a, 0);
    push_axis_line(&mut l, r, a, 1);
    push_axis_line(&mut l, r, a, 2);
    let ghost front = line_views(l@);
    l.push(fitted);
    assert(line_views(l@) =~= front + seq![fitted.as_view()]);
    l
}

fn span_of(s: &Vec<Slice>, a: usize, l: Line) -> (r: (Float, Float))
    requires
        slices_ok(s@),
        s@.len() > 0,
        a < 2,
        l.wf(),
    ensures
        (r.0.value(), r.1.value()) == span(slice_views(s@), a as int, l.as_view()),
        r.0.wf() && r.0.e <= 0x4000_0000_0000_0000_0000,
        r.1.wf() && r.1.e <= 0x4000_0000_0000_0000_0000,
{
    let mut lo = Float::zero();
    let mut hi = Float::zero();
    let ghost views = slice_views(s@);
    for i in 0..s.len()
        invariant
            slices_ok(s@),
            a < 2,
            l.wf(),
            views == slice_views(s@),
            lo.wf() && lo.e <= 0x4000_0000_0000_0000_0000,
            hi.wf() && hi.e <= 0x4000_0000_0000_0000_0000,
            (lo.value(), hi.value()) == span(views.take(i as int), a as int, l.as_view()),
    {
        let x = s[i];
        assert(s@[i as int].wf());
        assert(views[i as int].bb == bounds(x.bb));
        proof {
            assert(views.take(i + 1).drop_last() =~= views.take(i as int));
        }
        let c = l.pos.plus(l.vel.times(x.t));
        let below = x.bb[2 * a].minus(c);
        let above = x.bb[2 * a + 1].minus(c);
        if i == 0 {
            lo = below;
            hi = above;
        } else {
            lo = lo.min(below);
            hi = hi.max(above);
        }
    }
    assert(views.take(s@.len() as int) =~= views);
    (lo, hi)
}

/// A window along one axis.
#[derive(Clone, Copy)]
struct Window {
    extent: Float,
    pos: Float,
    vel: Float,
}

impl Window {
    spec fn as_view(self) -> WindowView {
        WindowView { extent: self.extent.value(), pos: self.pos.value(), vel: self.vel.value() }
    }

    spec fn wf(self) -> bool {
        &&& self.extent.wf()
        &&& self.pos.wf() && self.pos.e <= 0x8000_0000_0000_0000_0000
        &&& self.vel.wf() && self.vel.e <= 0x8000_0000_0000_0000_0000
    }
}

fn window_at(s: &Vec<Slice>, a: usize, l: Line) -> (w: Window)
    requires
        slices_ok(s@),
        s@.len() > 0,
        a < 2,
        l.wf(),
    ensures
        w.as_view() == window_on(slice_views(s@), a as int, l.as_view()),
        w.wf(),
{
    let two_f = Float::from_int(2);
    proof {
        vstd::arithmetic::power2::lemma_pow2_pos(1074);
        two_f.lemma_nonzero();
    }
    let (lo, hi) = span_of(s, a, l);
    let n = hi.minus(lo).minus(Float::ratio(1, 1_000_000)).ceil();
    assert(1 * one() == one());
    let extent = n.max(Float::from_int(1));
    Window { extent, pos: l.pos.plus(hi.plus(lo).over(two_f)), vel: l.vel }
}

fn best_of(s: &Vec<Slice>, a: usize, l: &Vec<Line>) -> (w: Window)
    requires
        slices_ok(s@),
        s@.len() > 0,
        a < 2,
        lines_ok(l@),
        l@.len() > 0,
    ensures
        w.as_view() == best_window(slice_views(s@), a as int, line_views(l@)),
        w.wf(),
{
    let ghost views = line_views(l@);
    assert(l@[0].wf());
    let mut best = window_at(s, a, l[0]);
    let mut i: usize = 1;
    assert(views.take(1)[0] == views[0]);
    while i < l.len()
        invariant
            slices_ok(s@),
            s@.len() > 0,
            a < 2,
            lines_ok(l@),
            1 <= i <= l@.len(),
            views == line_views(l@),
            best.wf(),
            best.as_view() == best_window(slice_views(s@), a as int, views.take(i as int)),
        decreases l@.len() - i,
    {
        assert(l@[i as int].wf());
        let w = window_at(s, a, l[i]);
        assert(views.take(i + 1).drop_last() =~= views.take(i as int));
        if w.extent.less(best.extent) {
            best = w;
        }
        i = i + 1;
    }
    assert(views.take(l@.len() as int) =~= views);
    best
}

fn settle(v: Float) -> (r: Float)
    requires
        v.wf(),
    ensures
        r.wf(),
        r.value() == settled(v.value()),
        r.value() == 0 ==> !r.neg,
        r.e <= v.e || r.e == -1074,
{
    let small = Float::ratio(1, 1_000_000_000);
    proof {
        small.lemma_nonzero();
    }
    if v.abs().less(small) {
        Float::zero()
    } else {
        v
    }
}

fn choose_window(r: &Mat3, s: &Vec<Slice>, a: usize, fit: usize) -> (w: Window)
    requires
        within(*r, 0x1_0000),
        slices_ok(s@),
        a < 2,
    ensures
        w.as_view() == window_along(grid(*r), slice_views(s@), a as int, fit as nat),
        w.wf(),
        w.pos.value() == 0 ==> !w.pos.neg,
        w.vel.value() == 0 ==> !w.vel.neg,
{
    proof {
        reveal(window_along);
    }
    let full = Window {
        extent: Float::from_u64(fit as u64),
        pos: Float::zero(),
        vel: Float::zero(),
    };
    if s.len() == 0 {
        return full;
    }
    let best = best_of(s, a, &candidate_lines(r, s, a));
    if best.extent.less(full.extent) {
        Window { extent: best.extent, pos: settle(best.pos), vel: settle(best.vel) }
    } else {
        full
    }
}

fn pixels(w: Window, even: bool) -> (r: Option<usize>)
    requires
        w.wf(),
    ensures
        match r {
            Some(n) => n == window_side(w.as_view(), even),
            None => window_side(w.as_view(), even) > usize::MAX,
        },
{
    let n = w.extent.floor_u64();
    let d: usize = if n > usize::MAX as u64 {
        usize::MAX
    } else {
        n as usize
    };
    if even {
        d.checked_add(d % 2)
    } else {
        Some(d)
    }
}

fn side_follows(size: OutputSize, a: usize) -> (r: bool)
    requires
        a < 2,
    ensures
        r == follows(size, a as int),
{
    match size {
        OutputSize::Fit => true,
        OutputSize::Crop => false,
        OutputSize::Custom(d) => match d[a] {
            DimSpec::Fit => true,
            _ => false,
        },
    }
}

/// Output size and window path when the window follows the content instead of covering the whole
/// bounding box. Per axis the window centre moves linearly along the candidate line (static, the
/// projected input axes — the corridor axis for a tilted video — or the least-squares fit through the
/// slice centres) that gives the smallest extent containing every slice; the full box is used where
/// no candidate is smaller.
pub fn tracked_output(r: &Mat3, in_dims: [usize; 3], size: OutputSize, even: bool) -> (o: (
    [usize; 3],
    Track,
))
    requires
        within(*r, 100),
        forall|i: int|
            0 <= i < 2 ==> #[trigger] output_sides(grid(*r), sides(in_dims), size, even)[i]
                <= usize::MAX,
        forall|i: int|
            0 <= i < 2 ==> #[trigger] tracked_sides(grid(*r), sides(in_dims), size, even)[i]
                <= usize::MAX,
    ensures
        sides(o.0) == tracked_sides(grid(*r), sides(in_dims), size, even),
        o.1@ == tracked_path(grid(*r), sides(in_dims), size, even),
        o.1.wf(),
        o.1.zeros_unsigned(),
{
    let ghost want = tracked_sides(grid(*r), sides(in_dims), size, even);
    assert(want[0] <= usize::MAX && want[1] <= usize::MAX);
    let ghost base = output_sides(grid(*r), sides(in_dims), size, even);
    assert(base[0] <= usize::MAX && base[1] <= usize::MAX);
    checked_tracked_output(r, in_dims, size, even).unwrap()
}

/// Output size and window path when the window follows the content, unless making a side even leaves
/// no number for it.
pub fn checked_tracked_output(r: &Mat3, in_dims: [usize; 3], size: OutputSize, even: bool) -> (o:
    Option<([usize; 3], Track)>)
    requires
        within(*r, 100),
    ensures
        ({
            let g = grid(*r);
            let base = output_sides(g, sides(in_dims), size, even);
            let want = tracked_sides(g, sides(in_dims), size, even);
            match o {
                Some((d, track)) => {
                    &&& sides(d) == want
                    &&& track@ == tracked_path(g, sides(in_dims), size, even)
                    &&& track.wf()
                    &&& track.zeros_unsigned()
                },
                None => base[0] > usize::MAX || base[1] > usize::MAX || want[0] > usize::MAX
                    || want[1] > usize::MAX,
            }
        }),
{
    let ghost g = grid(*r);
    let ghost dims = sides(in_dims);
    let ghost want = tracked_sides(g, dims, size, even);
    let base = match checked_output_dims(r, in_dims, size, even) {
        Some(d) => d,
        None => {
            return None;
        },
    };
    assert(sides(base)[0] == base[0] && sides(base)[1] == base[1] && sides(base)[2] == base[2]);
    let (x, y, zc) = find_windows(r, in_dims, base[2]);
    assert(x.as_view() == tracked_window(g, dims, size, even, 0));
    assert(y.as_view() == tracked_window(g, dims, size, even, 1));
    let w = if side_follows(size, 0) {
        pixels(x, even)
    } else {
        Some(base[0])
    };
    let h = if side_follows(size, 1) {
        pixels(y, even)
    } else {
        Some(base[1])
    };
    match (w, h) {
        (Some(w), Some(h)) => {
            let out = [w, h, base[2]];
            assert(sides(out) =~= want);
            let track = Track { pos: [x.pos, y.pos], vel: [x.vel, y.vel], zc };
            assert(track@ =~= tracked_path(g, dims, size, even));
            Some((out, track))
        },
        _ => {
            assert(want[0] > usize::MAX || want[1] > usize::MAX);
            None
        },
    }
}

fn find_windows(r: &Mat3, in_dims: [usize; 3], depth: usize) -> (o: (Window, Window, Float))
    requires
        within(*r, 971),
    ensures
        o.2.wf() && o.2.e <= 1300,
        o.2.value() == half_side(depth as nat),
        o.0.wf() && o.1.wf(),
        o.0.pos.value() == 0 ==> !o.0.pos.neg,
        o.0.vel.value() == 0 ==> !o.0.vel.neg,
        o.1.pos.value() == 0 ==> !o.1.pos.neg,
        o.1.vel.value() == 0 ==> !o.1.vel.neg,
        ({
            let g = grid(*r);
            let dims = sides(in_dims);
            let s = slices_upto(g, dims, half_side(depth as nat), depth as nat);
            &&& o.0.as_view() == window_along(g, s, 0, fit_sides(g, dims)[0])
            &&& o.1.as_view() == window_along(g, s, 1, fit_sides(g, dims)[1])
        }),
{
    let fit = fit_dims(r, in_dims);
    assert(sides(fit)[0] == fit[0] && sides(fit)[1] == fit[1]);
    let zc = halved(depth);
    let slices = find_slices(r, in_dims, zc, depth);
    (choose_window(r, &slices, 0, fit[0]), choose_window(r, &slices, 1, fit[1]), zc)
}

/// A window that follows the content is never larger than the whole bounding box.
pub proof fn tracked_window_is_no_larger(
    g: Seq<Seq<int>>,
    dims: Seq<nat>,
    size: OutputSize,
    even: bool,
    a: int,
)
    requires
        0 <= a < 2,
    ensures
        tracked_window(g, dims, size, even, a).extent <= fraction(fit_sides(g, dims)[a], 1),
{
    reveal(window_along);
}

/// A window along a line holds every slice: none reaches further below or above the line than the
/// window was made for.
pub proof fn windows_hold_every_slice(s: Seq<SliceView>, a: int, l: LineView, i: int)
    requires
        0 <= i < s.len(),
    ensures
        span(s, a, l).0 <= offsets(s[i], a, l).0,
        offsets(s[i], a, l).1 <= span(s, a, l).1,
    decreases s.len(),
{
    if i < s.len() - 1 {
        windows_hold_every_slice(s.drop_last(), a, l, i);
    }
}

/// Of the windows along some lines the smallest is taken.
pub proof fn the_smallest_window_is_taken(s: Seq<SliceView>, a: int, l: Seq<LineView>, i: int)
    requires
        0 <= i < l.len(),
    ensures
        best_window(s, a, l).extent <= window_on(s, a, l[i]).extent,
    decreases l.len(),
{
    if l.len() > 1 && i < l.len() - 1 {
        the_smallest_window_is_taken(s, a, l.drop_last(), i);
    }
}

} // verus!
