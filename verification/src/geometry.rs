//! Rotation geometry. Axes: X = width (right), Y = height (down), Z = frames (time forward).
//! Positive angles follow the right-hand rule around each axis.

use vstd::prelude::*;
use vstd::arithmetic::div_mod::{lemma_fundamental_div_mod, lemma_fundamental_div_mod_converse};
use vstd::arithmetic::power2::{lemma_pow2_pos, lemma_pow2_strictly_increases, pow2};
use crate::binary64::{
    ceiling_of, clamped, difference, fraction, magnitude_of, one, product, rounded, rounding_error,
    small_fractions, sum, whole_numbers_are_exact, whole_products_are_exact, zero_product, Float,
};
use crate::decimals::{Real, RealView};
use crate::error::{Error, Fault};
use crate::fixed::{fixed_signed, put_fixed_signed};
use crate::number::{number, parse_number};
use crate::reals::{add_up, multiply, real_product, real_sum};
use crate::rotation::lemma_rotation_bounded;
use crate::rounding::{lemma_rounded_positive, rounding_is_monotonic};
use crate::text::{chars_of, lower, pieces, rows, same, split, string_of, to_lower, trim, trimmed};

verus! {

/// A matrix of three rows.
pub type Mat3 = [[Float; 3]; 3];

/// An axis of the volume.
#[derive(Clone, Copy, Debug, PartialEq, Eq, Structural)]
pub enum Axis {
    X,
    Y,
    Z,
}

/// The axis that a letter stands for.
pub open spec fn axis_of(c: char) -> Option<Axis> {
    if c == 'x' {
        Some(Axis::X)
    } else if c == 'y' {
        Some(Axis::Y)
    } else if c == 'z' {
        Some(Axis::Z)
    } else {
        None
    }
}

/// The order of axes that a lower-case text stands for, when it holds every axis once.
pub open spec fn order_of(t: Seq<char>) -> Option<(Axis, Axis, Axis)> {
    if t.len() != 3 {
        None
    } else {
        match (axis_of(t[0]), axis_of(t[1]), axis_of(t[2])) {
            (Some(a), Some(b), Some(c)) => if a != b && a != c && b != c {
                Some((a, b, c))
            } else {
                None
            },
            _ => None,
        }
    }
}

fn axis_letter(c: char) -> (r: Option<Axis>)
    ensures
        r == axis_of(c),
{
    if c == 'x' {
        Some(Axis::X)
    } else if c == 'y' {
        Some(Axis::Y)
    } else if c == 'z' {
        Some(Axis::Z)
    } else {
        None
    }
}

/// Reads the order of the rotations: a permutation of xyz.
pub fn parse_order(s: &str) -> (r: Result<[Axis; 3], Error>)
    ensures
        match r {
            Ok(o) => order_of(lower(trim(s@))) == Some((o[0], o[1], o[2])),
            Err(e) => order_of(lower(trim(s@))) is None && e.says(
                Fault::BadOrder,
                "ROT_ORDER"@,
                lower(trim(s@)),
            ),
        },
{
    let text = chars_of(s);
    let t = to_lower(trimmed(&text));
    if t.len() == 3 {
        match (axis_letter(t[0]), axis_letter(t[1]), axis_letter(t[2])) {
            (Some(a), Some(b), Some(c)) => {
                if a != b && a != c && b != c {
                    return Ok([a, b, c]);
                }
            },
            _ => {},
        }
    }
    Err(Error::new(Fault::BadOrder, "ROT_ORDER", string_of(&t).as_str()))
}

/// The size of the output volume.
#[derive(Clone, Copy, Debug, PartialEq, Eq)]
pub enum OutputSize {
    Fit,
    Crop,
    Custom([DimSpec; 3]),
}

/// One side of the output volume.
#[derive(Clone, Copy, Debug, PartialEq, Eq, Structural)]
pub enum DimSpec {
    Fit,
    Input,
    Exact(usize),
}

/// The side that a text stands for.
pub open spec fn named_dim(p: Seq<char>) -> Option<DimSpec> {
    let t = trim(p);
    if t == "0"@ || t == "fit"@ {
        Some(DimSpec::Fit)
    } else if t == "-1"@ || t == "in"@ || t == "input"@ || t == "same"@ {
        Some(DimSpec::Input)
    } else {
        match number(t, usize::MAX as nat) {
            Ok(n) => if n > 0 {
                Some(DimSpec::Exact(n as usize))
            } else {
                None
            },
            Err(_) => None,
        }
    }
}

/// The output size that a text stands for.
pub open spec fn named_output(s: Seq<char>) -> Result<OutputSize, Fault> {
    let t = lower(trim(s));
    if t == "fit"@ || t == "bbox"@ || t == "auto"@ {
        Ok(OutputSize::Fit)
    } else if t == "crop"@ || t == "input"@ || t == "same"@ {
        Ok(OutputSize::Crop)
    } else {
        let v = pieces(t, 'x');
        if v.len() != 3 {
            Err(Fault::BadOutputSize)
        } else {
            match (named_dim(v[0]), named_dim(v[1]), named_dim(v[2])) {
                (None, _, _) => Err(Fault::BadDimension(0)),
                (Some(_), None, _) => Err(Fault::BadDimension(1)),
                (Some(_), Some(_), None) => Err(Fault::BadDimension(2)),
                (Some(a), Some(b), Some(c)) => Ok(OutputSize::Custom([a, b, c])),
            }
        }
    }
}

fn dim_of(p: &Vec<char>) -> (r: Option<DimSpec>)
    ensures
        r == named_dim(p@),
{
    let t = trimmed(p);
    if same(t, "0") || same(t, "fit") {
        Some(DimSpec::Fit)
    } else if same(t, "-1") || same(t, "in") || same(t, "input") || same(t, "same") {
        Some(DimSpec::Input)
    } else {
        match parse_number(t, usize::MAX as u64) {
            Ok(n) => if n > 0 {
                Some(DimSpec::Exact(n as usize))
            } else {
                None
            },
            Err(_) => None,
        }
    }
}

/// Reads the output size: fit, crop, or three sides (each 0 = fit, -1 = input, or a positive size).
pub fn parse_output_size(s: &str) -> (r: Result<OutputSize, Error>)
    ensures
        match r {
            Ok(o) => named_output(s@) == Ok::<OutputSize, Fault>(o),
            Err(e) => named_output(s@) == Err::<OutputSize, Fault>(e.fault) && e.says(
                e.fault,
                "ROT_OUTPUT"@,
                s@,
            ),
        },
{
    let text = chars_of(s);
    let t = to_lower(trimmed(&text));
    if same(&t, "fit") || same(&t, "bbox") || same(&t, "auto") {
        return Ok(OutputSize::Fit);
    }
    if same(&t, "crop") || same(&t, "input") || same(&t, "same") {
        return Ok(OutputSize::Crop);
    }
    let v = split(&t, 'x');
    assert(rows(v@).len() == v@.len());
    if v.len() != 3 {
        return Err(Error::new(Fault::BadOutputSize, "ROT_OUTPUT", s));
    }
    assert(rows(v@)[0] == v@[0]@);
    assert(rows(v@)[1] == v@[1]@);
    assert(rows(v@)[2] == v@[2]@);
    match (dim_of(&v[0]), dim_of(&v[1]), dim_of(&v[2])) {
        (Some(a), Some(b), Some(c)) => {
            let spec_dims = [a, b, c];
            let ghost want = named_output(s@)->Ok_0->Custom_0;
            assert(spec_dims =~= want);
            Ok(OutputSize::Custom(spec_dims))
        },
        (None, _, _) => Err(Error::new(Fault::BadDimension(0), "ROT_OUTPUT", s)),
        (Some(_), None, _) => Err(Error::new(Fault::BadDimension(1), "ROT_OUTPUT", s)),
        (Some(_), Some(_), None) => Err(Error::new(Fault::BadDimension(2), "ROT_OUTPUT", s)),
    }
}

/// The size leaves the frame count as it is.
pub open spec fn keeps_depth(size: OutputSize) -> bool {
    match size {
        OutputSize::Fit | OutputSize::Crop => true,
        OutputSize::Custom(d) => !(d[2] is Exact),
    }
}

/// True when the size leaves the frame count equal to the input's (needed for streaming).
pub fn depth_kept(size: OutputSize) -> (r: bool)
    ensures
        r == keeps_depth(size),
{
    match size {
        OutputSize::Fit | OutputSize::Crop => true,
        OutputSize::Custom(d) => match d[2] {
            DimSpec::Exact(_) => false,
            _ => true,
        },
    }
}

/// The entries of a matrix, row by row.
pub open spec fn grid(m: Mat3) -> Seq<Seq<int>> {
    Seq::new(3, |i: int| Seq::new(3, |j: int| m[i][j].value()))
}

/// Every entry is a number whose exponent is at most `k`.
pub open spec fn within(m: Mat3, k: int) -> bool {
    forall|i: int, j: int|
        0 <= i < 3 && 0 <= j < 3 ==> (#[trigger] m[i][j]).wf() && m[i][j].e <= k
}

/// The coordinates of a vector.
pub open spec fn coords(v: [Float; 3]) -> Seq<int> {
    Seq::new(3, |i: int| v[i].value())
}

/// Every coordinate is a number whose exponent is at most `k`.
pub open spec fn vector_within(v: [Float; 3], k: int) -> bool {
    forall|i: int| 0 <= i < 3 ==> (#[trigger] v[i]).wf() && v[i].e <= k
}

/// The scalar product of two triples.
pub open spec fn dot(a: Seq<int>, b: Seq<int>) -> int {
    sum(sum(product(a[0], b[0]), product(a[1], b[1])), product(a[2], b[2]))
}

/// A column of a matrix.
pub open spec fn column(g: Seq<Seq<int>>, j: int) -> Seq<int> {
    seq![g[0][j], g[1][j], g[2][j]]
}

/// The product of two matrices.
pub open spec fn matrix_product(a: Seq<Seq<int>>, b: Seq<Seq<int>>) -> Seq<Seq<int>> {
    Seq::new(3, |i: int| Seq::new(3, |j: int| dot(a[i], column(b, j))))
}

/// A matrix applied to a vector.
pub open spec fn applied(a: Seq<Seq<int>>, v: Seq<int>) -> Seq<int> {
    Seq::new(3, |i: int| dot(a[i], v))
}

fn dot3(
    a: [Float; 3],
    b: [Float; 3],
    Ghost(ka): Ghost<int>,
    Ghost(kb): Ghost<int>,
) -> (r: Float)
    requires
        vector_within(a, ka),
        vector_within(b, kb),
        0 <= ka <= 0x1_0000_0000_0000_0000_0000_0000,
        0 <= kb <= 0x1_0000_0000_0000_0000_0000_0000,
    ensures
        r.wf(),
        r.value() == dot(coords(a), coords(b)),
        r.e <= ka + kb + 228,
{
    a[0].times(b[0]).plus(a[1].times(b[1])).plus(a[2].times(b[2]))
}

/// The rows as columns.
pub fn transpose(a: &Mat3) -> (r: Mat3)
    ensures
        forall|i: int, j: int| 0 <= i < 3 && 0 <= j < 3 ==> #[trigger] r[i][j] == a[j][i],
{
    [
        [a[0][0], a[1][0], a[2][0]],
        [a[0][1], a[1][1], a[2][1]],
        [a[0][2], a[1][2], a[2][2]],
    ]
}

fn bounded_product(
    a: &Mat3,
    b: &Mat3,
    Ghost(ka): Ghost<int>,
    Ghost(kb): Ghost<int>,
) -> (r: Mat3)
    requires
        within(*a, ka),
        within(*b, kb),
        0 <= ka <= 0x1_0000_0000,
        0 <= kb <= 0x1_0000_0000,
    ensures
        grid(r) == matrix_product(grid(*a), grid(*b)),
        within(r, ka + kb + 228),
{
    let t = transpose(b);
    assert forall|i: int| 0 <= i < 3 implies vector_within(#[trigger] a[i], ka) by {
        assert forall|j: int| 0 <= j < 3 implies (#[trigger] a[i][j]).wf() && a[i][j].e <= ka by {}
    }
    assert forall|j: int| 0 <= j < 3 implies vector_within(#[trigger] t[j], kb) by {
        assert forall|i: int| 0 <= i < 3 implies (#[trigger] t[j][i]).wf() && t[j][i].e <= kb by {
            assert(t[j][i] == b[i][j]);
        }
    }
    let r = [
        [
            dot3(a[0], t[0], Ghost(ka), Ghost(kb)),
            dot3(a[0], t[1], Ghost(ka), Ghost(kb)),
            dot3(a[0], t[2], Ghost(ka), Ghost(kb)),
        ],
        [
            dot3(a[1], t[0], Ghost(ka), Ghost(kb)),
            dot3(a[1], t[1], Ghost(ka), Ghost(kb)),
            dot3(a[1], t[2], Ghost(ka), Ghost(kb)),
        ],
        [
            dot3(a[2], t[0], Ghost(ka), Ghost(kb)),
            dot3(a[2], t[1], Ghost(ka), Ghost(kb)),
            dot3(a[2], t[2], Ghost(ka), Ghost(kb)),
        ],
    ];
    assert forall|i: int, j: int| 0 <= i < 3 && 0 <= j < 3 implies (#[trigger] grid(r)[i][j])
        == matrix_product(grid(*a), grid(*b))[i][j] by {
        assert(coords(a[i]) =~= grid(*a)[i]);
        assert(coords(t[j]) =~= column(grid(*b), j));
    }
    assert(grid(r) =~~= matrix_product(grid(*a), grid(*b)));
    r
}

/// A number as one that can also be infinite.
pub open spec fn real_entry(x: Float) -> RealView {
    Real::Finite(x)@
}

/// The scalar product of two triples, which need not be finite.
pub open spec fn real_dot(a: Seq<Float>, b: Seq<Float>) -> RealView {
    real_sum(
        real_sum(
            real_product(real_entry(a[0]), real_entry(b[0])),
            real_product(real_entry(a[1]), real_entry(b[1])),
        ),
        real_product(real_entry(a[2]), real_entry(b[2])),
    )
}

fn real_dot3(a: [Float; 3], b: [Float; 3]) -> (r: Real)
    requires
        vector_within(a, 971),
        vector_within(b, 971),
    ensures
        r@ == real_dot(a@, b@),
        r.wf(),
{
    let x = multiply(Real::Finite(a[0]), Real::Finite(b[0]));
    let y = multiply(Real::Finite(a[1]), Real::Finite(b[1]));
    let z = multiply(Real::Finite(a[2]), Real::Finite(b[2]));
    add_up(add_up(x, y), z)
}

/// The product of two matrices.
pub fn mat_mul(a: &Mat3, b: &Mat3) -> (r: [[Real; 3]; 3])
    requires
        within(*a, 971),
        within(*b, 971),
    ensures
        forall|i: int, j: int|
            0 <= i < 3 && 0 <= j < 3 ==> (#[trigger] r[i][j])@ == real_dot(
                a[i]@,
                seq![b[0][j], b[1][j], b[2][j]],
            ) && r[i][j].wf(),
{
    [real_row(a[0], b), real_row(a[1], b), real_row(a[2], b)]
}

/// A row times a matrix.
fn real_row(a: [Float; 3], b: &Mat3) -> (r: [Real; 3])
    requires
        vector_within(a, 971),
        within(*b, 971),
    ensures
        forall|j: int|
            0 <= j < 3 ==> (#[trigger] r[j])@ == real_dot(a@, seq![b[0][j], b[1][j], b[2][j]])
                && r[j].wf(),
{
    let (x, y, z) = (
        [b[0][0], b[1][0], b[2][0]],
        [b[0][1], b[1][1], b[2][1]],
        [b[0][2], b[1][2], b[2][2]],
    );
    assert(x@ =~= seq![b[0][0], b[1][0], b[2][0]]);
    assert(y@ =~= seq![b[0][1], b[1][1], b[2][1]]);
    assert(z@ =~= seq![b[0][2], b[1][2], b[2][2]]);
    [real_dot3(a, x), real_dot3(a, y), real_dot3(a, z)]
}

/// A matrix applied to a vector.
pub fn mat_vec(m: &Mat3, v: [Float; 3]) -> (r: [Real; 3])
    requires
        within(*m, 971),
        vector_within(v, 971),
    ensures
        forall|i: int|
            0 <= i < 3 ==> (#[trigger] r[i])@ == real_dot(m[i]@, v@) && r[i].wf(),
{
    assert forall|i: int| 0 <= i < 3 implies vector_within(#[trigger] m[i], 971) by {
        assert forall|j: int| 0 <= j < 3 implies (#[trigger] m[i][j]).wf() && m[i][j].e <= 971 by {}
    }
    [real_dot3(m[0], v), real_dot3(m[1], v), real_dot3(m[2], v)]
}

pub(crate) fn bounded_image(
    m: &Mat3,
    v: [Float; 3],
    Ghost(km): Ghost<int>,
    Ghost(kv): Ghost<int>,
) -> (r: [Float; 3])
    requires
        within(*m, km),
        vector_within(v, kv),
        0 <= km <= 0x1_0000_0000_0000_0000_0000_0000,
        0 <= kv <= 0x1_0000_0000_0000_0000_0000_0000,
    ensures
        coords(r) == applied(grid(*m), coords(v)),
        vector_within(r, km + kv + 228),
{
    assert forall|i: int| 0 <= i < 3 implies vector_within(#[trigger] m[i], km) by {
        assert forall|j: int| 0 <= j < 3 implies (#[trigger] m[i][j]).wf() && m[i][j].e <= km by {}
    }
    let r = [
        dot3(m[0], v, Ghost(km), Ghost(kv)),
        dot3(m[1], v, Ghost(km), Ghost(kv)),
        dot3(m[2], v, Ghost(km), Ghost(kv)),
    ];
    assert forall|i: int| 0 <= i < 3 implies #[trigger] coords(r)[i] == applied(
        grid(*m),
        coords(v),
    )[i] by {
        assert(coords(m[i]) =~= grid(*m)[i]);
    }
    assert(coords(r) =~= applied(grid(*m), coords(v)));
    r
}

/// The sine and cosine of an angle.
#[derive(Clone, Copy, Debug, PartialEq, Eq, Structural)]
pub struct Angle {
    pub sin: Float,
    pub cos: Float,
}

impl Angle {
    /// Both are binary64 numbers up to 1.
    pub open spec fn wf(self) -> bool {
        self.sin.wf() && self.cos.wf() && self.bounded()
    }
}

/// The rotation around one axis.
pub open spec fn axis_rotation(axis: Axis, s: int, c: int) -> Seq<Seq<int>> {
    let u = one() as int;
    match axis {
        Axis::X => seq![seq![u, 0, 0], seq![0, c, -s], seq![0, s, c]],
        Axis::Y => seq![seq![c, 0, s], seq![0, u, 0], seq![-s, 0, c]],
        Axis::Z => seq![seq![c, -s, 0], seq![s, c, 0], seq![0, 0, u]],
    }
}

/// The matrix that changes nothing.
pub open spec fn identity() -> Seq<Seq<int>> {
    let u = one() as int;
    seq![seq![u, 0, 0], seq![0, u, 0], seq![0, 0, u]]
}

/// The rotation around one axis by an angle given by its sine and cosine.
pub fn axis_matrix(axis: Axis, angle: Angle) -> (r: Mat3)
    requires
        angle.wf(),
    ensures
        grid(r) == axis_rotation(axis, angle.sin.value(), angle.cos.value()),
        within(r, 76),
{
    proof {
        lemma_small_exponent(angle.sin, 1);
        lemma_small_exponent(angle.cos, 1);
    }
    let s = angle.sin;
    let c = angle.cos;
    let n = s.negated();
    let o = Float::zero();
    let u = Float::from_int(1);
    let r = match axis {
        Axis::X => [[u, o, o], [o, c, n], [o, s, c]],
        Axis::Y => [[c, o, s], [o, u, o], [n, o, c]],
        Axis::Z => [[c, n, o], [s, c, o], [o, o, u]],
    };
    assert(grid(r) =~~= axis_rotation(axis, s.value(), c.value()));
    r
}

/// An entry of a rotation: within 1e-12 of 0 or ±1 it is that number.
pub open spec fn snapped(v: int) -> int {
    let tiny = fraction(1, 1_000_000_000_000) as int;
    let u = one() as int;
    if magnitude_of(v) < tiny {
        0
    } else if magnitude_of(difference(magnitude_of(v), u)) < tiny {
        if v < 0 {
            -u
        } else {
            u
        }
    } else {
        v
    }
}

/// The index of an axis.
pub open spec fn axis_index(a: Axis) -> int {
    match a {
        Axis::X => 0,
        Axis::Y => 1,
        Axis::Z => 2,
    }
}

/// The rotation around one of the axes by its angle.
pub open spec fn turned(angles: [Angle; 3], a: Axis) -> Seq<Seq<int>> {
    let t = angles[axis_index(a)];
    axis_rotation(a, t.sin.value(), t.cos.value())
}

/// The rotations applied in order, first to last, before snapping.
pub open spec fn composed(angles: [Angle; 3], order: [Axis; 3]) -> Seq<Seq<int>> {
    matrix_product(
        turned(angles, order[2]),
        matrix_product(
            turned(angles, order[1]),
            matrix_product(turned(angles, order[0]), identity()),
        ),
    )
}

fn snap(v: Float) -> (r: Float)
    requires
        v.wf(),
        v.e <= 0x1_0000,
    ensures
        r.wf(),
        r.value() == snapped(v.value()),
        r.value() == 0 ==> !r.neg,
        r.e <= v.e || r.e <= 76,
{
    let tiny = Float::ratio(1, 1_000_000_000_000);
    let u = Float::from_int(1);
    let a = v.abs();
    proof {
        lemma_pow2_pos(1074);
        assert(1 * one() == one());
        tiny.lemma_nonzero();
    }
    if a.less(tiny) {
        Float::zero()
    } else if a.minus(u).abs().less(tiny) {
        if v.less(Float::zero()) {
            u.negated()
        } else {
            u
        }
    } else {
        v
    }
}

/// A number of a few units of one has no large exponent.
proof fn lemma_small_exponent(x: Float, k: nat)
    requires
        x.wf(),
        magnitude_of(x.value()) <= k * one(),
        k <= 64,
    ensures
        x.e <= 76,
{
    if x.e > 76 {
        let p = pow2((x.e + 1074) as nat);
        lemma_pow2_strictly_increases(1074, (x.e + 1074) as nat);
        assert(x.m * p >= 0x10_0000_0000_0000 * p) by (nonlinear_arith)
            requires
                x.m >= 0x10_0000_0000_0000,
        ;
        lemma_pow2_pos(1074);
        assert(k * one() <= 64 * one()) by (nonlinear_arith)
            requires
                k <= 64,
        ;
    }
}

/// The full rotation: the rotations are applied in `order` (first element applied first). Entries
/// within 1e-12 of 0 or ±1 are snapped so exact 90° multiples stay exact.
pub fn rotation_matrix(angles: [Angle; 3], order: [Axis; 3]) -> (r: Mat3)
    requires
        forall|i: int| 0 <= i < 3 ==> (#[trigger] angles[i]).wf(),
    ensures
        forall|i: int, j: int|
            0 <= i < 3 && 0 <= j < 3 ==> (#[trigger] grid(r)[i][j]) == snapped(
                composed(angles, order)[i][j],
            ),
        forall|i: int, j: int|
            0 <= i < 3 && 0 <= j < 3 && grid(r)[i][j] == 0 ==> !(#[trigger] r[i][j]).neg,
        within(r, 76),
{
    let o = Float::zero();
    let u = Float::from_int(1);
    let start = [[u, o, o], [o, u, o], [o, o, u]];
    assert(grid(start) =~~= identity());
    let a = turn(angles, order[0]);
    let first = bounded_product(&a, &start, Ghost(76), Ghost(76));
    let b = turn(angles, order[1]);
    let second = bounded_product(&b, &first, Ghost(76), Ghost(380));
    let c = turn(angles, order[2]);
    let m = bounded_product(&c, &second, Ghost(76), Ghost(684));
    assert(grid(m) == composed(angles, order));
    let r = [
        [snap(m[0][0]), snap(m[0][1]), snap(m[0][2])],
        [snap(m[1][0]), snap(m[1][1]), snap(m[1][2])],
        [snap(m[2][0]), snap(m[2][1]), snap(m[2][2])],
    ];
    assert forall|i: int, j: int| 0 <= i < 3 && 0 <= j < 3 implies (#[trigger] grid(r)[i][j])
        == snapped(composed(angles, order)[i][j]) by {
        assert(grid(m)[i][j] == m[i][j].value());
    }
    assert forall|i: int, j: int| 0 <= i < 3 && 0 <= j < 3 implies (#[trigger] r[i][j]).wf()
        && r[i][j].e <= 76 by {
        lemma_rotation_bounded(angles, order, i, j);
        assert(grid(r)[i][j] == r[i][j].value());
        lemma_small_exponent(r[i][j], 16);
    }
    r
}

fn turn(angles: [Angle; 3], axis: Axis) -> (r: Mat3)
    requires
        forall|i: int| 0 <= i < 3 ==> (#[trigger] angles[i]).wf(),
    ensures
        grid(r) == turned(angles, axis),
        within(r, 76),
{
    match axis {
        Axis::X => axis_matrix(axis, angles[0]),
        Axis::Y => axis_matrix(axis, angles[1]),
        Axis::Z => axis_matrix(axis, angles[2]),
    }
}

/// Time maps onto itself.
pub open spec fn keeps_time(g: Seq<Seq<int>>) -> bool {
    magnitude_of(g[2][2]) == one()
}

/// True when time maps onto itself (R33 = ±1): every output frame comes from exactly one input frame.
pub fn is_planar(r: &Mat3) -> (b: bool)
    requires
        within(*r, 971),
    ensures
        b == keeps_time(grid(*r)),
{
    let v = r[2][2];
    assert(grid(*r)[2][2] == v.value());
    v.abs().equals(Float::from_int(1))
}

/// The part of a matrix that acts on width and height, with time running forward.
pub open spec fn in_plane(g: Seq<Seq<int>>) -> Seq<Seq<int>> {
    seq![seq![g[0][0], g[0][1], 0], seq![g[1][0], g[1][1], 0], seq![0, 0, one() as int]]
}

/// The in-plane (XY) part of a planar rotation, with time running forward.
pub fn planar_xy(r: &Mat3) -> (m: Mat3)
    requires
        within(*r, 971),
    ensures
        grid(m) == in_plane(grid(*r)),
        within(m, 971),
        within(*r, 100) ==> within(m, 100),
{
    let o = Float::zero();
    let u = Float::from_int(1);
    let m = [[r[0][0], r[0][1], o], [r[1][0], r[1][1], o], [o, o, u]];
    assert(grid(m) =~~= in_plane(grid(*r)));
    m
}

/// The rotated time axis points against the original one.
pub open spec fn turns_time_back(g: Seq<Seq<int>>) -> bool {
    g[2][2] < -(fraction(1, 1_000_000_000) as int)
}

/// True when the rotated time axis points against the original time axis.
pub fn time_reversed(r: &Mat3) -> (b: bool)
    requires
        within(*r, 971),
    ensures
        b == turns_time_back(grid(*r)),
{
    let v = r[2][2];
    assert(grid(*r)[2][2] == v.value());
    v.less(Float::ratio(1, 1_000_000_000).negated())
}

/// The sides of a volume.
pub open spec fn sides(d: [usize; 3]) -> Seq<nat> {
    Seq::new(3, |i: int| d[i] as nat)
}

/// How far a rotated box reaches along one output axis: the sum of |R_ij| * dim_j.
pub open spec fn reach(row: Seq<int>, dims: Seq<nat>) -> int {
    sum(
        sum(
            product(magnitude_of(row[0]), fraction(dims[0], 1) as int),
            product(magnitude_of(row[1]), fraction(dims[1], 1) as int),
        ),
        product(magnitude_of(row[2]), fraction(dims[2], 1) as int),
    )
}

/// The whole pixels that cover a length, forgiving a millionth, and at least one.
pub open spec fn covering(length: int) -> nat {
    let n = ceiling_of(difference(length, fraction(1, 1_000_000) as int));
    clamped(
        if n < 1 {
            1
        } else {
            n
        },
        1,
        usize::MAX as int,
    ) as nat
}

/// One side of the bounding box of a rotated box.
pub open spec fn fit_side(row: Seq<int>, dims: Seq<nat>) -> nat {
    covering(reach(row, dims))
}

/// The bounding box of a rotated box.
pub open spec fn fit_sides(g: Seq<Seq<int>>, dims: Seq<nat>) -> Seq<nat> {
    Seq::new(3, |i: int| fit_side(g[i], dims))
}

fn fit_row(row: [Float; 3], dims: [usize; 3]) -> (r: usize)
    requires
        vector_within(row, 971),
    ensures
        r == fit_side(coords(row), sides(dims)),
        r >= 1,
{
    let a = row[0].abs().times(Float::from_u64(dims[0] as u64));
    let b = row[1].abs().times(Float::from_u64(dims[1] as u64));
    let c = row[2].abs().times(Float::from_u64(dims[2] as u64));
    let e = a.plus(b).plus(c);
    assert(e.value() == reach(coords(row), sides(dims)));
    let n = e.minus(Float::ratio(1, 1_000_000)).ceil_usize();
    if n < 1 {
        1
    } else {
        n
    }
}

/// Bounding box of the rotated input box: dim'_i = sum_j |R_ij| * dim_j.
pub fn fit_dims(r: &Mat3, dims: [usize; 3]) -> (out: [usize; 3])
    requires
        within(*r, 971),
    ensures
        sides(out) == fit_sides(grid(*r), sides(dims)),
        forall|i: int| 0 <= i < 3 ==> #[trigger] out[i] >= 1,
{
    assert forall|i: int| 0 <= i < 3 implies vector_within(#[trigger] r[i], 971) && coords(
        r[i],
    ) == grid(*r)[i] by {
        assert forall|j: int| 0 <= j < 3 implies (#[trigger] r[i][j]).wf() && r[i][j].e <= 971
            by {}
        assert(coords(r[i]) =~= grid(*r)[i]);
    }
    let out = [fit_row(r[0], dims), fit_row(r[1], dims), fit_row(r[2], dims)];
    assert(sides(out) =~= fit_sides(grid(*r), sides(dims)));
    out
}

/// The sides of the output volume before they are made even.
pub open spec fn chosen_sides(fit: Seq<nat>, dims: Seq<nat>, size: OutputSize) -> Seq<nat> {
    match size {
        OutputSize::Fit => fit,
        OutputSize::Crop => dims,
        OutputSize::Custom(d) => Seq::new(
            3,
            |i: int|
                match d[i] {
                    DimSpec::Fit => fit[i],
                    DimSpec::Input => dims[i],
                    DimSpec::Exact(v) => v as nat,
                },
        ),
    }
}

/// A size, made even by adding one pixel.
pub open spec fn up_to_even(n: nat, even: bool) -> nat {
    if even {
        n + n % 2
    } else {
        n
    }
}

/// Width and height made even, the frame count kept.
pub open spec fn even_frame(v: Seq<nat>, even: bool) -> Seq<nat> {
    seq![up_to_even(v[0], even), up_to_even(v[1], even), v[2]]
}

/// The sides of the output volume.
pub open spec fn output_sides(
    g: Seq<Seq<int>>,
    dims: Seq<nat>,
    size: OutputSize,
    even: bool,
) -> Seq<nat> {
    even_frame(chosen_sides(fit_sides(g, dims), dims, size), even)
}

fn side_of(d: DimSpec, fit: usize, input: usize) -> (r: usize)
    ensures
        r == match d {
            DimSpec::Fit => fit,
            DimSpec::Input => input,
            DimSpec::Exact(v) => v,
        },
{
    match d {
        DimSpec::Fit => fit,
        DimSpec::Input => input,
        DimSpec::Exact(v) => v,
    }
}

/// The output size for a bounding box: the box, the input size or the sides asked for.
pub fn choose_dims(fit: [usize; 3], in_dims: [usize; 3], size: OutputSize) -> (out: [usize; 3])
    ensures
        sides(out) == chosen_sides(sides(fit), sides(in_dims), size),
{
    let out = match size {
        OutputSize::Fit => fit,
        OutputSize::Crop => in_dims,
        OutputSize::Custom(d) => [
            side_of(d[0], fit[0], in_dims[0]),
            side_of(d[1], fit[1], in_dims[1]),
            side_of(d[2], fit[2], in_dims[2]),
        ],
    };
    assert(sides(out) =~= chosen_sides(sides(fit), sides(in_dims), size));
    out
}

/// The output size of a rotated volume. An odd width or height that is to be made even has room for
/// one more pixel.
pub fn output_dims(r: &Mat3, in_dims: [usize; 3], size: OutputSize, even: bool) -> (out: [usize; 3])
    requires
        within(*r, 971),
        forall|i: int|
            0 <= i < 2 ==> #[trigger] output_sides(grid(*r), sides(in_dims), size, even)[i]
                <= usize::MAX,
    ensures
        sides(out) == output_sides(grid(*r), sides(in_dims), size, even),
{
    let d = choose_dims(fit_dims(r, in_dims), in_dims, size);
    assert(sides(d)[0] == d[0] && sides(d)[1] == d[1] && sides(d)[2] == d[2]);
    let ghost want = output_sides(grid(*r), sides(in_dims), size, even);
    assert(want[0] <= usize::MAX && want[1] <= usize::MAX);
    let out = if even {
        [d[0] + d[0] % 2, d[1] + d[1] % 2, d[2]]
    } else {
        d
    };
    assert(sides(out) =~= want);
    out
}

/// The output size of a rotated volume, unless making it even leaves no number for it.
pub fn checked_output_dims(r: &Mat3, in_dims: [usize; 3], size: OutputSize, even: bool) -> (out:
    Option<[usize; 3]>)
    requires
        within(*r, 971),
    ensures
        match out {
            Some(d) => sides(d) == output_sides(grid(*r), sides(in_dims), size, even),
            None => output_sides(grid(*r), sides(in_dims), size, even)[0] > usize::MAX
                || output_sides(grid(*r), sides(in_dims), size, even)[1] > usize::MAX,
        },
{
    let d = choose_dims(fit_dims(r, in_dims), in_dims, size);
    assert(sides(d)[0] == d[0] && sides(d)[1] == d[1] && sides(d)[2] == d[2]);
    if even && (d[0] == usize::MAX || d[1] == usize::MAX) {
        return None;
    }
    Some(output_dims(r, in_dims, size, even))
}

/// The matrix in text.
pub open spec fn matrix_text(m: Mat3) -> Seq<char> {
    row_text(m[0]) + " "@ + row_text(m[1]) + " "@ + row_text(m[2])
}

/// A row of a matrix in text.
pub open spec fn row_text(row: [Float; 3]) -> Seq<char> {
    "["@ + fixed_signed(row[0], 4) + " "@ + fixed_signed(row[1], 4) + " "@ + fixed_signed(row[2], 4)
        + "]"@
}

fn put_row(out: &mut String, row: [Float; 3])
    requires
        row[0].wf(),
        row[1].wf(),
        row[2].wf(),
    ensures
        final(out)@ == old(out)@ + row_text(row),
{
    let ghost before = out@;
    out.append("[");
    put_fixed_signed(out, row[0], 4);
    out.append(" ");
    put_fixed_signed(out, row[1], 4);
    out.append(" ");
    put_fixed_signed(out, row[2], 4);
    out.append("]");
    assert(out@ =~= before + row_text(row));
}

/// Prints a matrix.
pub fn fmt_mat(m: &Mat3) -> (r: String)
    requires
        within(*m, 971),
    ensures
        r@ == matrix_text(*m),
{
    let mut r = String::new();
    put_row(&mut r, m[0]);
    r.append(" ");
    put_row(&mut r, m[1]);
    r.append(" ");
    put_row(&mut r, m[2]);
    assert(r@ =~= matrix_text(*m));
    r
}

/// A row of a matrix that takes one input axis over, in either direction.
pub open spec fn takes_over(row: Seq<int>, j: int) -> bool {
    &&& 0 <= j < 3
    &&& magnitude_of(row[j]) == one()
    &&& forall|k: int| 0 <= k < 3 && k != j ==> #[trigger] row[k] == 0
}

/// Quarter turns: where an output axis takes over one input axis, the output side along it is the
/// input side, unchanged. So a turn around X by 90° makes a video of W by D pixels that is H frames
/// long, and a turn around Z swaps width and height.
pub proof fn quarter_turns_permute_the_sides(row: Seq<int>, dims: Seq<nat>, j: int)
    requires
        row.len() == 3,
        dims.len() == 3,
        takes_over(row, j),
        0 < dims[j] < 0x10_0000_0000_0000,
        dims[j] <= usize::MAX,
    ensures
        fit_side(row, dims) == dims[j],
{
    let d = dims[j];
    let u = one() as int;
    whole_numbers_are_exact(d);
    whole_products_are_exact(1, d);
    zero_product(fraction(dims[0], 1) as int);
    zero_product(fraction(dims[1], 1) as int);
    zero_product(fraction(dims[2], 1) as int);
    whole_numbers_are_exact(0);
    assert(1 * one() == one());
    assert(0 * one() == 0);
    assert(1 * d == d);
    let v = (d * one()) as int;
    assert(v >= 0);
    assert(reach(row, dims) == v);
    lemma_just_below(d);
}

/// A whole number, less a millionth, is covered by that whole number.
proof fn lemma_just_below(d: nat)
    requires
        0 < d < 0x10_0000_0000_0000,
    ensures
        ceiling_of(difference((d * one()) as int, fraction(1, 1_000_000) as int)) == d,
{
    let u = one() as int;
    let c = fraction(1, 1_000_000) as int;
    lemma_millionth();
    let v = d * u;
    assert(v >= u) by (nonlinear_arith)
        requires
            v == d * u,
            d >= 1,
            u > 0,
    ;
    let x = (v - c) as nat;
    whole_numbers_are_exact(d);
    rounding_is_monotonic(x, v as nat, 1, 53);
    rounding_error(x);
    let r = rounded(x, 1) as int;
    vstd::arithmetic::power2::lemma2_to64();
    vstd::arithmetic::power2::lemma2_to64_rest();
    assert(v <= 0x10_0000_0000_0000 * u) by (nonlinear_arith)
        requires
            v == d * u,
            d <= 0x10_0000_0000_0000,
            u > 0,
    ;
    assert(2 * magnitude_of(r - x) <= u);
    assert(r <= v);
    assert(r > v - u);
    assert((-r) == (-(d as int)) * u + (v - r)) by (nonlinear_arith)
        requires
            v == d * u,
    ;
    lemma_fundamental_div_mod_converse(-r, u, -(d as int), v - r);
}

/// A millionth lies between zero and a quarter.
proof fn lemma_millionth()
    ensures
        one() > 0,
        0 < fraction(1, 1_000_000),
        4 * fraction(1, 1_000_000) < one(),
{
    vstd::arithmetic::power2::lemma2_to64();
    vstd::arithmetic::power2::lemma2_to64_rest();
    vstd::arithmetic::power2::lemma_pow2_strictly_increases(64, 1074);
    assert(1 * one() == one());
    lemma_rounded_positive(one(), 1_000_000, 53);
    small_fractions(1_000_000);
}

/// The bounding box covers the rotated volume, but for a millionth of a pixel, and not a whole pixel
/// more than it needs to, as long as the volume reaches no further than numbers do (`most` pixels).
pub proof fn the_box_covers_the_volume(row: Seq<int>, dims: Seq<nat>, most: nat)
    requires
        0 <= reach(row, dims) <= most * one(),
        most <= usize::MAX,
        most < 0x20_0000_0000_0000,
    ensures
        ({
            let length = difference(reach(row, dims), fraction(1, 1_000_000) as int);
            let n = fit_side(row, dims);
            &&& n >= 1
            &&& length <= n * one()
            &&& n > 1 ==> (n - 1) * one() < length
        }),
{
    let u = one() as int;
    let e = reach(row, dims);
    let length = difference(e, fraction(1, 1_000_000) as int);
    lemma_pow2_pos(1074);
    let q = (-length) / u;
    lemma_fundamental_div_mod(-length, u);
    assert(u * q == q * u) by (nonlinear_arith);
    let n = -q;
    assert(n * u == -(q * u)) by (nonlinear_arith)
        requires
            n == -q,
    ;
    assert((n - 1) * u == n * u - u) by (nonlinear_arith);
    lemma_shorter(e, fraction(1, 1_000_000), most);
    if n > most {
        let top = most as int;
        assert((n - 1) * u >= top * u) by (nonlinear_arith)
            requires
                n - 1 >= top,
                u > 0,
        ;
    }
    if n < 1 {
        assert(n * u <= 0) by (nonlinear_arith)
            requires
                n <= 0,
                u > 0,
        ;
        assert(1 * u == u);
    }
}

/// A length up to a whole number stays there when it is shortened.
proof fn lemma_shorter(e: int, c: nat, top: nat)
    requires
        0 <= e <= top * one(),
        top < 0x20_0000_0000_0000,
    ensures
        difference(e, c as int) <= top * one(),
{
    if e - c >= 0 {
        rounding_is_monotonic((e - c) as nat, top * one(), 1, 53);
        whole_numbers_are_exact(top);
    }
}

/// Sides that are made even are, and grow by one pixel at most.
pub proof fn even_sides_are_even(
    g: Seq<Seq<int>>,
    dims: Seq<nat>,
    size: OutputSize,
    i: int,
)
    requires
        0 <= i < 2,
    ensures
        output_sides(g, dims, size, true)[i] % 2 == 0,
        output_sides(g, dims, size, false)[i] <= output_sides(g, dims, size, true)[i],
        output_sides(g, dims, size, true)[i] <= output_sides(g, dims, size, false)[i] + 1,
        output_sides(g, dims, size, true)[2] == output_sides(g, dims, size, false)[2],
{
}

} // verus!
