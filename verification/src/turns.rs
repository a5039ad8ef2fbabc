//! Turns by right angles: rounded sines and cosines still make exact turns.

use vstd::prelude::*;
use vstd::arithmetic::power2::{lemma2_to64, lemma2_to64_rest, pow2};
use crate::accuracy::{inner, lemma_abs_product, lemma_one_is_large, lemma_sum_error};
use crate::binary64::{magnitude_of, one, small_fractions};
use crate::geometry::{
    axis_index, column, composed, identity, keeps_time, matrix_product, snapped, takes_over, turned,
    turns_time_back, Angle, Axis,
};
use crate::rotation::{
    entries_upto, exact_product, lemma_inner_close, lemma_third, lemma_tiny, lemma_turned_bounded,
    tiny,
};

verus! {

/// The whole number nearest to a number up to 1.
pub open spec fn whole_near(v: int) -> int {
    if 2 * v > one() {
        1
    } else if 2 * v < -one() {
        -1
    } else {
        0
    }
}

/// A number that is whole, but for 1e-14.
pub open spec fn nearly_whole(v: int) -> bool {
    100_000_000_000_000 * magnitude_of(v - whole_near(v) * one()) <= one()
}

impl Angle {
    /// A multiple of 90°, as far as the sine and the cosine show it: one is 0 and the other ±1, but
    /// for 1e-14.
    pub open spec fn is_right(self) -> bool {
        let (s, c) = (self.sin.value(), self.cos.value());
        &&& self.bounded()
        &&& nearly_whole(s)
        &&& nearly_whole(c)
        &&& (whole_near(s) == 0) != (whole_near(c) == 0)
    }

    /// A multiple of 180°, as far as the sine and the cosine show it.
    pub open spec fn is_straight(self) -> bool {
        self.is_right() && whole_near(self.sin.value()) == 0
    }
}

/// The entries as the nearest whole numbers.
pub open spec fn wholes(g: Seq<Seq<int>>) -> Seq<Seq<int>> {
    Seq::new(3, |i: int| Seq::new(3, |j: int| whole_near(g[i][j])))
}

/// A matrix of whole numbers, in units.
pub open spec fn in_units(g: Seq<Seq<int>>, u: int) -> Seq<Seq<int>> {
    Seq::new(3, |i: int| Seq::new(3, |j: int| g[i][j] * u))
}

/// The turns by right angles, applied in order, first to last.
pub open spec fn whole_turns(angles: [Angle; 3], order: [Axis; 3]) -> Seq<Seq<int>> {
    exact_product(
        wholes(turned(angles, order[2])),
        exact_product(wholes(turned(angles, order[1])), wholes(turned(angles, order[0]))),
    )
}

/// No entry is further from the other than one part of `n` in 1e14.
spec fn near(x: Seq<Seq<int>>, y: Seq<Seq<int>>, n: int) -> bool {
    forall|i: int, j: int|
        0 <= i < 3 && 0 <= j < 3 ==> 100_000_000_000_000 * magnitude_of(
            #[trigger] x[i][j] - y[i][j],
        ) <= n
}

/// One term of the difference of two scalar products with different left sides.
proof fn lemma_moved_term(c: int, d: int, y: int, b: int)
    requires
        100_000_000_000_000 * magnitude_of(c - d) <= one(),
        magnitude_of(y) <= b,
    ensures
        100_000_000_000_000 * magnitude_of(c * y - d * y) <= one() * b,
{
    let u = one() as int;
    let e = c - d;
    assert(c * y - d * y == e * y) by (nonlinear_arith)
        requires
            e == c - d,
    ;
    let m = magnitude_of(e);
    lemma_abs_product(e, y, m, b);
    assert(100_000_000_000_000 * (m * b) <= u * b) by (nonlinear_arith)
        requires
            100_000_000_000_000 * m <= u,
            b >= 0,
    ;
}

/// Products of matrices that are near each other are near each other.
proof fn lemma_near_products(
    c: Seq<Seq<int>>,
    x: Seq<Seq<int>>,
    d: Seq<Seq<int>>,
    y: Seq<Seq<int>>,
    e: int,
    b: int,
)
    requires
        entries_upto(c, one() as int),
        near(c, d, one() as int),
        near(x, y, e),
        entries_upto(y, b),
    ensures
        near(exact_product(c, x), exact_product(d, y), 3 * (one() * e) + 3 * (one() * b)),
{
    assert forall|i: int, j: int| 0 <= i < 3 && 0 <= j < 3 implies 100_000_000_000_000
        * magnitude_of(#[trigger] exact_product(c, x)[i][j] - exact_product(d, y)[i][j]) <= 3 * (
    one() * e) + 3 * (one() * b) by {
        let (p, q) = (column(x, j), column(y, j));
        assert forall|k: int| 0 <= k < 3 implies magnitude_of(#[trigger] c[i][k]) <= one() by {}
        assert forall|k: int| 0 <= k < 3 implies 100_000_000_000_000 * magnitude_of(
            #[trigger] p[k] - q[k],
        ) <= e by {
            assert(p[k] == x[k][j] && q[k] == y[k][j]);
        }
        lemma_inner_close(c[i], p, q, 100_000_000_000_000, e);
        assert(magnitude_of(y[0][j]) <= b && magnitude_of(y[1][j]) <= b && magnitude_of(y[2][j])
            <= b);
        assert(100_000_000_000_000 * magnitude_of(c[i][0] - d[i][0]) <= one());
        assert(100_000_000_000_000 * magnitude_of(c[i][1] - d[i][1]) <= one());
        assert(100_000_000_000_000 * magnitude_of(c[i][2] - d[i][2]) <= one());
        lemma_moved_term(c[i][0], d[i][0], q[0], b);
        lemma_moved_term(c[i][1], d[i][1], q[1], b);
        lemma_moved_term(c[i][2], d[i][2], q[2], b);
        assert(exact_product(c, x)[i][j] == inner(c[i], p));
        assert(exact_product(d, y)[i][j] == inner(d[i], q));
    }
}

/// A product of matrices with entries up to 1.
proof fn lemma_product_upto(b: Seq<Seq<int>>, a: Seq<Seq<int>>)
    requires
        entries_upto(b, one() as int),
        entries_upto(a, one() as int),
    ensures
        entries_upto(exact_product(b, a), 3 * (one() * one()) as int),
{
    let u = one() as int;
    let p = exact_product(b, a);
    assert forall|i: int, j: int| 0 <= i < 3 && 0 <= j < 3 implies magnitude_of(
        #[trigger] p[i][j],
    ) <= 3 * (u * u) by {
        assert(magnitude_of(b[i][0]) <= u && magnitude_of(b[i][1]) <= u && magnitude_of(b[i][2])
            <= u);
        assert(magnitude_of(a[0][j]) <= u && magnitude_of(a[1][j]) <= u && magnitude_of(a[2][j])
            <= u);
        lemma_abs_product(b[i][0], a[0][j], u, u);
        lemma_abs_product(b[i][1], a[1][j], u, u);
        lemma_abs_product(b[i][2], a[2][j], u, u);
        assert(p[i][j] == inner(b[i], column(a, j)));
    }
}

/// A number within 5e-13 of 0 or ±1 is snapped to it.
proof fn lemma_snaps_to(v: int, k: int)
    requires
        -1 <= k <= 1,
        2_000_000_000_000 * magnitude_of(v - k * one()) <= one(),
    ensures
        snapped(v) == k * one(),
{
    let u = one() as int;
    let t = tiny();
    lemma_tiny();
    lemma_one_is_large();
    lemma2_to64();
    lemma2_to64_rest();
    let p = pow2(1034);
    assert(p * 0x100_0000_0000 == u);
    assert(k * u == (if k == 0 { 0int } else if k == 1 { u } else { -u })) by (nonlinear_arith)
        requires
            k == -1 || k == 0 || k == 1,
    ;
    assert(magnitude_of(v - k * u) < t);
    if k != 0 {
        let a = magnitude_of(v);
        lemma_sum_error(a, u);
        assert(magnitude_of(a - u) == magnitude_of(v - k * u));
    }
}

/// Entries of a rotation that is near a matrix whose entry is 0 or ±1 are snapped to it.
proof fn lemma_snapped_entry(
    a: Seq<Seq<int>>,
    b: Seq<Seq<int>>,
    c: Seq<Seq<int>>,
    x: Seq<Seq<int>>,
    y: Seq<Seq<int>>,
    z: Seq<Seq<int>>,
    i: int,
    j: int,
    k: int,
)
    requires
        0 <= i < 3,
        0 <= j < 3,
        -1 <= k <= 1,
        entries_upto(a, one() as int),
        entries_upto(b, one() as int),
        entries_upto(c, one() as int),
        entries_upto(x, one() as int),
        entries_upto(y, one() as int),
        near(a, x, one() as int),
        near(b, y, one() as int),
        near(c, z, one() as int),
        exact_product(z, exact_product(y, x))[i][j] == k * (one() * (one() * one())),
    ensures
        snapped(matrix_product(c, matrix_product(b, matrix_product(a, identity())))[i][j]) == k
            * one(),
{
    let u = one() as int;
    let w = u * u;
    let t = u * w;
    lemma_one_is_large();
    lemma_third(a, b, c, i, j);
    lemma_near_products(b, a, y, x, u, u);
    lemma_product_upto(y, x);
    assert(3 * (u * u) + 3 * (u * u) == 6 * w);
    lemma_near_products(c, exact_product(b, a), z, exact_product(y, x), 6 * w, 3 * w);
    assert(3 * (u * (6 * w)) + 3 * (u * (3 * w)) == 27 * t) by (nonlinear_arith)
        requires
            t == u * w,
    ;
    let v = matrix_product(c, matrix_product(b, matrix_product(a, identity())))[i][j];
    let e = exact_product(c, exact_product(b, a))[i][j];
    let o = exact_product(z, exact_product(y, x))[i][j];
    assert(100_000_000_000_000 * magnitude_of(e - o) <= 27 * t);
    assert(0x4000_0000_0000 * magnitude_of(v * w - e) <= 13 * t);
    assert(2_000_000_000_000 * magnitude_of(v * w - o) <= t);
    let d = v - k * u;
    assert(d * w == v * w - o) by (nonlinear_arith)
        requires
            d == v - k * u,
            o == k * (u * w),
    ;
    assert(w > 0) by (nonlinear_arith)
        requires
            w == u * u,
            u > 0,
    ;
    let m = magnitude_of(d);
    lemma_abs_product(d, w, m, w);
    assert(2_000_000_000_000 * m <= u) by (nonlinear_arith)
        requires
            2_000_000_000_000 * (m * w) <= u * w,
            w > 0,
    ;
    lemma_snaps_to(v, k);
}

/// One entry is ±1, the others are 0.
spec fn lone(r: Seq<int>) -> bool {
    ||| magnitude_of(r[0]) == 1 && r[1] == 0 && r[2] == 0
    ||| r[0] == 0 && magnitude_of(r[1]) == 1 && r[2] == 0
    ||| r[0] == 0 && r[1] == 0 && magnitude_of(r[2]) == 1
}

/// In every row one entry is ±1 and the others are 0.
spec fn lone_rows(g: Seq<Seq<int>>) -> bool {
    lone(g[0]) && lone(g[1]) && lone(g[2])
}

/// A row with one entry picks a row of the other matrix.
proof fn lemma_lone_row(r: Seq<int>, b: Seq<Seq<int>>)
    requires
        lone(r),
        lone_rows(b),
    ensures
        lone(seq![inner(r, column(b, 0)), inner(r, column(b, 1)), inner(r, column(b, 2))]),
{
    let k: int = if r[0] != 0 {
        0
    } else if r[1] != 0 {
        1
    } else {
        2
    };
    let s = r[k];
    assert forall|j: int| 0 <= j < 3 implies #[trigger] inner(r, column(b, j)) == s * b[k][j] by {
        let c = column(b, j);
        assert(0 * c[0] == 0 && 0 * c[1] == 0 && 0 * c[2] == 0);
    }
    let row = b[k];
    assert(lone(row));
    let (x, y, z) = (inner(r, column(b, 0)), inner(r, column(b, 1)), inner(r, column(b, 2)));
    assert(x == s * row[0] && y == s * row[1] && z == s * row[2]);
    lemma_few_units(s, row[0]);
    lemma_few_units(s, row[1]);
    lemma_few_units(s, row[2]);
}

/// Products of such matrices are such matrices.
proof fn lemma_lone_rows(a: Seq<Seq<int>>, b: Seq<Seq<int>>)
    requires
        lone_rows(a),
        lone_rows(b),
    ensures
        lone_rows(exact_product(a, b)),
{
    lemma_lone_row(a[0], b);
    lemma_lone_row(a[1], b);
    lemma_lone_row(a[2], b);
    let p = exact_product(a, b);
    assert(p[0][0] == inner(a[0], column(b, 0)) && p[0][1] == inner(a[0], column(b, 1)) && p[0][2]
        == inner(a[0], column(b, 2)));
    assert(p[1][0] == inner(a[1], column(b, 0)) && p[1][1] == inner(a[1], column(b, 1)) && p[1][2]
        == inner(a[1], column(b, 2)));
    assert(p[2][0] == inner(a[2], column(b, 0)) && p[2][1] == inner(a[2], column(b, 1)) && p[2][2]
        == inner(a[2], column(b, 2)));
}

/// Units can be taken out of a product.
proof fn lemma_units_apart(b: Seq<Seq<int>>, a: Seq<Seq<int>>, u: int, w: int)
    ensures
        exact_product(in_units(b, u), in_units(a, w)) == in_units(exact_product(b, a), u * w),
{
    let x = exact_product(in_units(b, u), in_units(a, w));
    let y = in_units(exact_product(b, a), u * w);
    assert forall|i: int, j: int| 0 <= i < 3 && 0 <= j < 3 implies #[trigger] x[i][j] == y[i][j] by {
        let (r, c) = (b[i], column(a, j));
        lemma_unit_term(r[0], c[0], u, w);
        lemma_unit_term(r[1], c[1], u, w);
        lemma_unit_term(r[2], c[2], u, w);
        let (p, q, o) = (r[0] * c[0], r[1] * c[1], r[2] * c[2]);
        assert((p + q + o) * (u * w) == p * (u * w) + q * (u * w) + o * (u * w)) by (nonlinear_arith);
    }
    assert(x =~~= y);
}

proof fn lemma_unit_term(a: int, b: int, u: int, w: int)
    ensures
        (a * u) * (b * w) == (a * b) * (u * w),
{
    assert((a * u) * (b * w) == (a * b) * (u * w)) by (nonlinear_arith);
}

/// What a turn by a right angle is near to.
proof fn lemma_whole_turn(angles: [Angle; 3], a: Axis)
    requires
        angles[axis_index(a)].is_right(),
    ensures
        lone_rows(wholes(turned(angles, a))),
        near(turned(angles, a), in_units(wholes(turned(angles, a)), one() as int), one() as int),
        entries_upto(in_units(wholes(turned(angles, a)), one() as int), one() as int),
        entries_upto(turned(angles, a), one() as int),
{
    let u = one() as int;
    lemma_one_is_large();
    let g = turned(angles, a);
    let h = wholes(g);
    let x = in_units(h, u);
    assert forall|i: int, j: int| 0 <= i < 3 && 0 <= j < 3 implies 100_000_000_000_000
        * magnitude_of(#[trigger] g[i][j] - x[i][j]) <= u && magnitude_of(x[i][j]) <= u
        && magnitude_of(g[i][j]) <= u by {
        assert(x[i][j] == whole_near(g[i][j]) * u);
        assert(i == 0 || i == 1 || i == 2);
        assert(j == 0 || j == 1 || j == 2);
        lemma_few_units(whole_near(g[i][j]), u);
        let t = angles[axis_index(a)];
        lemma_few_units(whole_near(t.sin.value()), u);
        lemma_few_units(whole_near(t.cos.value()), u);
    }
    assert forall|i: int, j: int| 0 <= i < 3 && 0 <= j < 3 implies magnitude_of(
        #[trigger] x[i][j],
    ) <= u by {
        assert(100_000_000_000_000 * magnitude_of(g[i][j] - x[i][j]) <= u);
    }
    assert forall|i: int, j: int| 0 <= i < 3 && 0 <= j < 3 implies magnitude_of(
        #[trigger] g[i][j],
    ) <= u by {
        assert(100_000_000_000_000 * magnitude_of(g[i][j] - x[i][j]) <= u);
    }
    assert(h[0][0] == whole_near(g[0][0]) && h[0][1] == whole_near(g[0][1]) && h[0][2]
        == whole_near(g[0][2]));
    assert(h[1][0] == whole_near(g[1][0]) && h[1][1] == whole_near(g[1][1]) && h[1][2]
        == whole_near(g[1][2]));
    assert(h[2][0] == whole_near(g[2][0]) && h[2][1] == whole_near(g[2][1]) && h[2][2]
        == whole_near(g[2][2]));
}

proof fn lemma_few_units(k: int, u: int)
    requires
        -1 <= k <= 1,
    ensures
        k * u == (if k == 0 {
            0
        } else if k == 1 {
            u
        } else {
            -u
        }),
{
    assert(0 * u == 0 && 1 * u == u && (-1) * u == -u) by (nonlinear_arith);
}

/// Three turns that are near turns by right angles make one.
proof fn lemma_three_turns(
    a: Seq<Seq<int>>,
    b: Seq<Seq<int>>,
    c: Seq<Seq<int>>,
    x: Seq<Seq<int>>,
    y: Seq<Seq<int>>,
    z: Seq<Seq<int>>,
    i: int,
    j: int,
)
    requires
        0 <= i < 3,
        0 <= j < 3,
        entries_upto(a, one() as int),
        entries_upto(b, one() as int),
        entries_upto(c, one() as int),
        entries_upto(in_units(x, one() as int), one() as int),
        entries_upto(in_units(y, one() as int), one() as int),
        near(a, in_units(x, one() as int), one() as int),
        near(b, in_units(y, one() as int), one() as int),
        near(c, in_units(z, one() as int), one() as int),
        lone_rows(exact_product(z, exact_product(y, x))),
    ensures
        snapped(matrix_product(c, matrix_product(b, matrix_product(a, identity())))[i][j])
            == exact_product(z, exact_product(y, x))[i][j] * one(),
{
    let u = one() as int;
    let w = exact_product(z, exact_product(y, x));
    lemma_units_apart(y, x, u, u);
    lemma_units_apart(z, exact_product(y, x), u, u * u);
    assert(lone(w[i]));
    let k = w[i][j];
    assert(j == 0 || j == 1 || j == 2);
    assert(in_units(w, u * (u * u))[i][j] == k * (u * (u * u)));
    lemma_snapped_entry(a, b, c, in_units(x, u), in_units(y, u), in_units(z, u), i, j, k);
}

/// The output axis of a row takes over one input axis.
pub open spec fn takes_an_axis(row: Seq<int>) -> bool {
    exists|j: int| takes_over(row, j)
}

/// A row with one entry takes over an axis.
proof fn lemma_takes_over(r: Seq<int>, w: Seq<int>)
    requires
        lone(w),
        r[0] == w[0] * one(),
        r[1] == w[1] * one(),
        r[2] == w[2] * one(),
    ensures
        takes_an_axis(r),
{
    let u = one() as int;
    lemma_one_is_large();
    lemma_few_units(w[0], u);
    lemma_few_units(w[1], u);
    lemma_few_units(w[2], u);
    let j: int = if w[0] != 0 {
        0
    } else if w[1] != 0 {
        1
    } else {
        2
    };
    assert(takes_over(r, j));
}

/// A matrix that is near a turn by a right angle.
#[verifier::opaque]
spec fn nearly_right(g: Seq<Seq<int>>) -> bool {
    &&& lone_rows(wholes(g))
    &&& near(g, in_units(wholes(g), one() as int), one() as int)
    &&& entries_upto(in_units(wholes(g), one() as int), one() as int)
    &&& entries_upto(g, one() as int)
}

proof fn lemma_nearly_right(angles: [Angle; 3], a: Axis)
    requires
        angles[axis_index(a)].is_right(),
    ensures
        nearly_right(turned(angles, a)),
{
    reveal(nearly_right);
    lemma_whole_turn(angles, a);
}

/// The product of the whole turns has one entry in each row.
proof fn lemma_whole_rows(a: Seq<Seq<int>>, b: Seq<Seq<int>>, c: Seq<Seq<int>>, i: int)
    requires
        0 <= i < 3,
        nearly_right(a),
        nearly_right(b),
        nearly_right(c),
    ensures
        lone_rows(exact_product(wholes(c), exact_product(wholes(b), wholes(a)))),
        lone(exact_product(wholes(c), exact_product(wholes(b), wholes(a)))[i]),
{
    reveal(nearly_right);
    let (x, y, z) = (wholes(a), wholes(b), wholes(c));
    lemma_lone_rows(y, x);
    lemma_lone_rows(z, exact_product(y, x));
}

/// An entry of the product of three turns by right angles.
proof fn lemma_right_entry(
    a: Seq<Seq<int>>,
    b: Seq<Seq<int>>,
    c: Seq<Seq<int>>,
    i: int,
    j: int,
)
    requires
        0 <= i < 3,
        0 <= j < 3,
        nearly_right(a),
        nearly_right(b),
        nearly_right(c),
    ensures
        snapped(matrix_product(c, matrix_product(b, matrix_product(a, identity())))[i][j])
            == exact_product(wholes(c), exact_product(wholes(b), wholes(a)))[i][j] * one(),
{
    lemma_whole_rows(a, b, c, i);
    reveal(nearly_right);
    lemma_three_turns(a, b, c, wholes(a), wholes(b), wholes(c), i, j);
}

/// Turns by multiples of 90° stay exact: the rotation is the product of the whole turns, so every
/// output axis takes over one input axis, forwards or backwards.
pub proof fn right_angles_turn_exactly(angles: [Angle; 3], order: [Axis; 3], g: Seq<Seq<int>>)
    requires
        forall|k: int| 0 <= k < 3 ==> (#[trigger] angles[k]).is_right(),
        forall|i: int, j: int|
            0 <= i < 3 && 0 <= j < 3 ==> (#[trigger] g[i][j]) == snapped(
                composed(angles, order)[i][j],
            ),
    ensures
        forall|i: int, j: int|
            0 <= i < 3 && 0 <= j < 3 ==> (#[trigger] g[i][j]) == whole_turns(angles, order)[i][j]
                * one(),
        forall|i: int| 0 <= i < 3 ==> takes_an_axis(#[trigger] g[i]),
{
    let w = whole_turns(angles, order);
    assert forall|i: int, j: int| 0 <= i < 3 && 0 <= j < 3 implies (#[trigger] g[i][j]) == w[i][j]
        * one() by {
        lemma_whole_entry(angles, order, i, j);
    }
    assert forall|i: int| 0 <= i < 3 implies takes_an_axis(#[trigger] g[i]) by {
        let r = g[i];
        assert(r[0] == w[i][0] * one() && r[1] == w[i][1] * one() && r[2] == w[i][2] * one());
        lemma_whole_entry(angles, order, i, 0);
        lemma_takes_over(r, w[i]);
    }
}

proof fn lemma_whole_entry(angles: [Angle; 3], order: [Axis; 3], i: int, j: int)
    requires
        forall|k: int| 0 <= k < 3 ==> (#[trigger] angles[k]).is_right(),
        0 <= i < 3,
        0 <= j < 3,
    ensures
        snapped(composed(angles, order)[i][j]) == whole_turns(angles, order)[i][j] * one(),
        lone(whole_turns(angles, order)[i]),
{
    let (a, b, c) = (turned(angles, order[0]), turned(angles, order[1]), turned(angles, order[2]));
    lemma_nearly_right(angles, order[0]);
    lemma_nearly_right(angles, order[1]);
    lemma_nearly_right(angles, order[2]);
    lemma_right_entry(a, b, c, i, j);
    lemma_whole_rows(a, b, c, i);
}

/// Which way time runs after a turn around an axis.
pub open spec fn time_sign(angles: [Angle; 3], a: Axis) -> int {
    match a {
        Axis::X => whole_near(angles[0].cos.value()),
        Axis::Y => whole_near(angles[1].cos.value()),
        Axis::Z => 1,
    }
}

/// Time maps onto itself, forwards or backwards.
spec fn apart(g: Seq<Seq<int>>, t: int) -> bool {
    g[2][2] == t && g[2][0] == 0 && g[2][1] == 0 && g[0][2] == 0 && g[1][2] == 0
}

/// What a turn is near to that keeps the time axis.
spec fn ideal(angles: [Angle; 3], a: Axis) -> Seq<Seq<int>> {
    if a is Z {
        turned(angles, a)
    } else {
        in_units(wholes(turned(angles, a)), one() as int)
    }
}

proof fn lemma_ideal(angles: [Angle; 3], a: Axis)
    requires
        angles[0].is_straight(),
        angles[1].is_straight(),
        angles[2].bounded(),
    ensures
        apart(ideal(angles, a), time_sign(angles, a) * one()),
        near(turned(angles, a), ideal(angles, a), one() as int),
        entries_upto(ideal(angles, a), one() as int),
        entries_upto(turned(angles, a), one() as int),
        time_sign(angles, a) == 1 || time_sign(angles, a) == -1,
{
    let u = one() as int;
    lemma_one_is_large();
    assert forall|k: int| 0 <= k < 3 implies (#[trigger] angles[k]).bounded() by {
        assert(k == 0 || k == 1 || k == 2);
    }
    lemma_turned_bounded(angles, a);
    let g = turned(angles, a);
    if a is Z {
        assert forall|i: int, j: int| 0 <= i < 3 && 0 <= j < 3 implies 100_000_000_000_000
            * magnitude_of(#[trigger] g[i][j] - g[i][j]) <= u by {}
    } else {
        lemma_whole_turn(angles, a);
        let x = ideal(angles, a);
        assert(x[2][2] == whole_near(g[2][2]) * u);
        assert(x[2][0] == whole_near(g[2][0]) * u && x[2][1] == whole_near(g[2][1]) * u);
        assert(x[0][2] == whole_near(g[0][2]) * u && x[1][2] == whole_near(g[1][2]) * u);
        assert(0 * u == 0);
    }
}

/// Products of matrices that keep the time axis keep it.
proof fn lemma_apart(b: Seq<Seq<int>>, a: Seq<Seq<int>>, s: int, t: int)
    requires
        apart(b, s),
        apart(a, t),
    ensures
        apart(exact_product(b, a), s * t),
{
    let p = exact_product(b, a);
    assert(p[2][2] == inner(b[2], column(a, 2)) && p[2][0] == inner(b[2], column(a, 0)) && p[2][1]
        == inner(b[2], column(a, 1)));
    assert(p[0][2] == inner(b[0], column(a, 2)) && p[1][2] == inner(b[1], column(a, 2)));
    assert(forall|q: int| #[trigger] (q * 0) == 0);
    assert(forall|q: int| #[trigger] (0 * q) == 0);
}

/// Turns around X and Y by multiples of 180°, with any turn around Z, keep the time axis: every
/// output frame comes from one input frame, and time runs backwards exactly when an odd number of
/// the turns turn it around.
pub proof fn straight_angles_keep_time(angles: [Angle; 3], order: [Axis; 3], g: Seq<Seq<int>>)
    requires
        angles[0].is_straight(),
        angles[1].is_straight(),
        angles[2].bounded(),
        forall|i: int, j: int|
            0 <= i < 3 && 0 <= j < 3 ==> (#[trigger] g[i][j]) == snapped(
                composed(angles, order)[i][j],
            ),
    ensures
        keeps_time(g),
        g[2][0] == 0 && g[2][1] == 0 && g[0][2] == 0 && g[1][2] == 0,
        turns_time_back(g) <==> time_sign(angles, order[0]) * time_sign(angles, order[1])
            * time_sign(angles, order[2]) == -1,
{
    let u = one() as int;
    lemma_one_is_large();
    lemma_ideal(angles, order[0]);
    lemma_ideal(angles, order[1]);
    lemma_ideal(angles, order[2]);
    let (a, b, c) = (turned(angles, order[0]), turned(angles, order[1]), turned(angles, order[2]));
    let (x, y, z) = (ideal(angles, order[0]), ideal(angles, order[1]), ideal(angles, order[2]));
    let (p, q, r) = (
        time_sign(angles, order[0]),
        time_sign(angles, order[1]),
        time_sign(angles, order[2]),
    );
    lemma_apart(y, x, q * u, p * u);
    lemma_apart(z, exact_product(y, x), r * u, (q * u) * (p * u));
    let k = p * q * r;
    assert(k == 1 || k == -1) by (nonlinear_arith)
        requires
            k == p * q * r,
            p == 1 || p == -1,
            q == 1 || q == -1,
            r == 1 || r == -1,
    ;
    assert((r * u) * ((q * u) * (p * u)) == k * (u * (u * u))) by (nonlinear_arith)
        requires
            k == p * q * r,
    ;
    assert(0 * (u * (u * u)) == 0);
    lemma_snapped_entry(a, b, c, x, y, z, 2, 2, k);
    lemma_snapped_entry(a, b, c, x, y, z, 2, 0, 0);
    lemma_snapped_entry(a, b, c, x, y, z, 2, 1, 0);
    lemma_snapped_entry(a, b, c, x, y, z, 0, 2, 0);
    lemma_snapped_entry(a, b, c, x, y, z, 1, 2, 0);
    assert(g[2][2] == snapped(composed(angles, order)[2][2]));
    assert(g[2][0] == snapped(composed(angles, order)[2][0]));
    assert(g[2][1] == snapped(composed(angles, order)[2][1]));
    assert(g[0][2] == snapped(composed(angles, order)[0][2]));
    assert(g[1][2] == snapped(composed(angles, order)[1][2]));
    assert(g[2][2] == k * u);
    lemma_few_units(k, u);
    small_fractions(1_000_000_000);
}

} // verus!
