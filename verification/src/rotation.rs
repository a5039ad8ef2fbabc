//! What a rotation matrix is close to: the product of its three turns, which keeps lengths and
//! angles.

use vstd::prelude::*;
use vstd::arithmetic::mul::lemma_mul_is_associative;
use vstd::arithmetic::power2::{
    lemma2_to64, lemma2_to64_rest, lemma_pow2_adds, lemma_pow2_pos, lemma_pow2_strictly_increases,
    pow2,
};
use crate::binary64::{
    difference, fraction, lemma_rounding_error, magnitude_of, one, product, round_signed, sum,
};
use crate::accuracy::{
    inner, lemma_abs_product, lemma_dot_error, lemma_one_is_large, lemma_sum_error,
};
use crate::geometry::{
    axis_index, column, composed, identity, matrix_product, snapped, turned, Angle, Axis,
};
use crate::grain::{
    grained, grains, lemma_finer, lemma_grained_added, lemma_grained_negated, lemma_grains,
    lemma_is_grained, lemma_scaled_rounding,
};
use crate::rounding::{
    lemma_exact, lemma_rounded_bits, lemma_rounded_scale, rounding_is_antitonic,
    rounding_is_idempotent,
};
use crate::subsampling::{plain, plain_matrix};

verus! {

/// The number nearest to 1e-12.
pub open spec fn tiny() -> int {
    fraction(1, 1_000_000_000_000) as int
}

/// A number of the format: rounding keeps it.
pub open spec fn in_format(v: int) -> bool {
    round_signed(v, 1) == v
}

/// What is rounded is a number of the format.
pub proof fn lemma_in_format(n: int, d: nat)
    requires
        d > 0,
    ensures
        in_format(round_signed(n, d)),
{
    rounding_is_idempotent(magnitude_of(n) as nat, d, 53);
}

/// A number of the format is a multiple of `2^k` when it is at least `2^(k + 52)`.
pub proof fn lemma_large_numbers_are_coarse(v: int, k: nat)
    requires
        in_format(v),
        magnitude_of(v) >= pow2(k + 52),
    ensures
        grained(v, k),
{
    let a = magnitude_of(v) as nat;
    lemma_rounded_bits(a, 1, 53);
    let (m, x) = choose|m: nat, x: nat| m < pow2(53) && a == #[trigger] (m * pow2(x));
    lemma2_to64_rest();
    if x < k {
        lemma_pow2_adds(53, x);
        if x + 53 < k + 52 {
            lemma_pow2_strictly_increases(x + 53, k + 52);
        }
        let p = pow2(x);
        lemma_pow2_pos(x);
        assert(m * p < pow2(53) * p) by (nonlinear_arith)
            requires
                m < pow2(53),
                p > 0,
        ;
        assert(false);
    }
    lemma_is_grained(m as int, x);
    lemma_finer(a as int, x, k);
    if v < 0 {
        lemma_grained_negated(a as int, k);
    }
}

/// How large the snapping distance is.
pub proof fn lemma_tiny()
    ensures
        pow2(1034) <= tiny() <= pow2(1035),
        999_999_999_999 * tiny() <= one(),
        pow2(1035) * pow2(39) == one(),
        pow2(1034) * pow2(40) == one(),
{
    lemma_pow2_adds(1034, 40);
    lemma_pow2_adds(1035, 39);
    lemma2_to64();
    lemma2_to64_rest();
    let u = one();
    let d = 1_000_000_000_000nat;
    assert(1 * u == u);
    rounding_is_antitonic(u, d, pow2(40), 53);
    rounding_is_antitonic(u, pow2(39), d, 53);
    lemma_pow2_pos(1034);
    lemma_pow2_pos(1035);
    lemma_rounded_scale(pow2(1034), 1, pow2(40), 53);
    lemma_rounded_scale(pow2(1035), 1, pow2(39), 53);
    assert(1 * pow2(40) == pow2(40));
    assert(1 * pow2(39) == pow2(39));
    lemma_exact(1, 1034, 53);
    lemma_exact(1, 1035, 53);
    assert(1 * pow2(1034) == pow2(1034));
    assert(1 * pow2(1035) == pow2(1035));
    lemma_pow2_strictly_increases(93, 1074);
    lemma_pow2_adds(53, 40);
    lemma_pow2_adds(40, 53);
    lemma_rounding_error(u, d);
    let t = tiny();
    assert(pow2(53) * (t * d - u) <= u);
}

/// A snapped number stands clear of 0 and ±1.
proof fn lemma_stands_clear(v: int)
    requires
        in_format(v),
    ensures
        snapped(v) != 0 ==> magnitude_of(snapped(v)) >= tiny(),
        magnitude_of(snapped(v)) != one() ==> magnitude_of(magnitude_of(snapped(v)) - one())
            >= tiny(),
        in_format(snapped(v)),
{
    let s = snapped(v);
    let u = one() as int;
    lemma_tiny();
    lemma_pow2_pos(1034);
    lemma_pow2_strictly_increases(1035, 1073);
    lemma_pow2_adds(1073, 1);
    lemma2_to64();
    lemma_scaled_rounding(1, 1074);
    lemma2_to64_rest();
    assert(round_signed(1, 1) == 1);
    assert(u * 1 == u);
    let a = magnitude_of(v);
    let d = a - u;
    if magnitude_of(d) < tiny() && a >= tiny() {
        lemma_large_numbers_are_coarse(v, 1021);
        if v < 0 {
            lemma_grained_negated(v, 1021);
        }
        lemma_pow2_adds(1021, 53);
        lemma_is_grained(pow2(53) as int, 1021);
        let p = pow2(1021) as int;
        assert(pow2(53) * p == u);
        lemma_grained_negated(u, 1021);
        lemma_grained_added(a, -u, 1021);
        lemma_grains(d, 1021);
        let g = grains(d, 1021);
        lemma_scaled_rounding(g, 1021);
        assert(g * p == p * g) by (nonlinear_arith);
        let q = pow2(53) as int;
        lemma_pow2_pos(1021);
        assert(-q < g < q) by (nonlinear_arith)
            requires
                -(q * p) < g * p < q * p,
                p > 0,
        ;
        assert(round_signed(g, 1) == g);
        assert(difference(a, u) == d);
    }
}

/// No entry of a rotation lies within 1e-12 of 0, 1 or -1 but for those numbers themselves.
pub proof fn rotations_stand_clear(angles: [Angle; 3], order: [Axis; 3], i: int, j: int)
    requires
        0 <= i < 3,
        0 <= j < 3,
    ensures
        ({
            let v = magnitude_of(snapped(composed(angles, order)[i][j]));
            &&& v == 0 || v >= tiny()
            &&& v == one() || magnitude_of(v - one()) >= tiny()
        }),
{
    lemma_composed_in_format(angles, order, i, j);
    lemma_stands_clear(composed(angles, order)[i][j]);
}

/// The entries of a rotation are multiples of 2^-200.
pub proof fn rotations_are_plain(angles: [Angle; 3], order: [Axis; 3], g: Seq<Seq<int>>)
    requires
        forall|i: int, j: int|
            0 <= i < 3 && 0 <= j < 3 ==> (#[trigger] g[i][j]) == snapped(
                composed(angles, order)[i][j],
            ),
    ensures
        plain_matrix(g),
{
    assert forall|i: int, j: int| 0 <= i < 3 && 0 <= j < 3 implies plain(#[trigger] g[i][j]) by {
        let v = composed(angles, order)[i][j];
        lemma_composed_in_format(angles, order, i, j);
        lemma_stands_clear(v);
        lemma_tiny();
        lemma_pow2_strictly_increases(874 + 52, 1034);
        if g[i][j] == 0 {
            lemma_is_grained(0, 874);
            assert(0 * pow2(874) == 0);
        } else {
            lemma_large_numbers_are_coarse(g[i][j], 874);
        }
    }
}

/// The entries of a product of matrices are numbers of the format.
pub proof fn lemma_composed_in_format(angles: [Angle; 3], order: [Axis; 3], i: int, j: int)
    requires
        0 <= i < 3,
        0 <= j < 3,
    ensures
        in_format(composed(angles, order)[i][j]),
{
    let a = turned(angles, order[2])[i];
    let b = column(
        matrix_product(
            turned(angles, order[1]),
            matrix_product(turned(angles, order[0]), identity()),
        ),
        j,
    );
    let (x, y) = (sum(product(a[0], b[0]), product(a[1], b[1])), product(a[2], b[2]));
    lemma_in_format(x + y, 1);
}

/// The product of two matrices, not rounded.
pub open spec fn exact_product(a: Seq<Seq<int>>, b: Seq<Seq<int>>) -> Seq<Seq<int>> {
    Seq::new(3, |i: int| Seq::new(3, |j: int| inner(a[i], column(b, j))))
}

/// The rotations applied in order, first to last, not rounded; counted in units of units of units.
pub open spec fn exactly_composed(angles: [Angle; 3], order: [Axis; 3]) -> Seq<Seq<int>> {
    exact_product(
        turned(angles, order[2]),
        exact_product(turned(angles, order[1]), turned(angles, order[0])),
    )
}

/// No entry is larger.
pub open spec fn entries_upto(g: Seq<Seq<int>>, b: int) -> bool {
    forall|i: int, j: int| 0 <= i < 3 && 0 <= j < 3 ==> magnitude_of(#[trigger] g[i][j]) <= b
}

impl Angle {
    /// The sine and the cosine are at most 1.
    pub open spec fn bounded(self) -> bool {
        magnitude_of(self.sin.value()) <= one() && magnitude_of(self.cos.value()) <= one()
    }

    /// The squares of the sine and the cosine add up to 1, but for 1e-12.
    pub open spec fn upright(self) -> bool {
        let (s, c) = (self.sin.value(), self.cos.value());
        1_000_000_000_000 * magnitude_of(s * s + c * c - one() * one()) <= one() * one()
    }
}

/// A turn has no entry above 1.
pub proof fn lemma_turned_bounded(angles: [Angle; 3], a: Axis)
    requires
        forall|i: int| 0 <= i < 3 ==> (#[trigger] angles[i]).bounded(),
    ensures
        entries_upto(turned(angles, a), one() as int),
{
    let t = angles[axis_index(a)];
    assert(t.bounded());
    let g = turned(angles, a);
    assert forall|i: int, j: int| 0 <= i < 3 && 0 <= j < 3 implies magnitude_of(
        #[trigger] g[i][j],
    ) <= one() by {
        assert(i == 0 || i == 1 || i == 2);
        assert(j == 0 || j == 1 || j == 2);
    }
}

/// Scalar products with vectors that are close to each other are close.
pub proof fn lemma_inner_close(c: Seq<int>, x: Seq<int>, y: Seq<int>, k: int, e: int)
    requires
        k > 0,
        forall|i: int| 0 <= i < 3 ==> magnitude_of(#[trigger] c[i]) <= one(),
        forall|i: int| 0 <= i < 3 ==> k * magnitude_of(#[trigger] x[i] - y[i]) <= e,
    ensures
        k * magnitude_of(inner(c, x) - inner(c, y)) <= 3 * (one() * e),
{
    let u = one() as int;
    assert(magnitude_of(c[0]) <= u && magnitude_of(c[1]) <= u && magnitude_of(c[2]) <= u);
    assert(k * magnitude_of(x[0] - y[0]) <= e);
    assert(k * magnitude_of(x[1] - y[1]) <= e);
    assert(k * magnitude_of(x[2] - y[2]) <= e);
    lemma_scaled_term(c[0], x[0], y[0], k, e);
    lemma_scaled_term(c[1], x[1], y[1], k, e);
    lemma_scaled_term(c[2], x[2], y[2], k, e);
    let (a, b, d) = (c[0] * x[0] - c[0] * y[0], c[1] * x[1] - c[1] * y[1], c[2] * x[2] - c[2] * y[2]);
    assert(inner(c, x) - inner(c, y) == a + b + d);
    assert(k * magnitude_of(a + b + d) <= k * magnitude_of(a) + k * magnitude_of(b) + k
        * magnitude_of(d)) by (nonlinear_arith)
        requires
            k > 0,
            magnitude_of(a + b + d) <= magnitude_of(a) + magnitude_of(b) + magnitude_of(d),
    ;
}

proof fn lemma_scaled_term(c: int, x: int, y: int, k: int, e: int)
    requires
        k > 0,
        magnitude_of(c) <= one(),
        k * magnitude_of(x - y) <= e,
    ensures
        k * magnitude_of(c * x - c * y) <= one() * e,
{
    let u = one() as int;
    let d = x - y;
    assert(c * x - c * y == c * d) by (nonlinear_arith)
        requires
            d == x - y,
    ;
    lemma_abs_product(c, d, u, magnitude_of(d));
    let (m, p) = (magnitude_of(d), magnitude_of(c * d));
    assert(k * p <= u * e) by (nonlinear_arith)
        requires
            k > 0,
            u >= 0,
            p <= u * m,
            k * m <= e,
    ;
}

/// An entry of a rounded product with a turn.
proof fn lemma_entry_error(a: Seq<Seq<int>>, b: Seq<Seq<int>>, i: int, j: int)
    requires
        0 <= i < 3,
        0 <= j < 3,
        entries_upto(a, one() as int),
        entries_upto(b, (8 * one()) as int),
    ensures
        0x4000_0000_0000 * magnitude_of(
            matrix_product(a, b)[i][j] * one() - inner(a[i], column(b, j)),
        ) <= one() * one(),
{
    let (x, y) = (a[i], column(b, j));
    assert forall|k: int| 0 <= k < 3 implies magnitude_of(#[trigger] x[k]) <= one() by {
        assert(magnitude_of(a[i][k]) <= one());
    }
    assert forall|k: int| 0 <= k < 3 implies magnitude_of(#[trigger] y[k]) <= 8 * one() by {
        assert(magnitude_of(b[k][j]) <= 8 * one());
    }
    lemma_dot_error(x, y);
}

/// The first turn is not changed by more than 2^-46.
proof fn lemma_first(a: Seq<Seq<int>>, i: int, j: int)
    requires
        0 <= i < 3,
        0 <= j < 3,
        entries_upto(a, one() as int),
    ensures
        0x4000_0000_0000 * magnitude_of(matrix_product(a, identity())[i][j] - a[i][j]) <= one(),
        magnitude_of(matrix_product(a, identity())[i][j]) <= 2 * one(),
{
    let u = one() as int;
    let id = identity();
    lemma_one_is_large();
    assert(entries_upto(id, (8 * one()) as int)) by {
        assert forall|k: int, l: int| 0 <= k < 3 && 0 <= l < 3 implies magnitude_of(
            #[trigger] id[k][l],
        ) <= 8 * one() by {
            assert(k == 0 || k == 1 || k == 2);
            assert(l == 0 || l == 1 || l == 2);
        }
    }
    lemma_entry_error(a, id, i, j);
    let c = column(id, j);
    assert(j == 0 || j == 1 || j == 2);
    assert(inner(a[i], c) == a[i][j] * u) by {
        assert(a[i][0] * 0 == 0 && a[i][1] * 0 == 0 && a[i][2] * 0 == 0);
    }
    let d = matrix_product(a, id)[i][j] - a[i][j];
    let m = magnitude_of(d);
    assert(d * u == matrix_product(a, id)[i][j] * u - a[i][j] * u) by (nonlinear_arith)
        requires
            d == matrix_product(a, id)[i][j] - a[i][j],
    ;
    lemma_abs_product(d, u, m, u);
    let k = 0x4000_0000_0000int;
    assert(k * m <= u) by (nonlinear_arith)
        requires
            k * (m * u) <= u * u,
            u > 0,
    ;
    assert(magnitude_of(a[i][j]) <= u);
}

/// The second product is off by at most 4 * 2^-46.
proof fn lemma_second(a: Seq<Seq<int>>, b: Seq<Seq<int>>, i: int, j: int)
    requires
        0 <= i < 3,
        0 <= j < 3,
        entries_upto(a, one() as int),
        entries_upto(b, one() as int),
    ensures
        ({
            let v = matrix_product(b, matrix_product(a, identity()))[i][j];
            &&& 0x4000_0000_0000 * magnitude_of(v * one() - exact_product(b, a)[i][j]) <= 4 * (one()
                * one())
            &&& magnitude_of(v) <= 4 * one()
            &&& magnitude_of(exact_product(b, a)[i][j]) <= 3 * (one() * one())
        }),
{
    let u = one() as int;
    let m = matrix_product(a, identity());
    lemma_one_is_large();
    assert(entries_upto(m, (8 * one()) as int)) by {
        assert forall|k: int, l: int| 0 <= k < 3 && 0 <= l < 3 implies magnitude_of(
            #[trigger] m[k][l],
        ) <= 8 * one() by {
            lemma_first(a, k, l);
        }
    }
    lemma_entry_error(b, m, i, j);
    let (x, y) = (column(m, j), column(a, j));
    assert forall|k: int| 0 <= k < 3 implies magnitude_of(#[trigger] b[i][k]) <= one() by {}
    assert forall|k: int| 0 <= k < 3 implies 0x4000_0000_0000 * magnitude_of(
        #[trigger] x[k] - y[k],
    ) <= u by {
        lemma_first(a, k, j);
        assert(x[k] == m[k][j] && y[k] == a[k][j]);
    }
    lemma_inner_close(b[i], x, y, 0x4000_0000_0000, u);
    let v = matrix_product(b, m)[i][j];
    let e = exact_product(b, a)[i][j];
    assert(e == inner(b[i], y));
    assert(magnitude_of(b[i][0]) <= u && magnitude_of(b[i][1]) <= u && magnitude_of(b[i][2]) <= u);
    assert(magnitude_of(a[0][j]) <= u && magnitude_of(a[1][j]) <= u && magnitude_of(a[2][j]) <= u);
    lemma_abs_product(b[i][0], a[0][j], u, u);
    lemma_abs_product(b[i][1], a[1][j], u, u);
    lemma_abs_product(b[i][2], a[2][j], u, u);
    let w = u * u;
    assert(w > 0) by (nonlinear_arith)
        requires
            w == u * u,
            u > 0,
    ;
    assert(magnitude_of(v * u) <= 4 * w);
    assert(magnitude_of(v) <= 4 * u) by (nonlinear_arith)
        requires
            -(4 * w) <= v * u <= 4 * w,
            w == u * u,
            u > 0,
            magnitude_of(v) == v || magnitude_of(v) == -v,
    ;
}

/// A scalar product scales with its second factor.
proof fn lemma_inner_scaled(a: Seq<int>, x: Seq<int>, u: int)
    ensures
        inner(a, seq![x[0] * u, x[1] * u, x[2] * u]) == inner(a, x) * u,
{
    lemma_mul_is_associative(a[0], x[0], u);
    lemma_mul_is_associative(a[1], x[1], u);
    lemma_mul_is_associative(a[2], x[2], u);
    let (p, q, r) = (a[0] * x[0], a[1] * x[1], a[2] * x[2]);
    assert((p + q + r) * u == p * u + q * u + r * u) by (nonlinear_arith);
}

/// The third product is off by at most 13 * 2^-46.
pub proof fn lemma_third(a: Seq<Seq<int>>, b: Seq<Seq<int>>, c: Seq<Seq<int>>, i: int, j: int)
    requires
        0 <= i < 3,
        0 <= j < 3,
        entries_upto(a, one() as int),
        entries_upto(b, one() as int),
        entries_upto(c, one() as int),
    ensures
        ({
            let v = matrix_product(c, matrix_product(b, matrix_product(a, identity())))[i][j];
            let e = exact_product(c, exact_product(b, a))[i][j];
            &&& 0x4000_0000_0000 * magnitude_of(v * (one() * one()) - e) <= 13 * (one() * (one()
                * one()))
            &&& magnitude_of(e) <= 9 * (one() * (one() * one()))
        }),
{
    let u = one() as int;
    let w = u * u;
    let m = matrix_product(b, matrix_product(a, identity()));
    let n = exact_product(b, a);
    lemma_one_is_large();
    assert(entries_upto(m, (8 * one()) as int)) by {
        assert forall|k: int, l: int| 0 <= k < 3 && 0 <= l < 3 implies magnitude_of(
            #[trigger] m[k][l],
        ) <= 8 * one() by {
            lemma_second(a, b, k, l);
        }
    }
    lemma_entry_error(c, m, i, j);
    let (x, y) = (column(m, j), column(n, j));
    let xu = seq![x[0] * u, x[1] * u, x[2] * u];
    assert forall|k: int| 0 <= k < 3 implies magnitude_of(#[trigger] c[i][k]) <= one() by {}
    assert forall|k: int| 0 <= k < 3 implies 0x4000_0000_0000 * magnitude_of(
        #[trigger] xu[k] - y[k],
    ) <= 4 * w by {
        lemma_second(a, b, k, j);
        assert(xu[k] == m[k][j] * u && y[k] == n[k][j]);
    }
    lemma_inner_close(c[i], xu, y, 0x4000_0000_0000, 4 * w);
    let v = matrix_product(c, m)[i][j];
    let e = exact_product(c, n)[i][j];
    assert(e == inner(c[i], y));
    let f = inner(c[i], x);
    lemma_inner_scaled(c[i], x, u);
    let d = v * u - f;
    assert(d * u == v * w - f * u) by (nonlinear_arith)
        requires
            d == v * u - f,
            w == u * u,
    ;
    let g = magnitude_of(d);
    let k = 0x4000_0000_0000int;
    lemma_abs_product(d, u, g, u);
    assert(k * (g * u) <= u * w) by (nonlinear_arith)
        requires
            k * g <= w,
            u > 0,
    ;
    assert(u * (4 * w) == 4 * (u * w)) by (nonlinear_arith);
    assert(k * magnitude_of(v * w - e) <= 13 * (u * w));
    lemma_second(a, b, 0, j);
    lemma_second(a, b, 1, j);
    lemma_second(a, b, 2, j);
    assert(magnitude_of(c[i][0]) <= u && magnitude_of(c[i][1]) <= u && magnitude_of(c[i][2]) <= u);
    lemma_abs_product(c[i][0], y[0], u, 3 * w);
    lemma_abs_product(c[i][1], y[1], u, 3 * w);
    lemma_abs_product(c[i][2], y[2], u, 3 * w);
    assert(u * (3 * w) == 3 * (u * w)) by (nonlinear_arith);
}

/// Snapping moves an entry by less than 3e-12.
proof fn lemma_snapped_error(v: int)
    ensures
        1_000_000_000_000 * magnitude_of(snapped(v) - v) <= 3 * one(),
{
    let u = one() as int;
    lemma_tiny();
    lemma_one_is_large();
    let a = magnitude_of(v);
    lemma_sum_error(a, u);
}

/// A rotation is, within 1e-11, the product of its three turns, the first one applied first.
pub proof fn rotations_compose(angles: [Angle; 3], order: [Axis; 3], i: int, j: int)
    requires
        forall|k: int| 0 <= k < 3 ==> (#[trigger] angles[k]).bounded(),
        0 <= i < 3,
        0 <= j < 3,
    ensures
        100_000_000_000 * magnitude_of(
            snapped(composed(angles, order)[i][j]) * (one() * one()) - exactly_composed(
                angles,
                order,
            )[i][j],
        ) <= one() * (one() * one()),
        magnitude_of(exactly_composed(angles, order)[i][j]) <= 9 * (one() * (one() * one())),
{
    let u = one() as int;
    let w = u * u;
    lemma_turned_bounded(angles, order[0]);
    lemma_turned_bounded(angles, order[1]);
    lemma_turned_bounded(angles, order[2]);
    lemma_third(
        turned(angles, order[0]),
        turned(angles, order[1]),
        turned(angles, order[2]),
        i,
        j,
    );
    let v = composed(angles, order)[i][j];
    let e = exactly_composed(angles, order)[i][j];
    lemma_snapped_error(v);
    let s = snapped(v);
    let d = s - v;
    let m = magnitude_of(d);
    assert(d * w == s * w - v * w) by (nonlinear_arith)
        requires
            d == s - v,
    ;
    assert(w >= 0) by (nonlinear_arith)
        requires
            w == u * u,
    ;
    lemma_abs_product(d, w, m, w);
    assert(1_000_000_000_000 * (m * w) <= 3 * (u * w)) by (nonlinear_arith)
        requires
            1_000_000_000_000 * m <= 3 * u,
            w >= 0,
    ;
}

/// The entries of a rotation are no larger than a few times 1.
pub proof fn lemma_rotation_bounded(angles: [Angle; 3], order: [Axis; 3], i: int, j: int)
    requires
        forall|k: int| 0 <= k < 3 ==> (#[trigger] angles[k]).bounded(),
        0 <= i < 3,
        0 <= j < 3,
    ensures
        magnitude_of(snapped(composed(angles, order)[i][j])) <= 16 * one(),
{
    let u = one() as int;
    let w = u * u;
    lemma_one_is_large();
    rotations_compose(angles, order, i, j);
    let s = snapped(composed(angles, order)[i][j]);
    let e = exactly_composed(angles, order)[i][j];
    let m = magnitude_of(s);
    assert(w > 0) by (nonlinear_arith)
        requires
            w == u * u,
            u > 0,
    ;
    lemma_abs_product(s, w, m, w);
    assert(m * w <= 10 * (u * w));
    assert(m <= 16 * u) by (nonlinear_arith)
        requires
            m * w <= 10 * (u * w),
            w > 0,
            u > 0,
    ;
}

/// A combination of the rows of a matrix.
pub open spec fn combined(a: Seq<int>, x: Seq<Seq<int>>) -> Seq<int> {
    seq![inner(a, column(x, 0)), inner(a, column(x, 1)), inner(a, column(x, 2))]
}

/// The scalar product of two rows, weighted.
spec fn weighted(a: Seq<int>, b: Seq<int>, x: Seq<Seq<int>>, k: int, l: int) -> int {
    (a[k] * b[l]) * inner(x[k], x[l])
}

proof fn lemma_bilinear(a: Seq<int>, b: Seq<int>, x0: int, x1: int, x2: int)
    ensures
        (a[0] * x0 + a[1] * x1 + a[2] * x2) * (b[0] * x0 + b[1] * x1 + b[2] * x2) == (a[0] * b[0])
            * (x0 * x0) + (a[0] * b[1]) * (x0 * x1) + (a[0] * b[2]) * (x0 * x2) + (a[1] * b[0]) * (
        x1 * x0) + (a[1] * b[1]) * (x1 * x1) + (a[1] * b[2]) * (x1 * x2) + (a[2] * b[0]) * (x2 * x0)
            + (a[2] * b[1]) * (x2 * x1) + (a[2] * b[2]) * (x2 * x2),
{
    let (a0, a1, a2) = (a[0], a[1], a[2]);
    let (b0, b1, b2) = (b[0], b[1], b[2]);
    let (y0, y1, y2) = (b0 * x0, b1 * x1, b2 * x2);
    let y = y0 + y1 + y2;
    assert((a0 * x0 + a1 * x1 + a2 * x2) * y == (a0 * x0) * y + (a1 * x1) * y + (a2 * x2) * y)
        by (nonlinear_arith);
    lemma_row_times(a0, x0, b0, x0, b1, x1, b2, x2);
    lemma_row_times(a1, x1, b0, x0, b1, x1, b2, x2);
    lemma_row_times(a2, x2, b0, x0, b1, x1, b2, x2);
}

proof fn lemma_row_times(a: int, x: int, b0: int, x0: int, b1: int, x1: int, b2: int, x2: int)
    ensures
        (a * x) * (b0 * x0 + b1 * x1 + b2 * x2) == (a * b0) * (x * x0) + (a * b1) * (x * x1) + (a
            * b2) * (x * x2),
{
    let (y0, y1, y2) = (b0 * x0, b1 * x1, b2 * x2);
    let c = a * x;
    assert(c * (y0 + y1 + y2) == c * y0 + c * y1 + c * y2) by (nonlinear_arith);
    assert((a * x) * (b0 * x0) == (a * b0) * (x * x0)) by (nonlinear_arith);
    assert((a * x) * (b1 * x1) == (a * b1) * (x * x1)) by (nonlinear_arith);
    assert((a * x) * (b2 * x2) == (a * b2) * (x * x2)) by (nonlinear_arith);
}

proof fn lemma_weighted(a: Seq<int>, b: Seq<int>, x: Seq<Seq<int>>, k: int, l: int)
    ensures
        weighted(a, b, x, k, l) == (a[k] * b[l]) * (x[k][0] * x[l][0]) + (a[k] * b[l]) * (x[k][1]
            * x[l][1]) + (a[k] * b[l]) * (x[k][2] * x[l][2]),
{
    let c = a[k] * b[l];
    let (p, q, r) = (x[k][0] * x[l][0], x[k][1] * x[l][1], x[k][2] * x[l][2]);
    assert(c * (p + q + r) == c * p + c * q + c * r) by (nonlinear_arith);
}

/// The scalar product of two combinations is the combination of the scalar products.
proof fn lemma_combined(a: Seq<int>, b: Seq<int>, x: Seq<Seq<int>>)
    ensures
        inner(combined(a, x), combined(b, x)) == weighted(a, b, x, 0, 0) + weighted(a, b, x, 0, 1)
            + weighted(a, b, x, 0, 2) + weighted(a, b, x, 1, 0) + weighted(a, b, x, 1, 1)
            + weighted(a, b, x, 1, 2) + weighted(a, b, x, 2, 0) + weighted(a, b, x, 2, 1)
            + weighted(a, b, x, 2, 2),
{
    lemma_bilinear(a, b, x[0][0], x[1][0], x[2][0]);
    lemma_bilinear(a, b, x[0][1], x[1][1], x[2][1]);
    lemma_bilinear(a, b, x[0][2], x[1][2], x[2][2]);
    lemma_weighted(a, b, x, 0, 0);
    lemma_weighted(a, b, x, 0, 1);
    lemma_weighted(a, b, x, 0, 2);
    lemma_weighted(a, b, x, 1, 0);
    lemma_weighted(a, b, x, 1, 1);
    lemma_weighted(a, b, x, 1, 2);
    lemma_weighted(a, b, x, 2, 0);
    lemma_weighted(a, b, x, 2, 1);
    lemma_weighted(a, b, x, 2, 2);
}

/// What the scalar product of two rows should be: the square of the length on the diagonal.
pub open spec fn diagonal(k: int, l: int, w: int) -> int {
    if k == l {
        w
    } else {
        0
    }
}

/// The rows of a matrix are at right angles and as long as `sqrt(w)`, but for one part of `n` in
/// `m`.
pub open spec fn orthogonal(x: Seq<Seq<int>>, w: int, m: int, n: int) -> bool {
    forall|k: int, l: int|
        0 <= k < 3 && 0 <= l < 3 ==> m * magnitude_of(
            #[trigger] inner(x[k], x[l]) - diagonal(k, l, w),
        ) <= n * w
}

/// One weighted scalar product.
proof fn lemma_weighted_error(
    a: Seq<int>,
    b: Seq<int>,
    x: Seq<Seq<int>>,
    k: int,
    l: int,
    w: int,
    m: int,
    n: int,
)
    requires
        0 <= k < 3,
        0 <= l < 3,
        magnitude_of(a[k]) <= one(),
        magnitude_of(b[l]) <= one(),
        orthogonal(x, w, m, n),
        m > 0,
        w >= 0,
        n >= 0,
    ensures
        m * magnitude_of(weighted(a, b, x, k, l) - (a[k] * b[l]) * diagonal(k, l, w)) <= n * (one()
            * one() * w),
{
    let u = one() as int;
    let c = a[k] * b[l];
    let (g, t) = (inner(x[k], x[l]), diagonal(k, l, w));
    let d = g - t;
    let e = magnitude_of(d);
    lemma_abs_product(a[k], b[l], u, u);
    assert(c * g - c * t == c * d) by (nonlinear_arith)
        requires
            d == g - t,
    ;
    lemma_abs_product(c, d, u * u, e);
    let p = magnitude_of(c * d);
    assert(p <= (u * u) * e);
    assert(m * e <= n * w);
    let v = u * u;
    assert(v >= 0) by (nonlinear_arith)
        requires
            v == u * u,
    ;
    assert(m * p <= n * (v * w)) by (nonlinear_arith)
        requires
            m > 0,
            p <= v * e,
            m * e <= n * w,
            v >= 0,
    ;
}

/// Turning rows that are at right angles leaves them at right angles.
proof fn lemma_turned_rows(
    c: Seq<Seq<int>>,
    x: Seq<Seq<int>>,
    w: int,
    m: int,
    n: int,
    i: int,
    j: int,
)
    requires
        0 <= i < 3,
        0 <= j < 3,
        entries_upto(c, one() as int),
        orthogonal(c, (one() * one()) as int, m, 1),
        orthogonal(x, w, m, n),
        m > 0,
        w >= 0,
        n >= 0,
    ensures
        m * magnitude_of(
            inner(combined(c[i], x), combined(c[j], x)) - diagonal(i, j, one() * one() * w),
        ) <= (9 * n + 1) * (one() * one() * w),
{
    let u = one() as int;
    let v = u * u;
    let (a, b) = (c[i], c[j]);
    assert(magnitude_of(c[i][0]) <= u && magnitude_of(c[i][1]) <= u && magnitude_of(c[i][2]) <= u);
    assert(magnitude_of(c[j][0]) <= u && magnitude_of(c[j][1]) <= u && magnitude_of(c[j][2]) <= u);
    lemma_nine_terms(a, b, x, w, m, n);
    let t = inner(a, b);
    assert(m * magnitude_of(inner(c[i], c[j]) - diagonal(i, j, v)) <= 1 * v);
    let d = t - diagonal(i, j, v);
    let e = magnitude_of(d);
    lemma_abs_product(d, w, e, w);
    assert(d * w == t * w - diagonal(i, j, v) * w) by (nonlinear_arith)
        requires
            d == t - diagonal(i, j, v),
    ;
    assert(diagonal(i, j, v) * w == diagonal(i, j, v * w)) by {
        assert(0 * w == 0);
    }
    assert(m * (e * w) <= v * w) by (nonlinear_arith)
        requires
            m * e <= v,
            w >= 0,
    ;
    let k = v * w;
    let y = inner(combined(a, x), combined(b, x));
    lemma_added_errors(m, y - t * w, d * w, 9 * (n * k), k);
    assert((9 * n + 1) * k == 9 * (n * k) + k) by (nonlinear_arith);
}

/// Errors add up.
proof fn lemma_added_errors(m: int, x: int, y: int, p: int, q: int)
    requires
        m > 0,
        m * magnitude_of(x) <= p,
        m * magnitude_of(y) <= q,
    ensures
        m * magnitude_of(x + y) <= p + q,
{
    let (a, b, c) = (magnitude_of(x), magnitude_of(y), magnitude_of(x + y));
    assert(m * c <= m * a + m * b) by (nonlinear_arith)
        requires
            m > 0,
            c <= a + b,
    ;
}

/// The scalar product of two combinations of rows that are at right angles.
proof fn lemma_nine_terms(a: Seq<int>, b: Seq<int>, x: Seq<Seq<int>>, w: int, m: int, n: int)
    requires
        forall|k: int| 0 <= k < 3 ==> magnitude_of(#[trigger] a[k]) <= one(),
        forall|k: int| 0 <= k < 3 ==> magnitude_of(#[trigger] b[k]) <= one(),
        orthogonal(x, w, m, n),
        m > 0,
        w >= 0,
        n >= 0,
    ensures
        m * magnitude_of(inner(combined(a, x), combined(b, x)) - inner(a, b) * w) <= 9 * (n * (one()
            * one() * w)),
{
    let k = n * (one() * one() * w);
    lemma_combined(a, b, x);
    let z = |i: int, j: int| weighted(a, b, x, i, j);
    let e = |i: int, j: int| z(i, j) - (a[i] * b[j]) * diagonal(i, j, w);
    assert forall|i: int, j: int| 0 <= i < 3 && 0 <= j < 3 implies m * magnitude_of(
        #[trigger] e(i, j),
    ) <= k by {
        assert(magnitude_of(a[i]) <= one() && magnitude_of(b[j]) <= one());
        lemma_weighted_error(a, b, x, i, j, w, m, n);
    }
    let (p, q, r) = (a[0] * b[0], a[1] * b[1], a[2] * b[2]);
    assert((p + q + r) * w == p * w + q * w + r * w) by (nonlinear_arith);
    assert((a[0] * b[1]) * 0 == 0 && (a[0] * b[2]) * 0 == 0 && (a[1] * b[0]) * 0 == 0 && (a[1]
        * b[2]) * 0 == 0 && (a[2] * b[0]) * 0 == 0 && (a[2] * b[1]) * 0 == 0);
    let (e00, e01, e02) = (e(0, 0), e(0, 1), e(0, 2));
    let (e10, e11, e12) = (e(1, 0), e(1, 1), e(1, 2));
    let (e20, e21, e22) = (e(2, 0), e(2, 1), e(2, 2));
    lemma_added_errors(m, e00, e01, k, k);
    lemma_added_errors(m, e00 + e01, e02, 2 * k, k);
    lemma_added_errors(m, e00 + e01 + e02, e10, 3 * k, k);
    lemma_added_errors(m, e00 + e01 + e02 + e10, e11, 4 * k, k);
    lemma_added_errors(m, e00 + e01 + e02 + e10 + e11, e12, 5 * k, k);
    lemma_added_errors(m, e00 + e01 + e02 + e10 + e11 + e12, e20, 6 * k, k);
    lemma_added_errors(m, e00 + e01 + e02 + e10 + e11 + e12 + e20, e21, 7 * k, k);
    lemma_added_errors(m, e00 + e01 + e02 + e10 + e11 + e12 + e20 + e21, e22, 8 * k, k);
    assert(inner(combined(a, x), combined(b, x)) - inner(a, b) * w == e00 + e01 + e02 + e10 + e11
        + e12 + e20 + e21 + e22);
}

/// A turn has rows at right angles.
proof fn lemma_turn_orthogonal(angles: [Angle; 3], a: Axis)
    requires
        forall|i: int| 0 <= i < 3 ==> (#[trigger] angles[i]).upright(),
    ensures
        orthogonal(turned(angles, a), (one() * one()) as int, 1_000_000_000_000, 1),
{
    let u = one() as int;
    let w = u * u;
    let t = angles[axis_index(a)];
    assert(t.upright());
    let (s, c) = (t.sin.value(), t.cos.value());
    let g = turned(angles, a);
    assert(w >= 0) by (nonlinear_arith)
        requires
            w == u * u,
    ;
    assert((-s) * (-s) == s * s) by (nonlinear_arith);
    assert(c * (-s) == -(c * s)) by (nonlinear_arith);
    assert((-s) * c == -(c * s)) by (nonlinear_arith);
    assert(s * c == c * s) by (nonlinear_arith);
    assert(u * 0 == 0 && 0 * u == 0 && c * 0 == 0 && 0 * c == 0 && s * 0 == 0 && 0 * s == 0 && (-s)
        * 0 == 0 && 0 * (-s) == 0);
    assert forall|k: int, l: int| 0 <= k < 3 && 0 <= l < 3 implies 1_000_000_000_000 * magnitude_of(
        #[trigger] inner(g[k], g[l]) - diagonal(k, l, w),
    ) <= 1 * w by {
        assert(k == 0 || k == 1 || k == 2);
        assert(l == 0 || l == 1 || l == 2);
        let v = inner(g[k], g[l]);
        match a {
            Axis::X => {
                assert(g[0] == seq![u, 0, 0] && g[1] == seq![0, c, -s] && g[2] == seq![0, s, c]);
                assert(inner(g[0], g[0]) == w && inner(g[0], g[1]) == 0 && inner(g[0], g[2]) == 0);
                assert(inner(g[1], g[0]) == 0 && inner(g[1], g[1]) == s * s + c * c);
                assert(inner(g[1], g[2]) == 0 && inner(g[2], g[1]) == 0);
                assert(inner(g[2], g[0]) == 0 && inner(g[2], g[2]) == s * s + c * c);
                assert(v == if k == l {
                    if k == 0 {
                        w
                    } else {
                        s * s + c * c
                    }
                } else {
                    0
                });
            },
            Axis::Y => {
                assert(v == if k == l {
                    if k == 1 {
                        w
                    } else {
                        s * s + c * c
                    }
                } else {
                    0
                });
            },
            Axis::Z => {
                assert(v == if k == l {
                    if k == 2 {
                        w
                    } else {
                        s * s + c * c
                    }
                } else {
                    0
                });
            },
        }
    }
}

/// The rows of a product with a turn.
proof fn lemma_product_orthogonal(c: Seq<Seq<int>>, x: Seq<Seq<int>>, w: int, m: int, n: int)
    requires
        entries_upto(c, one() as int),
        orthogonal(c, (one() * one()) as int, m, 1),
        orthogonal(x, w, m, n),
        m > 0,
        w >= 0,
        n >= 0,
    ensures
        orthogonal(exact_product(c, x), one() * one() * w, m, 9 * n + 1),
{
    let y = exact_product(c, x);
    assert forall|i: int, j: int| 0 <= i < 3 && 0 <= j < 3 implies m * magnitude_of(
        #[trigger] inner(y[i], y[j]) - diagonal(i, j, one() * one() * w),
    ) <= (9 * n + 1) * (one() * one() * w) by {
        lemma_turned_rows(c, x, w, m, n, i, j);
        assert(inner(y[i], y[j]) == inner(combined(c[i], x), combined(c[j], x)));
    }
}

/// One term of the scalar product of two rows that are close to others.
proof fn lemma_close_term(r: int, s: int, p: int, q: int, w: int, t: int)
    requires
        w > 0,
        t > 0,
        magnitude_of(p) <= 9 * t,
        magnitude_of(q) <= 9 * t,
        100_000_000_000 * magnitude_of(r * w - p) <= t,
        100_000_000_000 * magnitude_of(s * w - q) <= t,
    ensures
        100_000_000_000 * magnitude_of((r * s) * (w * w) - p * q) <= 19 * (t * t),
{
    let (d, e) = (r * w - p, s * w - q);
    let k = 100_000_000_000int;
    assert((r * s) * (w * w) == (r * w) * (s * w)) by (nonlinear_arith);
    assert((p + d) * (q + e) == p * q + p * e + d * q + d * e) by (nonlinear_arith);
    let (md, me) = (magnitude_of(d), magnitude_of(e));
    lemma_abs_product(p, e, 9 * t, me);
    lemma_abs_product(d, q, md, 9 * t);
    lemma_abs_product(d, e, md, me);
    assert(k * ((9 * t) * me) <= 9 * (t * t)) by (nonlinear_arith)
        requires
            k * me <= t,
            t > 0,
    ;
    assert(k * (md * (9 * t)) <= 9 * (t * t)) by (nonlinear_arith)
        requires
            k * md <= t,
            t > 0,
    ;
    assert(k * (md * me) <= t * t) by (nonlinear_arith)
        requires
            k * md <= t,
            0 <= me <= t,
            md >= 0,
            t > 0,
    ;
}

/// A rotation keeps lengths and angles: times its transpose it is the identity within 1e-9, where
/// the sines and cosines are those of angles within 1e-12.
pub proof fn rotations_are_orthonormal(angles: [Angle; 3], order: [Axis; 3], g: Seq<Seq<int>>)
    requires
        forall|k: int| 0 <= k < 3 ==> (#[trigger] angles[k]).bounded(),
        forall|k: int| 0 <= k < 3 ==> (#[trigger] angles[k]).upright(),
        forall|i: int, j: int|
            0 <= i < 3 && 0 <= j < 3 ==> (#[trigger] g[i][j]) == snapped(
                composed(angles, order)[i][j],
            ),
    ensures
        orthogonal(g, (one() * one()) as int, 1_000_000_000, 1),
{
    let u = one() as int;
    let w = u * u;
    lemma_one_is_large();
    assert(w > 0) by (nonlinear_arith)
        requires
            w == u * u,
            u > 0,
    ;
    let (a, b, c) = (turned(angles, order[0]), turned(angles, order[1]), turned(angles, order[2]));
    lemma_turned_bounded(angles, order[0]);
    lemma_turned_bounded(angles, order[1]);
    lemma_turned_bounded(angles, order[2]);
    lemma_turn_orthogonal(angles, order[0]);
    lemma_turn_orthogonal(angles, order[1]);
    lemma_turn_orthogonal(angles, order[2]);
    let m = 1_000_000_000_000int;
    lemma_product_orthogonal(b, a, w, m, 1);
    assert(w * w > 0) by (nonlinear_arith)
        requires
            w > 0,
    ;
    lemma_product_orthogonal(c, exact_product(b, a), w * w, m, 10);
    let n = exactly_composed(angles, order);
    let t = u * w;
    assert(t > 0) by (nonlinear_arith)
        requires
            t == u * w,
            u > 0,
            w > 0,
    ;
    assert(w * (w * w) == t * t) by (nonlinear_arith)
        requires
            t == u * w,
            w == u * u,
    ;
    assert forall|i: int, j: int| 0 <= i < 3 && 0 <= j < 3 implies 1_000_000_000 * magnitude_of(
        #[trigger] inner(g[i], g[j]) - diagonal(i, j, w),
    ) <= 1 * w by {
        lemma_close_rows(angles, order, g, i, j);
        let (x, y) = (inner(g[i], g[j]), inner(n[i], n[j]));
        assert(m * magnitude_of(inner(n[i], n[j]) - diagonal(i, j, t * t)) <= 91 * (t * t));
        let d = x - diagonal(i, j, w);
        let q = w * w;
        assert(d * q == x * q - diagonal(i, j, w) * q) by (nonlinear_arith)
            requires
                d == x - diagonal(i, j, w),
        ;
        assert(diagonal(i, j, w) * q == diagonal(i, j, t * t)) by {
            assert(0 * q == 0);
        }
        let e = magnitude_of(d);
        lemma_abs_product(d, q, e, q);
        assert(1_000_000_000 * (e * q) <= t * t);
        assert(1_000_000_000 * e <= w) by (nonlinear_arith)
            requires
                1_000_000_000 * (e * q) <= w * q,
                q > 0,
        ;
    }
}

/// Scalar products of the rows of a rotation and of the product of its turns.
proof fn lemma_close_rows(
    angles: [Angle; 3],
    order: [Axis; 3],
    g: Seq<Seq<int>>,
    i: int,
    j: int,
)
    requires
        forall|k: int| 0 <= k < 3 ==> (#[trigger] angles[k]).bounded(),
        forall|i: int, j: int|
            0 <= i < 3 && 0 <= j < 3 ==> (#[trigger] g[i][j]) == snapped(
                composed(angles, order)[i][j],
            ),
        0 <= i < 3,
        0 <= j < 3,
    ensures
        ({
            let n = exactly_composed(angles, order);
            let w = one() * one();
            let t = one() * w;
            100_000_000_000 * magnitude_of(inner(g[i], g[j]) * (w * w) - inner(n[i], n[j])) <= 57 * (t
                * t)
        }),
{
    let u = one() as int;
    let w = u * u;
    let t = u * w;
    lemma_one_is_large();
    assert(w > 0) by (nonlinear_arith)
        requires
            w == u * u,
            u > 0,
    ;
    assert(t > 0) by (nonlinear_arith)
        requires
            t == u * w,
            u > 0,
            w > 0,
    ;
    let n = exactly_composed(angles, order);
    rotations_compose(angles, order, i, 0);
    rotations_compose(angles, order, i, 1);
    rotations_compose(angles, order, i, 2);
    rotations_compose(angles, order, j, 0);
    rotations_compose(angles, order, j, 1);
    rotations_compose(angles, order, j, 2);
    assert(g[i][0] == snapped(composed(angles, order)[i][0]));
    assert(g[i][1] == snapped(composed(angles, order)[i][1]));
    assert(g[i][2] == snapped(composed(angles, order)[i][2]));
    assert(g[j][0] == snapped(composed(angles, order)[j][0]));
    assert(g[j][1] == snapped(composed(angles, order)[j][1]));
    assert(g[j][2] == snapped(composed(angles, order)[j][2]));
    lemma_close_term(g[i][0], g[j][0], n[i][0], n[j][0], w, t);
    lemma_close_term(g[i][1], g[j][1], n[i][1], n[j][1], w, t);
    lemma_close_term(g[i][2], g[j][2], n[i][2], n[j][2], w, t);
    let (a, b, c) = (g[i][0] * g[j][0], g[i][1] * g[j][1], g[i][2] * g[j][2]);
    let q = w * w;
    assert((a + b + c) * q == a * q + b * q + c * q) by (nonlinear_arith);
}

} // verus!
