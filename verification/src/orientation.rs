//! Which way a rotation turns, and how large its output is: the right-hand rule, the order of the
//! turns, and the sides of the box that they need.

use vstd::prelude::*;
use vstd::arithmetic::power2::{lemma2_to64_rest, lemma_pow2_pos};
use crate::accuracy::{
    inner, lemma_abs_product, lemma_one_is_large, lemma_product_error, lemma_quotient_error,
    lemma_sum_error,
};
use crate::binary64::{
    ceiling_of, difference, fraction, magnitude_of, one, product, rounding_error, sum,
};
use crate::geometry::{
    column, composed, fit_side, keeps_depth, keeps_time, output_sides,
    quarter_turns_permute_the_sides, reach, snapped, takes_over, turned, turns_time_back, Angle,
    Axis, DimSpec, OutputSize,
};
use crate::rotation::{exact_product, exactly_composed, rotations_compose};

verus! {

/// The right-hand rule: a turn around axis `k` takes the next axis towards the one after it, and that
/// one away from the next; the axis itself stays. Axes follow each other as X, Y, Z, X.
pub open spec fn right_handed(k: int, s: int, c: int, i: int, j: int) -> int {
    let (a, b) = ((k + 1) % 3, (k + 2) % 3);
    if i == k && j == k {
        one() as int
    } else if (i == a && j == a) || (i == b && j == b) {
        c
    } else if i == b && j == a {
        s
    } else if i == a && j == b {
        -s
    } else {
        0
    }
}

/// Entry `(i, j)` of a turn around an axis by its own angle.
pub open spec fn turn_entry(angles: [Angle; 3], a: Axis, i: int, j: int) -> int {
    let k = match a {
        Axis::X => 0int,
        Axis::Y => 1int,
        Axis::Z => 2int,
    };
    right_handed(k, angles[k].sin.value(), angles[k].cos.value(), i, j)
}

/// Entry `(i, j)` of two turns, the first one applied first.
pub open spec fn two_turns(angles: [Angle; 3], first: Axis, second: Axis, i: int, j: int) -> int {
    turn_entry(angles, second, i, 0) * turn_entry(angles, first, 0, j) + turn_entry(
        angles,
        second,
        i,
        1,
    ) * turn_entry(angles, first, 1, j) + turn_entry(angles, second, i, 2) * turn_entry(
        angles,
        first,
        2,
        j,
    )
}

/// Entry `(i, j)` of three turns in order, the first one applied first.
pub open spec fn three_turns(angles: [Angle; 3], order: [Axis; 3], i: int, j: int) -> int {
    turn_entry(angles, order[2], i, 0) * two_turns(angles, order[0], order[1], 0, j) + turn_entry(
        angles,
        order[2],
        i,
        1,
    ) * two_turns(angles, order[0], order[1], 1, j) + turn_entry(angles, order[2], i, 2)
        * two_turns(angles, order[0], order[1], 2, j)
}

proof fn lemma_turn_entry(angles: [Angle; 3], a: Axis, i: int, j: int)
    requires
        0 <= i < 3,
        0 <= j < 3,
    ensures
        turned(angles, a)[i][j] == turn_entry(angles, a, i, j),
{
    assert((i == 0 || i == 1 || i == 2) && (j == 0 || j == 1 || j == 2));
}

proof fn lemma_two_turns(angles: [Angle; 3], first: Axis, second: Axis, i: int, j: int)
    requires
        0 <= i < 3,
        0 <= j < 3,
    ensures
        exact_product(turned(angles, second), turned(angles, first))[i][j] == two_turns(
            angles,
            first,
            second,
            i,
            j,
        ),
{
    lemma_turn_entry(angles, second, i, 0);
    lemma_turn_entry(angles, second, i, 1);
    lemma_turn_entry(angles, second, i, 2);
    lemma_turn_entry(angles, first, 0, j);
    lemma_turn_entry(angles, first, 1, j);
    lemma_turn_entry(angles, first, 2, j);
}

/// A rotation turns around the axes in order, the first one first, each turn by the angle of its own
/// axis and as the right-hand rule says, within 1e-11.
pub proof fn rotations_follow_the_right_hand_rule(
    angles: [Angle; 3],
    order: [Axis; 3],
    i: int,
    j: int,
)
    requires
        forall|k: int| 0 <= k < 3 ==> (#[trigger] angles[k]).bounded(),
        0 <= i < 3,
        0 <= j < 3,
    ensures
        100_000_000_000 * magnitude_of(
            snapped(composed(angles, order)[i][j]) * (one() * one()) - three_turns(
                angles,
                order,
                i,
                j,
            ),
        ) <= one() * (one() * one()),
{
    rotations_compose(angles, order, i, j);
    lemma_three_turns(angles, order, i, j);
}

proof fn lemma_three_turns(angles: [Angle; 3], order: [Axis; 3], i: int, j: int)
    requires
        0 <= i < 3,
        0 <= j < 3,
    ensures
        exactly_composed(angles, order)[i][j] == three_turns(angles, order, i, j),
{
    let p = exact_product(turned(angles, order[1]), turned(angles, order[0]));
    let t = turned(angles, order[2]);
    assert(exactly_composed(angles, order)[i][j] == inner(t[i], column(p, j)));
    lemma_turn_entry(angles, order[2], i, 0);
    lemma_turn_entry(angles, order[2], i, 1);
    lemma_turn_entry(angles, order[2], i, 2);
    lemma_two_turns(angles, order[0], order[1], 0, j);
    lemma_two_turns(angles, order[0], order[1], 1, j);
    lemma_two_turns(angles, order[0], order[1], 2, j);
}

/// How far the rotated volume reaches along an output axis, exactly: every side by the size of its
/// entry in the row of the matrix.
pub open spec fn extent(row: Seq<int>, dims: Seq<nat>) -> int {
    magnitude_of(row[0]) * dims[0] + magnitude_of(row[1]) * dims[1] + magnitude_of(row[2]) * dims[2]
}

/// A side times an entry, rounded, against the exact one.
proof fn lemma_share(v: int, d: nat)
    requires
        v >= 0,
    ensures
        0x20_0000_0000_0000 * magnitude_of(product(v, fraction(d, 1) as int) - v * d) <= 3 * (v * d)
            + 0x20_0000_0000_0000,
{
    let u = one() as int;
    let k = 0x20_0000_0000_0000int;
    lemma_one_is_large();
    lemma2_to64_rest();
    rounding_error(d * one());
    let f = fraction(d, 1) as int;
    let p = product(v, f);
    lemma_product_error(v, f);
    let du = d * u;
    let w = v * d;
    let e = f - du;
    let me = magnitude_of(e);
    lemma_abs_product(v, e, v, me);
    assert(k * (v * me) <= w * u) by (nonlinear_arith)
        requires
            k * me <= du,
            du == d * u,
            w == v * d,
            v >= 0,
    ;
    assert(w >= 0 && w * u >= 0) by (nonlinear_arith)
        requires
            w == v * d,
            v >= 0,
            d >= 0,
            u > 0,
    ;
    assert(v * f == w * u + v * e) by (nonlinear_arith)
        requires
            e == f - du,
            du == d * u,
            w == v * d,
    ;
    let g = p - w;
    let mg = magnitude_of(g);
    assert(g * u == (p * u - v * f) + v * e) by (nonlinear_arith)
        requires
            g == p - w,
            v * f == w * u + v * e,
    ;
    lemma_abs_product(g, u, mg, u);
    assert(k * (mg * u) <= 3 * (w * u) + k * u);
    assert(k * mg <= 3 * w + k) by (nonlinear_arith)
        requires
            k * (mg * u) <= 3 * (w * u) + k * u,
            u > 0,
    ;
}

/// The reach of a volume, rounded, against the exact one.
proof fn lemma_reach(row: Seq<int>, dims: Seq<nat>)
    ensures
        0x8_0000_0000_0000 * magnitude_of(reach(row, dims) - extent(row, dims)) <= 2 * extent(
            row,
            dims,
        ) + one(),
        extent(row, dims) >= 0,
{
    let u = one() as int;
    lemma_one_is_large();
    let (x, y, z) = (magnitude_of(row[0]), magnitude_of(row[1]), magnitude_of(row[2]));
    lemma_share(x, dims[0]);
    lemma_share(y, dims[1]);
    lemma_share(z, dims[2]);
    let (a, b, c) = (x * dims[0], y * dims[1], z * dims[2]);
    assert(a >= 0 && b >= 0 && c >= 0) by (nonlinear_arith)
        requires
            a == x * dims[0],
            b == y * dims[1],
            c == z * dims[2],
            x >= 0,
            y >= 0,
            z >= 0,
    ;
    let (p, q, r) = (
        product(x, fraction(dims[0], 1) as int),
        product(y, fraction(dims[1], 1) as int),
        product(z, fraction(dims[2], 1) as int),
    );
    lemma_sum_error(p, q);
    lemma_sum_error(sum(p, q), r);
    lemma_reach_numbers(a, b, c, p, q, r, sum(p, q), sum(sum(p, q), r), u);
}

proof fn lemma_reach_numbers(
    a: int,
    b: int,
    c: int,
    p: int,
    q: int,
    r: int,
    s: int,
    t: int,
    u: int,
)
    requires
        a >= 0 && b >= 0 && c >= 0,
        u >= 0x8000_0000_0000_0000_0000_0000_0000_0000,
        0x20_0000_0000_0000 * magnitude_of(p - a) <= 3 * a + 0x20_0000_0000_0000,
        0x20_0000_0000_0000 * magnitude_of(q - b) <= 3 * b + 0x20_0000_0000_0000,
        0x20_0000_0000_0000 * magnitude_of(r - c) <= 3 * c + 0x20_0000_0000_0000,
        0x20_0000_0000_0000 * magnitude_of(s - (p + q)) <= magnitude_of(p + q),
        0x20_0000_0000_0000 * magnitude_of(t - (s + r)) <= magnitude_of(s + r),
    ensures
        0x8_0000_0000_0000 * magnitude_of(t - (a + b + c)) <= 2 * (a + b + c) + u,
{
    let e = a + b + c;
    assert(magnitude_of(p + q) <= e + e / 0x1000_0000 + 8);
    assert(magnitude_of(s + r) <= e + e / 0x100_0000 + 16);
    let (f, g) = (s - (p + q), t - (s + r));
    let h = (p - a) + (q - b) + (r - c);
    assert(t - e == f + g + h);
    assert(0x20_0000_0000_0000 * magnitude_of(h) <= 3 * e + 3 * 0x20_0000_0000_0000);
}

/// One millionth.
proof fn lemma_a_millionth()
    ensures
        999_999 * one() <= 1_000_000_000_000 * fraction(1, 1_000_000) <= 1_000_001 * one(),
{
    let u = one();
    lemma_one_is_large();
    assert(1 * u == u);
    lemma_quotient_error(u as int, 1_000_000);
}

/// The bounding box is as large as the rotated volume needs: each side covers how far the volume
/// reaches along its axis, but for two millionths of a pixel, and one pixel less would not. Volumes
/// that reach up to 2^24 pixels are meant, which rounding moves by less than that.
pub proof fn the_box_is_as_large_as_needed(row: Seq<int>, dims: Seq<nat>)
    requires
        extent(row, dims) <= 0x100_0000 * one(),
    ensures
        ({
            let n = fit_side(row, dims);
            &&& n >= 1
            &&& 1_000_000 * (extent(row, dims) - n * one()) <= 2 * one()
            &&& n > 1 ==> (n - 1) * one() < extent(row, dims)
        }),
{
    let u = one() as int;
    let e = extent(row, dims);
    let r = reach(row, dims);
    lemma_one_is_large();
    lemma_reach(row, dims);
    lemma_a_millionth();
    let m = fraction(1, 1_000_000) as int;
    lemma_sum_error(r, m);
    let l = difference(r, m);
    assert(50_000_000 * magnitude_of(r - e) <= u);
    assert(magnitude_of(r - m) <= 0x100_0001 * u);
    assert(2_000_000_000 * magnitude_of(l - (r - m)) <= u * 4);
    let n = ceiling_of(l);
    vstd::arithmetic::div_mod::lemma_fundamental_div_mod(-l, u);
    let nu = n * u;
    let k = (-l) / u;
    assert(nu == -(u * k)) by (nonlinear_arith)
        requires
            n == -k,
            nu == n * u,
    ;
    assert(l <= nu && nu < l + u);
    assert(n <= 0x100_0002) by (nonlinear_arith)
        requires
            n * u < 0x100_0002 * u + u,
            u > 0,
    ;
    assert((n - 1) * u == nu - u) by (nonlinear_arith)
        requires
            nu == n * u,
    ;
    if n < 1 {
        assert(nu <= 0) by (nonlinear_arith)
            requires
                nu == n * u,
                n <= 0,
                u > 0,
        ;
        assert(1 * u == u);
    }
}

/// The box holds the rotated volume: no point of the volume leaves it along its axis, but for two
/// millionths of a pixel. The point is given relative to the centre of the volume.
pub proof fn the_box_holds_every_point(row: Seq<int>, dims: Seq<nat>, v: Seq<int>)
    requires
        extent(row, dims) <= 0x100_0000 * one(),
        forall|j: int| 0 <= j < 3 ==> 2 * magnitude_of(#[trigger] v[j]) <= dims[j] * one(),
    ensures
        1_000_000 * (2 * magnitude_of(row[0] * v[0] + row[1] * v[1] + row[2] * v[2]) - (fit_side(
            row,
            dims,
        ) * one()) * one()) <= (2 * one()) * one(),
{
    let u = one() as int;
    the_box_is_as_large_as_needed(row, dims);
    lemma_pow2_pos(1074);
    assert(2 * magnitude_of(v[0]) <= dims[0] * one() && 2 * magnitude_of(v[1]) <= dims[1] * one()
        && 2 * magnitude_of(v[2]) <= dims[2] * one());
    lemma_point(row[0], v[0], dims[0], u);
    lemma_point(row[1], v[1], dims[1], u);
    lemma_point(row[2], v[2], dims[2], u);
    let (a, b, c) = (
        magnitude_of(row[0]) * dims[0],
        magnitude_of(row[1]) * dims[1],
        magnitude_of(row[2]) * dims[2],
    );
    let e = a + b + c;
    assert(e * u == a * u + b * u + c * u) by (nonlinear_arith)
        requires
            e == a + b + c,
    ;
    let n = fit_side(row, dims) * u;
    assert(1_000_000 * (e * u - n * u) <= (2 * u) * u) by (nonlinear_arith)
        requires
            1_000_000 * (e - n) <= 2 * u,
            u > 0,
    ;
}

proof fn lemma_point(r: int, v: int, d: nat, u: int)
    requires
        u > 0,
        2 * magnitude_of(v) <= d * u,
    ensures
        2 * magnitude_of(r * v) <= (magnitude_of(r) * d) * u,
{
    let (m, n) = (magnitude_of(r), magnitude_of(v));
    lemma_abs_product(r, v, m, n);
    assert(2 * (m * n) <= (m * d) * u) by (nonlinear_arith)
        requires
            2 * n <= d * u,
            m >= 0,
    ;
}

/// The output is the bounding box, or as large as the input, or each side is as asked for: that of the
/// box, that of the input or a number of its own. Width and height are rounded up to even numbers
/// where that is wanted; the frame count never is.
pub proof fn the_output_is_as_large_as_asked(
    g: Seq<Seq<int>>,
    dims: Seq<nat>,
    asked: [DimSpec; 3],
    even: bool,
    i: int,
)
    requires
        0 <= i < 3,
    ensures
        ({
            let grown = |n: nat|
                if even && i < 2 && n % 2 == 1 {
                    n + 1
                } else {
                    n
                };
            &&& output_sides(g, dims, OutputSize::Fit, even)[i] == grown(fit_side(g[i], dims))
            &&& output_sides(g, dims, OutputSize::Crop, even)[i] == grown(dims[i])
            &&& output_sides(g, dims, OutputSize::Custom(asked), even)[i] == grown(
                match asked[i] {
                    DimSpec::Fit => fit_side(g[i], dims),
                    DimSpec::Input => dims[i],
                    DimSpec::Exact(n) => n as nat,
                },
            )
        }),
{
}

/// Time runs backwards exactly when the rotated time axis points against the time axis, by however
/// little, down to a billionth; what runs across time runs forwards.
pub proof fn time_runs_as_the_time_axis_points(g: Seq<Seq<int>>)
    ensures
        500_000_000 * g[2][2] <= -one() ==> turns_time_back(g),
        g[2][2] >= 0 ==> !turns_time_back(g),
{
    let u = one();
    lemma_one_is_large();
    assert(1 * u == u);
    lemma_quotient_error(u as int, 1_000_000_000);
}

/// Frames can be rotated one by one only where time is mapped onto itself, forwards or backwards, and
/// nothing else onto it; then the output has the frames of the input, one for one, unless another
/// number of them is asked for.
pub proof fn streams_keep_the_frame_count(
    g: Seq<Seq<int>>,
    dims: Seq<nat>,
    size: OutputSize,
    even: bool,
)
    requires
        dims.len() == 3,
        g[2].len() == 3,
        0 < dims[2] < 0x10_0000_0000_0000,
        dims[2] <= usize::MAX,
    ensures
        keeps_time(g) <==> g[2][2] == one() || g[2][2] == -one(),
        keeps_time(g) && g[2][0] == 0 && g[2][1] == 0 && keeps_depth(size) ==> output_sides(
            g,
            dims,
            size,
            even,
        )[2] == dims[2],
        keeps_time(g) && g[2][0] == 0 && g[2][1] == 0 && output_sides(g, dims, size, even)[2]
            != dims[2] ==> !keeps_depth(size),
        size is Fit || size is Crop ==> keeps_depth(size),
        size matches OutputSize::Custom(d) ==> keeps_depth(size) == !(d[2] is Exact),
{
    if keeps_time(g) && g[2][0] == 0 && g[2][1] == 0 {
        assert(takes_over(g[2], 2));
        quarter_turns_permute_the_sides(g[2], dims, 2);
    }
}

} // verus!
