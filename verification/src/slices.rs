//! Slices of a rotated box: which depths they exist at and how far they reach.

use vstd::prelude::*;
use vstd::arithmetic::div_mod::lemma_fundamental_div_mod_converse;
use vstd::arithmetic::power2::{
    lemma2_to64, lemma2_to64_rest, lemma_pow2_adds, lemma_pow2_pos, lemma_pow2_strictly_increases,
    lemma_pow2_unfold, pow2,
};
use crate::accuracy::{
    lemma_abs_product, lemma_one_is_large, lemma_product_error, lemma_quotient_error,
    lemma_sum_error,
};
use crate::binary64::{
    difference, fraction, magnitude_of, one, product, quotient, round_signed, rounded, sum,
    whole_numbers_are_exact, zero_product,
};
use crate::geometry::{dot, reach};
use crate::grain::{
    grained, grains, lemma_finer, lemma_grained_added, lemma_grained_negated,
    lemma_grained_rounding, lemma_grained_sum, lemma_grains, lemma_is_grained, lemma_product,
    lemma_quotient, lemma_scaled_product, lemma_scaled_sum,
};
use crate::grazing::{clod, grazing, lemma_grazing_shares, lemma_point_grazed, speck};
use crate::rotation::{in_format, lemma_in_format};
use crate::rounding::{
    lemma_exact, lemma_rounded_positive, lemma_rounded_scale, rounding_is_idempotent,
    rounding_is_monotonic,
};
use crate::subsampling::{lemma_half_side, plain, plain_matrix};
use crate::track::{corner, corner_side, edges, half_side, slice_of, slice_upto, with_edge};

verus! {

/// Rounding treats both signs alike.
pub proof fn lemma_odd(n: int, d: nat)
    requires
        d > 0,
    ensures
        round_signed(-n, d) == -round_signed(n, d),
{
    lemma_pow2_pos(53);
    let p = pow2(53);
    assert(p * d > 0) by (nonlinear_arith)
        requires
            p > 0,
            d > 0,
    ;
    assert(rounded(0, d) == 0) by {
        lemma_fundamental_div_mod_converse(0, d as int, 0, 0);
    }
}

/// Rounding keeps the order.
pub proof fn lemma_monotone(n: int, m: int, d: nat)
    requires
        d > 0,
        n <= m,
    ensures
        round_signed(n, d) <= round_signed(m, d),
{
    if n >= 0 {
        rounding_is_monotonic(n as nat, m as nat, d, 53);
    } else if m < 0 {
        rounding_is_monotonic((-m) as nat, (-n) as nat, d, 53);
    }
}

/// Sums and products of numbers with other signs.
pub proof fn lemma_signed(a: int, b: int)
    ensures
        sum(-a, -b) == -sum(a, b),
        difference(-a, -b) == -difference(a, b),
        difference(b, a) == -difference(a, b),
        product(-a, b) == -product(a, b),
        product(a, -b) == -product(a, b),
        product(-a, -b) == product(a, b),
{
    lemma_pow2_pos(1074);
    lemma_odd(a + b, 1);
    lemma_odd(a - b, 1);
    lemma_odd(a * b, one());
    assert((-a) * b == -(a * b)) by (nonlinear_arith);
    assert(a * (-b) == -(a * b)) by (nonlinear_arith);
    assert((-a) * (-b) == a * b) by (nonlinear_arith);
}

/// Half of how far a rotated box reaches along one output axis.
pub open spec fn half_reach(row: Seq<int>, dims: Seq<nat>) -> int {
    dot(
        seq![magnitude_of(row[0]), magnitude_of(row[1]), magnitude_of(row[2])],
        seq![half_side(dims[0]), half_side(dims[1]), half_side(dims[2])],
    )
}

/// A side is twice its half.
pub proof fn lemma_two_halves(d: nat)
    ensures
        fraction(d, 1) == 2 * half_side(d),
        half_side(d) >= 0,
{
    let u = one() as int;
    lemma_pow2_pos(1074);
    lemma2_to64();
    let n = d as int;
    assert(n * u >= 0) by (nonlinear_arith)
        requires
            n >= 0,
            u > 0,
    ;
    let f = fraction(d, 1) as int;
    lemma_is_grained(n, 1074);
    lemma_grained_rounding(n * u, 1074);
    lemma_quotient(f, 1074, 1);
    rounding_is_idempotent((n * u) as nat, 1, 53);
}

/// A box reaches as far on both sides of its centre: the half reach is half of the reach.
pub proof fn half_reach_is_half(row: Seq<int>, dims: Seq<nat>)
    requires
        plain(row[0]) && plain(row[1]) && plain(row[2]),
    ensures
        reach(row, dims) == 2 * half_reach(row, dims),
        half_reach(row, dims) >= 0,
{
    lemma2_to64();
    let a = seq![magnitude_of(row[0]), magnitude_of(row[1]), magnitude_of(row[2])];
    let h = seq![half_side(dims[0]), half_side(dims[1]), half_side(dims[2])];
    assert forall|k: int| 0 <= k < 3 implies {
        &&& #[trigger] product(a[k], fraction(dims[k], 1) as int) == 2 * product(a[k], h[k])
        &&& product(a[k], h[k]) >= 0
    } by {
        assert(k == 0 || k == 1 || k == 2);
        lemma_two_halves(dims[k]);
        lemma_half_side(dims[k]);
        if row[k] < 0 {
            lemma_grained_negated(row[k], 874);
        }
        lemma_scaled_product(a[k], h[k], 874, 1073, 1);
        lemma_pow2_pos(1074);
        let (x, y) = (a[k], h[k]);
        assert(x * y >= 0) by (nonlinear_arith)
            requires
                x >= 0,
                y >= 0,
        ;
    }
    let (p, q, r) = (product(a[0], h[0]), product(a[1], h[1]), product(a[2], h[2]));
    assert(product(a[0], fraction(dims[0], 1) as int) == 2 * p);
    assert(product(a[1], fraction(dims[1], 1) as int) == 2 * q);
    assert(product(a[2], fraction(dims[2], 1) as int) == 2 * r);
    lemma_scaled_sum(p, q, 1);
    lemma_scaled_sum(sum(p, q), r, 1);
}

/// The term of a corner along one axis is the largest one or its opposite.
proof fn lemma_corner_term(v: int, dims: Seq<nat>, i: int, k: int)
    requires
        0 <= k < 3,
    ensures
        ({
            let top = product(magnitude_of(v), half_side(dims[k]));
            let t = product(v, corner_side(dims, i, k));
            &&& t == top || t == -top
            &&& top >= 0
            &&& (v >= 0) == (corner_side(dims, i, k) == half_side(dims[k])) ==> t == top
        }),
{
    let h = half_side(dims[k]);
    lemma_two_halves(dims[k]);
    lemma_signed(magnitude_of(v), h);
    lemma_signed(v, h);
    lemma_pow2_pos(1074);
    let m = magnitude_of(v);
    assert(m * h >= 0) by (nonlinear_arith)
        requires
            m >= 0,
            h >= 0,
    ;
    if v == 0 {
        zero_product(h);
        zero_product(-h);
    }
    if h == 0 {
        zero_product(v);
        zero_product(m);
    }
}

/// A sum of terms lies between the sums of the largest terms and of their opposites.
proof fn lemma_dot_between(x: int, y: int, z: int, p: int, q: int, r: int)
    requires
        -p <= x <= p,
        -q <= y <= q,
        -r <= z <= r,
    ensures
        -sum(sum(p, q), r) <= sum(sum(x, y), z) <= sum(sum(p, q), r),
        sum(sum(-p, -q), -r) == -sum(sum(p, q), r),
{
    lemma_signed(p, q);
    lemma_signed(sum(p, q), r);
    lemma_monotone(x + y, p + q, 1);
    lemma_monotone(-p + (-q), x + y, 1);
    lemma_monotone(sum(x, y) + z, sum(p, q) + r, 1);
    lemma_monotone(-sum(p, q) + (-r), sum(x, y) + z, 1);
}

/// No corner of a rotated box lies further out than the half reach.
pub proof fn lemma_corner_bounded(g: Seq<Seq<int>>, dims: Seq<nat>, i: int, a: int)
    requires
        0 <= i < 8,
        0 <= a < 3,
    ensures
        -half_reach(g[a], dims) <= corner(g, dims, i)[a] <= half_reach(g[a], dims),
        in_format(corner(g, dims, i)[a]),
{
    let row = g[a];
    lemma_corner_term(row[0], dims, i, 0);
    lemma_corner_term(row[1], dims, i, 1);
    lemma_corner_term(row[2], dims, i, 2);
    let (x, y, z) = (
        product(row[0], corner_side(dims, i, 0)),
        product(row[1], corner_side(dims, i, 1)),
        product(row[2], corner_side(dims, i, 2)),
    );
    lemma_dot_between(
        x,
        y,
        z,
        product(magnitude_of(row[0]), half_side(dims[0])),
        product(magnitude_of(row[1]), half_side(dims[1])),
        product(magnitude_of(row[2]), half_side(dims[2])),
    );
    lemma_in_format(sum(x, y) + z, 1);
}

/// The corner that lies furthest out along an axis.
pub open spec fn far_corner(row: Seq<int>) -> int {
    (if row[0] >= 0 {
        1int
    } else {
        0
    }) + (if row[1] >= 0 {
        2int
    } else {
        0
    }) + (if row[2] >= 0 {
        4int
    } else {
        0
    })
}

/// The far corner lies as far out as the half reach, and the opposite corner on the other side.
pub proof fn lemma_far_corner(g: Seq<Seq<int>>, dims: Seq<nat>, a: int)
    requires
        0 <= a < 3,
    ensures
        0 <= far_corner(g[a]) < 8,
        corner(g, dims, far_corner(g[a]))[a] == half_reach(g[a], dims),
        corner(g, dims, 7 - far_corner(g[a]))[a] == -half_reach(g[a], dims),
{
    let row = g[a];
    let i = far_corner(row);
    lemma_two_halves(dims[0]);
    lemma_two_halves(dims[1]);
    lemma_two_halves(dims[2]);
    lemma_corner_term(row[0], dims, i, 0);
    lemma_corner_term(row[1], dims, i, 1);
    lemma_corner_term(row[2], dims, i, 2);
    lemma_far_term(row[0], dims, i, 0);
    lemma_far_term(row[1], dims, i, 1);
    lemma_far_term(row[2], dims, i, 2);
    lemma_opposite_corner(g, dims, i, a);
}

proof fn lemma_far_term(v: int, dims: Seq<nat>, i: int, k: int)
    requires
        0 <= k < 3,
        corner_side(dims, i, k) == if v >= 0 {
            half_side(dims[k])
        } else {
            -half_side(dims[k])
        },
    ensures
        product(v, corner_side(dims, i, k)) == product(magnitude_of(v), half_side(dims[k])),
{
    lemma_signed(v, half_side(dims[k]));
}

/// Corners on opposite sides of the centre.
pub proof fn lemma_opposite_corner(g: Seq<Seq<int>>, dims: Seq<nat>, i: int, a: int)
    requires
        0 <= i < 8,
        0 <= a < 3,
    ensures
        corner(g, dims, 7 - i)[a] == -corner(g, dims, i)[a],
{
    let row = g[a];
    let (x, y, z) = (corner_side(dims, i, 0), corner_side(dims, i, 1), corner_side(dims, i, 2));
    assert(i == 0 || i == 1 || i == 2 || i == 3 || i == 4 || i == 5 || i == 6 || i == 7);
    assert(corner_side(dims, 7 - i, 0) == -x);
    assert(corner_side(dims, 7 - i, 1) == -y);
    assert(corner_side(dims, 7 - i, 2) == -z);
    lemma_signed(row[0], x);
    lemma_signed(row[1], y);
    lemma_signed(row[2], z);
    lemma_signed(product(row[0], x), product(row[1], y));
    lemma_signed(sum(product(row[0], x), product(row[1], y)), product(row[2], z));
}

/// The depth of a corner below a plane.
pub open spec fn depth_of(g: Seq<Seq<int>>, dims: Seq<nat>, i: int, z: int) -> int {
    difference(corner(g, dims, i)[2], z)
}

/// The corners of a box that is rotated by plain numbers are multiples of 2^-201.
proof fn lemma_corner_grain(g: Seq<Seq<int>>, dims: Seq<nat>, i: int, a: int)
    requires
        plain_matrix(g),
        0 <= i < 8,
        0 <= a < 3,
    ensures
        grained(corner(g, dims, i)[a], 873),
{
    let row = g[a];
    assert forall|k: int| 0 <= k < 3 implies grained(
        #[trigger] product(row[k], corner_side(dims, i, k)),
        873,
    ) by {
        assert(plain(g[a][k]));
        lemma_half_side(dims[k]);
        lemma_grained_negated(half_side(dims[k]), 1073);
        lemma_product(row[k], corner_side(dims, i, k), 874, 1073);
    }
    let (x, y, z) = (
        product(row[0], corner_side(dims, i, 0)),
        product(row[1], corner_side(dims, i, 1)),
        product(row[2], corner_side(dims, i, 2)),
    );
    lemma_grained_sum(x, y, 873);
    lemma_grained_sum(sum(x, y), z, 873);
}

/// The sign of a difference is that of the numbers.
pub proof fn lemma_difference_sign(a: int, b: int)
    ensures
        (difference(a, b) > 0) == (a > b),
        (difference(a, b) < 0) == (a < b),
{
    let n = a - b;
    lemma_odd(0, 1);
    if n != 0 {
        lemma_rounded_positive(magnitude_of(n) as nat, 1, 53);
    }
}

/// The sign of a product of depths.
proof fn lemma_depth_product(g: Seq<Seq<int>>, dims: Seq<nat>, i: int, j: int, z: int)
    requires
        plain_matrix(g),
        plain(z),
        0 <= i < 8,
        0 <= j < 8,
    ensures
        ({
            let (a, b) = (depth_of(g, dims, i, z), depth_of(g, dims, j, z));
            (product(a, b) > 0) == ((a > 0 && b > 0) || (a < 0 && b < 0))
        }),
{
    let (a, b) = (depth_of(g, dims, i, z), depth_of(g, dims, j, z));
    lemma_corner_grain(g, dims, i, 2);
    lemma_corner_grain(g, dims, j, 2);
    lemma_finer(z, 874, 873);
    lemma_grained_sum(corner(g, dims, i)[2], z, 873);
    lemma_grained_sum(corner(g, dims, j)[2], z, 873);
    lemma_product(a, b, 873, 873);
    let n = grains(a, 873) * grains(b, 873) * pow2(672);
    let u = one() as int;
    lemma_pow2_pos(1074);
    assert(n > 0 <==> a * b > 0) by (nonlinear_arith)
        requires
            a * b == n * u,
            u > 0,
    ;
    lemma_odd(0, 1);
    if n > 0 {
        lemma_rounded_positive(n as nat, 1, 53);
    } else if n < 0 {
        lemma_rounded_positive((-n) as nat, 1, 53);
    }
    assert((a * b > 0) == ((a > 0 && b > 0) || (a < 0 && b < 0))) by {
        if a > 0 && b > 0 {
            assert(a * b > 0) by (nonlinear_arith)
                requires
                    a > 0,
                    b > 0,
            ;
        } else if a < 0 && b < 0 {
            assert(a * b > 0) by (nonlinear_arith)
                requires
                    a < 0,
                    b < 0,
            ;
        } else {
            assert(a * b <= 0) by (nonlinear_arith)
                requires
                    (a >= 0 && b <= 0) || (a <= 0 && b >= 0),
            ;
        }
    }
}

/// A product that is more than nothing has factors of one sign.
proof fn lemma_product_sign(a: int, b: int)
    ensures
        product(a, b) > 0 ==> (a > 0 && b > 0) || (a < 0 && b < 0),
{
    lemma_pow2_pos(1074);
    lemma_odd(0, one());
    if !((a > 0 && b > 0) || (a < 0 && b < 0)) {
        assert(a * b <= 0) by (nonlinear_arith)
            requires
                (a >= 0 && b <= 0) || (a <= 0 && b >= 0),
        ;
        lemma_monotone(a * b, 0, one());
    }
}

/// A product that is lost has a factor that is next to nothing.
proof fn lemma_product_lost(a: int, b: int)
    requires
        (a > 0 && b > 0) || (a < 0 && b < 0),
        product(a, b) <= 0,
    ensures
        magnitude_of(a) * magnitude_of(b) < one(),
{
    let (x, y) = (magnitude_of(a), magnitude_of(b));
    lemma_pow2_pos(1074);
    lemma_abs_product(a, b, x, y);
    assert(a * b > 0) by (nonlinear_arith)
        requires
            (a > 0 && b > 0) || (a < 0 && b < 0),
    ;
    if x * y >= one() {
        lemma_rounded_positive((x * y) as nat, one(), 53);
    }
}

/// The edge does not meet the plane.
pub open spec fn misses(g: Seq<Seq<int>>, dims: Seq<nat>, z: int, n: int) -> bool {
    let (i, j) = edges()[n];
    product(depth_of(g, dims, i, z), depth_of(g, dims, j, z)) > 0
}

/// There is no slice as long as every edge misses the plane.
proof fn lemma_no_slice(g: Seq<Seq<int>>, dims: Seq<nat>, z: int, n: nat)
    ensures
        slice_upto(g, dims, z, n) is None <==> (forall|k: int|
            0 <= k < n ==> #[trigger] misses(g, dims, z, k)),
    decreases n,
{
    if n > 0 {
        let m = (n - 1) as nat;
        lemma_no_slice(g, dims, z, m);
        let (i, j) = edges()[m as int];
        let acc = slice_upto(g, dims, z, m);
        assert(slice_upto(g, dims, z, n) == with_edge(
            acc,
            corner(g, dims, i),
            corner(g, dims, j),
            z,
        ));
        if slice_upto(g, dims, z, n) is None {
            assert(misses(g, dims, z, m as int));
            assert(acc is None);
        } else if forall|k: int| 0 <= k < n ==> #[trigger] misses(g, dims, z, k) {
            assert(misses(g, dims, z, m as int));
        }
    }
}

/// A plane that every edge misses has all corners on one side.
proof fn lemma_one_side(g: Seq<Seq<int>>, dims: Seq<nat>, z: int)
    requires
        forall|k: int| 0 <= k < 12 ==> #[trigger] misses(g, dims, z, k),
    ensures
        (forall|i: int| 0 <= i < 8 ==> #[trigger] depth_of(g, dims, i, z) > 0) || (forall|i: int|
            0 <= i < 8 ==> #[trigger] depth_of(g, dims, i, z) < 0),
{
    assert forall|k: int| 0 <= k < 12 implies ({
        let (i, j) = #[trigger] edges()[k];
        let (a, b) = (depth_of(g, dims, i, z), depth_of(g, dims, j, z));
        (a > 0 && b > 0) || (a < 0 && b < 0)
    }) by {
        assert(misses(g, dims, z, k));
        let (i, j) = edges()[k];
        lemma_product_sign(depth_of(g, dims, i, z), depth_of(g, dims, j, z));
    }
    assert(edges()[0] == (0int, 1int));
    assert(edges()[1] == (0int, 2int));
    assert(edges()[2] == (0int, 4int));
    assert(edges()[3] == (1int, 3int));
    assert(edges()[4] == (1int, 5int));
    assert(edges()[6] == (2int, 6int));
    assert(edges()[7] == (3int, 7int));
    let s = |i: int| depth_of(g, dims, i, z);
    assert forall|i: int| 0 <= i < 8 implies (s(0) > 0 ==> #[trigger] depth_of(g, dims, i, z) > 0)
        && (s(0) < 0 ==> depth_of(g, dims, i, z) < 0) by {
        assert(i == 0 || i == 1 || i == 2 || i == 3 || i == 4 || i == 5 || i == 6 || i == 7);
    }
    assert(s(0) > 0 || s(0) < 0);
}

/// A depth that is not far outside the box, but for less than 2^-533 of a pixel.
pub open spec fn at_hand(z: int, r: int) -> bool {
    magnitude_of(z) <= r + pow2(540)
}

/// An edge with both ends well away from the plane misses it.
proof fn lemma_well_away(g: Seq<Seq<int>>, dims: Seq<nat>, z: int, k: int)
    requires
        0 <= k < 12,
        ({
            let (i, j) = edges()[k];
            let (a, b) = (corner(g, dims, i)[2] - z, corner(g, dims, j)[2] - z);
            (a > pow2(540) && b > pow2(540)) || (a < -pow2(540) && b < -pow2(540))
        }),
    ensures
        misses(g, dims, z, k),
{
    let (i, j) = edges()[k];
    let (a, b) = (corner(g, dims, i)[2] - z, corner(g, dims, j)[2] - z);
    let p = pow2(540) as int;
    lemma_pow2_pos(540);
    lemma2_to64_rest();
    lemma_exact(1, 540, 53);
    assert(1 * pow2(540) == pow2(540));
    lemma_odd(p, 1);
    if a > 0 {
        lemma_monotone(p, a, 1);
        lemma_monotone(p, b, 1);
    } else {
        lemma_monotone(a, -p, 1);
        lemma_monotone(b, -p, 1);
    }
    let (x, y) = (depth_of(g, dims, i, z), depth_of(g, dims, j, z));
    if product(x, y) <= 0 {
        lemma_product_lost(x, y);
        lemma_pow2_adds(540, 540);
        lemma_pow2_strictly_increases(1074, 1080);
        assert(magnitude_of(x) * magnitude_of(y) >= p * p) by (nonlinear_arith)
            requires
                magnitude_of(x) >= p,
                magnitude_of(y) >= p,
                p > 0,
        ;
    }
}

/// There is a slice at exactly those depths that the box reaches. A depth that is out of the box by
/// less than 2^-533 of a pixel may have one, too, unless it is a multiple of 2^-200.
pub proof fn slices_exist_within_the_box(g: Seq<Seq<int>>, dims: Seq<nat>, z: int)
    requires
        plain_matrix(g),
    ensures
        magnitude_of(z) <= half_reach(g[2], dims) ==> slice_of(g, dims, z) is Some,
        slice_of(g, dims, z) is Some ==> at_hand(z, half_reach(g[2], dims)),
        plain(z) && slice_of(g, dims, z) is Some ==> magnitude_of(z) <= half_reach(g[2], dims),
{
    let r = half_reach(g[2], dims);
    lemma_no_slice(g, dims, z, 12);
    lemma_pow2_pos(540);
    assert(plain(g[2][0]) && plain(g[2][1]) && plain(g[2][2]));
    half_reach_is_half(g[2], dims);
    if magnitude_of(z) > r {
        assert forall|k: int| 0 <= k < 12 && (plain(z) || !at_hand(z, r)) implies #[trigger] misses(
            g,
            dims,
            z,
            k,
        ) by {
            let (i, j) = edges()[k];
            lemma_corner_bounded(g, dims, i, 2);
            lemma_corner_bounded(g, dims, j, 2);
            if plain(z) {
                lemma_difference_sign(corner(g, dims, i)[2], z);
                lemma_difference_sign(corner(g, dims, j)[2], z);
                lemma_depth_product(g, dims, i, j, z);
            } else {
                lemma_well_away(g, dims, z, k);
            }
        }
    } else if forall|k: int| 0 <= k < 12 ==> #[trigger] misses(g, dims, z, k) {
        lemma_one_side(g, dims, z);
        lemma_far_corner(g, dims, 2);
        let i = far_corner(g[2]);
        lemma_difference_sign(corner(g, dims, i)[2], z);
        lemma_difference_sign(corner(g, dims, 7 - i)[2], z);
        assert(depth_of(g, dims, i, z) >= 0);
        assert(depth_of(g, dims, 7 - i, z) <= 0);
        assert(false);
    }
}

/// The share of an edge up to where it meets a plane, from the depths of its ends.
pub open spec fn share(da: int, db: int) -> int {
    quotient(da, difference(da, db))
}

/// Where the line from `a` to `b` is after a share of its way.
pub open spec fn met_at(a: int, b: int, t: int) -> int {
    sum(a, product(t, difference(b, a)))
}

/// The points where the edge from `a` to `b` meets the plane at depth `z`, along axis `k`.
pub open spec fn points_of(a: Seq<int>, b: Seq<int>, z: int, k: int) -> Seq<int> {
    let (da, db) = (difference(a[2], z), difference(b[2], z));
    if product(da, db) > 0 {
        Seq::empty()
    } else if da == db {
        seq![a[k], b[k]]
    } else {
        seq![met_at(a[k], b[k], share(da, db))]
    }
}

/// The points that an edge contributes to a slice, along axis `k`.
#[verifier::opaque]
pub open spec fn edge_points(g: Seq<Seq<int>>, dims: Seq<nat>, z: int, n: int, k: int) -> Seq<int> {
    let (i, j) = edges()[n];
    points_of(corner(g, dims, i), corner(g, dims, j), z, k)
}

/// One of the first `n` edges contributes the point.
pub open spec fn contributed(
    g: Seq<Seq<int>>,
    dims: Seq<nat>,
    z: int,
    n: nat,
    k: int,
    x: int,
) -> bool {
    exists|e: int, i: int|
        0 <= e < n && 0 <= i < edge_points(g, dims, z, e, k).len() && #[trigger] edge_points(
            g,
            dims,
            z,
            e,
            k,
        )[i] == x
}

/// The numbers from `lo` to `hi` are the range of the points along axis `k`.
pub open spec fn ranges(
    g: Seq<Seq<int>>,
    dims: Seq<nat>,
    z: int,
    n: nat,
    k: int,
    lo: int,
    hi: int,
) -> bool {
    &&& contributed(g, dims, z, n, k, lo)
    &&& contributed(g, dims, z, n, k, hi)
    &&& forall|e: int, i: int|
        0 <= e < n && 0 <= i < edge_points(g, dims, z, e, k).len() ==> lo <= (
        #[trigger] edge_points(g, dims, z, e, k)[i]) <= hi
}

/// What an edge does to the bounding box.
proof fn lemma_with_edge(acc: Option<Seq<int>>, a: Seq<int>, b: Seq<int>, z: int, k: int)
    requires
        0 <= k < 2,
    ensures
        ({
            let p = points_of(a, b, z, k);
            let c = with_edge(acc, a, b, z);
            if p.len() == 0 {
                c == acc
            } else {
                &&& c is Some
                &&& forall|i: int|
                    0 <= i < p.len() ==> c->Some_0[2 * k] <= (#[trigger] p[i]) <= c->Some_0[2 * k
                        + 1]
                &&& acc matches Some(o) ==> c->Some_0[2 * k] <= o[2 * k] && o[2 * k + 1]
                    <= c->Some_0[2 * k + 1]
                &&& p.contains(c->Some_0[2 * k]) || (acc matches Some(o) && c->Some_0[2 * k]
                    == o[2 * k])
                &&& p.contains(c->Some_0[2 * k + 1]) || (acc matches Some(o) && c->Some_0[2 * k
                    + 1] == o[2 * k + 1])
            }
        }),
{
    let p = points_of(a, b, z, k);
    assert(k == 0 || k == 1);
    if p.len() > 0 {
        assert(p.contains(p[0]));
        if p.len() == 2 {
            assert(p.contains(p[1]));
        }
    }
}

/// The bounding box of a slice is the range of the points that the edges contribute.
proof fn lemma_box(g: Seq<Seq<int>>, dims: Seq<nat>, z: int, n: nat, k: int)
    requires
        0 <= k < 2,
    ensures
        match slice_upto(g, dims, z, n) {
            Some(b) => ranges(g, dims, z, n, k, b[2 * k], b[2 * k + 1]),
            None => forall|e: int| 0 <= e < n ==> (#[trigger] edge_points(g, dims, z, e, k)).len() == 0,
        },
    decreases n,
{
    if n > 0 {
        let m = (n - 1) as nat;
        lemma_box(g, dims, z, m, k);
        let acc = slice_upto(g, dims, z, m);
        let p = edge_points(g, dims, z, m as int, k);
        let c = slice_upto(g, dims, z, n);
        lemma_step_box(g, dims, z, m, k);
        if p.len() == 0 {
            if let Some(o) = acc {
                lemma_contributed_more(g, dims, z, m, k, o[2 * k]);
                lemma_contributed_more(g, dims, z, m, k, o[2 * k + 1]);
            }
        } else {
            let (lo, hi) = (c->Some_0[2 * k], c->Some_0[2 * k + 1]);
            if let Some(o) = acc {
                lemma_contributed_more(g, dims, z, m, k, o[2 * k]);
                lemma_contributed_more(g, dims, z, m, k, o[2 * k + 1]);
            }
            if p.contains(lo) {
                lemma_contributed_last(g, dims, z, m, k, lo);
            }
            if p.contains(hi) {
                lemma_contributed_last(g, dims, z, m, k, hi);
            }
            assert forall|e: int, i: int|
                0 <= e < n && 0 <= i < edge_points(g, dims, z, e, k).len() implies lo <= (
            #[trigger] edge_points(g, dims, z, e, k)[i]) <= hi by {
                if e == m {
                    assert(lo <= p[i] <= hi);
                }
            }
        }
    }
}

/// What one more edge does to the bounding box.
proof fn lemma_step_box(g: Seq<Seq<int>>, dims: Seq<nat>, z: int, m: nat, k: int)
    requires
        0 <= k < 2,
    ensures
        ({
            let p = edge_points(g, dims, z, m as int, k);
            let acc = slice_upto(g, dims, z, m);
            let c = slice_upto(g, dims, z, m + 1);
            if p.len() == 0 {
                c == acc
            } else {
                &&& c is Some
                &&& forall|i: int|
                    0 <= i < p.len() ==> c->Some_0[2 * k] <= (#[trigger] p[i]) <= c->Some_0[2 * k
                        + 1]
                &&& acc matches Some(o) ==> c->Some_0[2 * k] <= o[2 * k] && o[2 * k + 1]
                    <= c->Some_0[2 * k + 1]
                &&& p.contains(c->Some_0[2 * k]) || (acc matches Some(o) && c->Some_0[2 * k]
                    == o[2 * k])
                &&& p.contains(c->Some_0[2 * k + 1]) || (acc matches Some(o) && c->Some_0[2 * k
                    + 1] == o[2 * k + 1])
            }
        }),
{
    reveal(edge_points);
    let (i, j) = edges()[m as int];
    lemma_with_edge(
        slice_upto(g, dims, z, m),
        corner(g, dims, i),
        corner(g, dims, j),
        z,
        k,
    );
}

proof fn lemma_contributed_last(g: Seq<Seq<int>>, dims: Seq<nat>, z: int, m: nat, k: int, x: int)
    requires
        edge_points(g, dims, z, m as int, k).contains(x),
    ensures
        contributed(g, dims, z, m + 1, k, x),
{
    let p = edge_points(g, dims, z, m as int, k);
    let i = choose|i: int| 0 <= i < p.len() && p[i] == x;
    assert(edge_points(g, dims, z, m as int, k)[i] == x);
}

proof fn lemma_contributed_more(g: Seq<Seq<int>>, dims: Seq<nat>, z: int, n: nat, k: int, x: int)
    requires
        contributed(g, dims, z, n, k, x),
    ensures
        contributed(g, dims, z, n + 1, k, x),
{
    let (e, i) = choose|e: int, i: int|
        0 <= e < n && 0 <= i < edge_points(g, dims, z, e, k).len() && #[trigger] edge_points(
            g,
            dims,
            z,
            e,
            k,
        )[i] == x;
    assert(edge_points(g, dims, z, e, k)[i] == x);
}

/// The share of an edge up to a plane that its ends lie on different sides of is one from 0 to 1.
proof fn lemma_share(da: int, db: int)
    requires
        in_format(da),
        da != db,
        (da >= 0 && db <= 0) || (da <= 0 && db >= 0),
    ensures
        0 <= share(da, db) <= one(),
        difference(da, db) != 0,
        in_format(share(da, db)),
{
    let u = one() as int;
    lemma_pow2_pos(1074);
    lemma_difference_sign(da, db);
    let e = difference(da, db);
    let (n, d) = (magnitude_of(da), magnitude_of(e));
    lemma_odd(da, 1);
    lemma_odd(da - db, 1);
    if da >= db {
        lemma_monotone(da, da - db, 1);
    } else {
        lemma_monotone(-da, -(da - db), 1);
    }
    assert(n <= d);
    assert(0 <= n * u <= d * u) by (nonlinear_arith)
        requires
            0 <= n <= d,
            u > 0,
    ;
    rounding_is_monotonic((n * u) as nat, (d * u) as nat, d as nat, 53);
    assert(d * u == u * d) by (nonlinear_arith);
    lemma_rounded_scale(u as nat, 1, d as nat, 53);
    assert(1 * d == d);
    whole_numbers_are_exact(1);
    assert(1 * one() == one());
    assert((-da) * u == -(da * u)) by (nonlinear_arith);
    lemma_in_format(n * u, d as nat);
}

/// A share of a way is no longer than the way.
proof fn lemma_share_of(t: int, d: int)
    requires
        0 <= t <= one(),
        in_format(d),
    ensures
        d >= 0 ==> 0 <= product(t, d) <= d,
        d <= 0 ==> d <= product(t, d) <= 0,
        magnitude_of(t * d) <= one() * magnitude_of(d),
{
    let u = one() as int;
    lemma_pow2_pos(1074);
    lemma_odd(0, one());
    lemma_abs_product(t, d, u, magnitude_of(d));
    let m = magnitude_of(d);
    assert(1 * u == u);
    lemma_odd(d, 1);
    assert(u * m == m * u) by (nonlinear_arith);
    lemma_rounded_scale(m as nat, 1, one(), 53);
    assert(round_signed(m * u, one()) == m) by {
        assert(m * u >= 0) by (nonlinear_arith)
            requires
                m >= 0,
                u > 0,
        ;
    }
    lemma_odd(m * u, one());
    if d >= 0 {
        assert(0 <= t * d) by (nonlinear_arith)
            requires
                t >= 0,
                d >= 0,
        ;
        lemma_monotone(0, t * d, one());
        lemma_monotone(t * d, m * u, one());
    } else {
        assert(t * d <= 0) by (nonlinear_arith)
            requires
                t >= 0,
                d <= 0,
        ;
        lemma_monotone(t * d, 0, one());
        lemma_monotone(-(m * u), t * d, one());
    }
}

/// A share of a way, there or back, is no longer than the way.
proof fn lemma_share_upto(t: int, d: int)
    requires
        -one() <= t <= one(),
        in_format(d),
    ensures
        magnitude_of(product(t, d)) <= magnitude_of(d),
{
    lemma_signed(t, d);
    if t >= 0 {
        lemma_share_of(t, d);
    } else {
        lemma_share_of(-t, d);
    }
}

/// A point between two others reaches no further than they do, but for one part in 2^51.
proof fn lemma_point_bounded(a: int, b: int, t: int, r: int)
    requires
        0 <= t <= one(),
        in_format(a),
        -r <= a <= r,
        -r <= b <= r,
    ensures
        0x8_0000_0000_0000 * (magnitude_of(met_at(a, b, t)) - r) <= r,
{
    let d = difference(b, a);
    lemma_in_format(b - a, 1);
    lemma_share_of(t, d);
    let p = product(t, d);
    lemma_sum_error(b, a);
    lemma_sum_error(a, d);
    if d >= 0 {
        lemma_monotone(a, a + p, 1);
        lemma_monotone(a + p, a + d, 1);
    } else {
        lemma_monotone(a + p, a, 1);
        lemma_monotone(a + d, a + p, 1);
    }
}

/// The plane lies between the ends of an edge, at those depths.
pub open spec fn between(da: int, db: int) -> bool {
    (da >= 0 && db <= 0) || (da <= 0 && db >= 0)
}

/// The depths of the ends of an edge that meets a plane: the plane lies between them or next to one
/// of them, or the edge lies along the plane.
proof fn lemma_meeting_edge(g: Seq<Seq<int>>, dims: Seq<nat>, z: int, n: int)
    requires
        plain_matrix(g),
        0 <= n < 12,
        !misses(g, dims, z, n),
    ensures
        ({
            let (i, j) = edges()[n];
            let (da, db) = (depth_of(g, dims, i, z), depth_of(g, dims, j, z));
            &&& 0 <= i < 8 && 0 <= j < 8
            &&& between(da, db) || grazing(da, db) || da == db
            &&& in_format(da)
            &&& in_format(db)
        }),
{
    let (i, j) = edges()[n];
    let (a, b) = (corner(g, dims, i)[2], corner(g, dims, j)[2]);
    let (da, db) = (depth_of(g, dims, i, z), depth_of(g, dims, j, z));
    lemma_in_format(a - z, 1);
    lemma_in_format(b - z, 1);
    if !between(da, db) && a != b {
        lemma_corner_grain(g, dims, i, 2);
        lemma_corner_grain(g, dims, j, 2);
        lemma_grained_negated(b, 873);
        lemma_grained_added(a, -b, 873);
        lemma_apart(a - b);
        lemma_far_end(a - z, b - z);
        lemma_product_lost(da, db);
        lemma_near_end(magnitude_of(da), magnitude_of(db));
    }
}

/// Different multiples of 2^-201 are not close to each other.
proof fn lemma_apart(v: int)
    requires
        grained(v, 873),
        v != 0,
    ensures
        magnitude_of(v) >= 2 * clod(),
{
    lemma_grains(v, 873);
    lemma_pow2_unfold(873);
    lemma_pow2_pos(873);
    let (n, p) = (grains(v, 873), pow2(873) as int);
    if n == 0 {
        assert(0 * p == 0);
    }
    lemma_abs_product(n, p, magnitude_of(n), p);
    assert(magnitude_of(n) * p >= p) by (nonlinear_arith)
        requires
            magnitude_of(n) >= 1,
            p > 0,
    ;
}

/// One of two numbers that are far apart is far from zero, also when it is rounded.
proof fn lemma_far_end(a: int, b: int)
    requires
        magnitude_of(a - b) >= 2 * clod(),
    ensures
        magnitude_of(round_signed(a, 1)) >= clod() || magnitude_of(round_signed(b, 1)) >= clod(),
{
    let p = clod();
    lemma_pow2_pos(872);
    lemma2_to64_rest();
    lemma_exact(1, 872, 53);
    assert(1 * pow2(872) == pow2(872));
    lemma_odd(p, 1);
    if a >= p {
        lemma_monotone(p, a, 1);
    } else if a <= -p {
        lemma_monotone(a, -p, 1);
    } else if b >= p {
        lemma_monotone(p, b, 1);
    } else {
        lemma_monotone(b, -p, 1);
    }
}

/// When one of two numbers is far from zero and their product is not, the other one is not, either.
proof fn lemma_near_end(x: int, y: int)
    requires
        0 <= x,
        0 <= y,
        x >= clod() || y >= clod(),
        x * y < one(),
    ensures
        (x <= speck() && y >= clod()) || (y <= speck() && x >= clod()),
{
    lemma_pow2_adds(202, 872);
    lemma_pow2_pos(202);
    lemma_pow2_pos(872);
    let (p, q) = (speck(), clod());
    if y >= q && x > p {
        assert(x * y >= p * q) by (nonlinear_arith)
            requires
                x > p,
                y >= q,
                p > 0,
                q > 0,
        ;
    } else if x >= q && y > p {
        assert(x * y >= q * p) by (nonlinear_arith)
            requires
                y > p,
                x >= q,
                p > 0,
                q > 0,
        ;
        assert(q * p == p * q) by (nonlinear_arith);
    }
}

/// A slice reaches no further than the box: its bounding box lies within the half reach along each
/// axis, but for one part in 2^51.
pub proof fn slices_stay_within_the_box(g: Seq<Seq<int>>, dims: Seq<nat>, z: int, k: int)
    requires
        plain_matrix(g),
        0 <= k < 2,
    ensures
        slice_of(g, dims, z) matches Some(b) ==> {
            let r = half_reach(g[k], dims);
            &&& b[2 * k] <= b[2 * k + 1]
            &&& 0x8_0000_0000_0000 * (magnitude_of(b[2 * k]) - r) <= r
            &&& 0x8_0000_0000_0000 * (magnitude_of(b[2 * k + 1]) - r) <= r
        },
{
    let r = half_reach(g[k], dims);
    assert(plain(g[k][0]) && plain(g[k][1]) && plain(g[k][2]));
    half_reach_is_half(g[k], dims);
    lemma_box(g, dims, z, 12, k);
    if let Some(b) = slice_of(g, dims, z) {
        assert forall|e: int, i: int|
            0 <= e < 12 && 0 <= i < edge_points(g, dims, z, e, k).len() implies 0x8_0000_0000_0000
            * (magnitude_of(#[trigger] edge_points(g, dims, z, e, k)[i]) - r) <= r by {
            lemma_edge_bounded(g, dims, z, e, i, k);
        }
    }
}

/// A point of an edge reaches no further than the box, but for one part in 2^51.
proof fn lemma_edge_bounded(g: Seq<Seq<int>>, dims: Seq<nat>, z: int, e: int, i: int, k: int)
    requires
        plain_matrix(g),
        0 <= k < 2,
        0 <= e < 12,
        0 <= i < edge_points(g, dims, z, e, k).len(),
    ensures
        0x8_0000_0000_0000 * (magnitude_of(edge_points(g, dims, z, e, k)[i]) - half_reach(g[k], dims))
            <= half_reach(g[k], dims),
{
    let r = half_reach(g[k], dims);
    assert(plain(g[k][0]) && plain(g[k][1]) && plain(g[k][2]));
    half_reach_is_half(g[k], dims);
    reveal(edge_points);
    lemma_meeting_edge(g, dims, z, e);
    let (x, y) = edges()[e];
    lemma_corner_bounded(g, dims, x, k);
    lemma_corner_bounded(g, dims, y, k);
    let (da, db) = (depth_of(g, dims, x, z), depth_of(g, dims, y, z));
    if da != db {
        let (a, b) = (corner(g, dims, x)[k], corner(g, dims, y)[k]);
        lemma_half_reach_large(g[k], dims);
        lemma_meeting_point(a, b, da, db, r);
    }
}

/// Where an edge meets a plane, it reaches no further than the box, but for one part in 2^51.
proof fn lemma_meeting_point(a: int, b: int, da: int, db: int, r: int)
    requires
        da != db,
        in_format(da),
        in_format(db),
        between(da, db) || grazing(da, db),
        in_format(a),
        -r <= a <= r,
        -r <= b <= r,
        r == 0 || r >= 0x40_0000_0000_0000,
    ensures
        0x8_0000_0000_0000 * (magnitude_of(met_at(a, b, share(da, db))) - r) <= r,
{
    let t = share(da, db);
    lemma_pow2_pos(1074);
    if between(da, db) {
        lemma_share(da, db);
        lemma_point_bounded(a, b, t, r);
    } else {
        lemma_grazing_shares(da, db);
        if t == one() {
            lemma_point_bounded(a, b, t, r);
        } else if r == 0 {
            lemma_odd(0, 1);
            zero_product(t);
            assert(t * 0 == 0);
            assert(difference(b, a) == 0);
            assert(product(t, 0) == 0) by {
                lemma_odd(0, one());
            }
        } else {
            lemma_point_grazed(a, b, t, r);
        }
    }
}

/// A quotient is close to the number it stands for.
pub proof fn lemma_quotient_close(a: int, b: int)
    requires
        b != 0,
    ensures
        0x20_0000_0000_0000 * magnitude_of(quotient(a, b) * b - a * one()) <= magnitude_of(a) * one()
            + 0x20_0000_0000_0000 * magnitude_of(b),
{
    let u = one() as int;
    lemma_pow2_pos(1074);
    lemma_abs_product(a, u, magnitude_of(a), u);
    let q = quotient(a, b);
    if b < 0 {
        let d = (-b) as nat;
        lemma_quotient_error((-a) * u, d);
        assert((-a) * u == -(a * u)) by (nonlinear_arith);
        assert(q * b == -(q * d)) by (nonlinear_arith)
            requires
                d == -b,
        ;
    } else {
        lemma_quotient_error(a * u, b as nat);
    }
}

/// The shares of an edge from both ends add up to 1, but for 5 parts in 2^53.
proof fn lemma_two_shares(da: int, db: int)
    requires
        in_format(da),
        in_format(db),
        da != db,
        (da >= 0 && db <= 0) || (da <= 0 && db >= 0),
    ensures
        0x20_0000_0000_0000 * magnitude_of(share(da, db) + share(-db, -da) - one()) <= 5 * one(),
{
    let u = one() as int;
    lemma_one_is_large();
    lemma_share(da, db);
    lemma_signed(da, db);
    lemma_signed(db, da);
    let e = difference(da, db);
    assert(difference(-db, -da) == e);
    let (t, v) = (share(da, db), share(-db, -da));
    lemma_quotient_close(da, e);
    lemma_quotient_close(-db, e);
    lemma_sum_error(da, db);
    lemma_shares_add_up(da, db, e, t, v, u);
}

proof fn lemma_shares_add_up(da: int, db: int, e: int, t: int, v: int, u: int)
    requires
        u >= 0x8000_0000_0000_0000_0000_0000_0000_0000,
        e != 0,
        (da >= 0 && db <= 0) || (da <= 0 && db >= 0),
        0x20_0000_0000_0000 * magnitude_of(e - (da - db)) <= magnitude_of(da - db),
        0x20_0000_0000_0000 * magnitude_of(t * e - da * u) <= magnitude_of(da) * u
            + 0x20_0000_0000_0000 * magnitude_of(e),
        0x20_0000_0000_0000 * magnitude_of(v * e - (-db) * u) <= magnitude_of(-db) * u
            + 0x20_0000_0000_0000 * magnitude_of(e),
    ensures
        0x20_0000_0000_0000 * magnitude_of(t + v - u) <= 5 * u,
{
    let k = 0x20_0000_0000_0000int;
    let (s, m) = (magnitude_of(da - db), magnitude_of(e));
    assert(s <= 2 * m);
    let (x, y) = (t * e - da * u, v * e - (-db) * u);
    let f = da - db - e;
    let w = magnitude_of(f);
    let z = u * f;
    lemma_abs_product(u, f, u, w);
    let su = s * u;
    assert(k * (u * w) <= su) by (nonlinear_arith)
        requires
            k * w <= s,
            su == s * u,
            u > 0,
    ;
    let d = t + v - u;
    assert(d * e == x + y + z) by {
        assert(d * e == t * e + v * e - u * e) by (nonlinear_arith)
            requires
                d == t + v - u,
        ;
        assert(z == u * da - u * db - u * e) by (nonlinear_arith)
            requires
                z == u * f,
                f == da - db - e,
        ;
        assert(u * da == da * u) by (nonlinear_arith);
        assert((-db) * u == -(u * db)) by (nonlinear_arith);
    }
    let (p, q) = (magnitude_of(da) * u, magnitude_of(-db) * u);
    assert(p + q == su) by (nonlinear_arith)
        requires
            p == magnitude_of(da) * u,
            q == magnitude_of(-db) * u,
            su == s * u,
            s == magnitude_of(da) + magnitude_of(-db),
    ;
    let n = magnitude_of(d);
    lemma_abs_product(d, e, n, m);
    let mu = m * u;
    assert(su <= 2 * mu) by (nonlinear_arith)
        requires
            s <= 2 * m,
            su == s * u,
            mu == m * u,
            u > 0,
    ;
    lemma_three_terms(k, x, y, z);
    assert(k * (n * m) <= 4 * mu + 2 * (k * m));
    assert(k * n <= 4 * u + 2 * k) by (nonlinear_arith)
        requires
            k * (n * m) <= 4 * (m * u) + 2 * (k * m),
            m > 0,
    ;
}

proof fn lemma_three_terms(k: int, x: int, y: int, z: int)
    requires
        k > 0,
    ensures
        k * magnitude_of(x + y + z) <= k * magnitude_of(x) + k * magnitude_of(y) + k * magnitude_of(z),
{
    let (a, b, c, d) = (magnitude_of(x), magnitude_of(y), magnitude_of(z), magnitude_of(x + y + z));
    assert(k * d <= k * a + k * b + k * c) by (nonlinear_arith)
        requires
            k > 0,
            d <= a + b + c,
    ;
}

/// A product with a number up to 1 is close to the number it stands for.
proof fn lemma_share_error(t: int, d: int, r: int)
    requires
        -one() <= t <= one(),
        magnitude_of(d) <= 3 * r,
    ensures
        0x20_0000_0000_0000 * magnitude_of(product(t, d) * one() - t * d) <= 3 * (r * one())
            + 0x20_0000_0000_0000 * one(),
{
    let u = one() as int;
    lemma_product_error(t, d);
    lemma_abs_product(t, d, u, 3 * r);
    assert(u * (3 * r) == 3 * (r * u)) by (nonlinear_arith);
}

/// Two shares of a way that add up to 1 make the way, but for some parts in 2^53.
proof fn lemma_two_products(t: int, v: int, d: int, r: int)
    requires
        -one() <= t <= one(),
        -one() <= v <= one(),
        0x20_0000_0000_0000 * magnitude_of(t + v - one()) <= 5 * one(),
        magnitude_of(d) <= 3 * r,
        r > 0,
    ensures
        0x20_0000_0000_0000 * magnitude_of(product(t, d) + product(v, d) - d) <= 21 * r + 2
            * 0x20_0000_0000_0000,
{
    let u = one() as int;
    let k = 0x20_0000_0000_0000int;
    lemma_one_is_large();
    let (p, q) = (product(t, d), product(v, d));
    lemma_share_error(t, d, r);
    lemma_share_error(v, d, r);
    let c = t + v - u;
    let x = p + q - d;
    let (e, f) = (p * u - t * d, q * u - v * d);
    assert(x * u == e + f + c * d) by (nonlinear_arith)
        requires
            x == p + q - d,
            c == t + v - u,
            e == p * u - t * d,
            f == q * u - v * d,
    ;
    let m = magnitude_of(c);
    lemma_abs_product(c, d, m, 3 * r);
    assert(k * (m * (3 * r)) <= 15 * (r * u)) by (nonlinear_arith)
        requires
            k * m <= 5 * u,
            r > 0,
    ;
    let n = magnitude_of(x);
    lemma_abs_product(x, u, n, u);
    let (g, ru) = (c * d, r * u);
    assert(k * magnitude_of(g) <= 15 * ru);
    assert(k * magnitude_of(e) <= 3 * ru + k * u);
    assert(k * magnitude_of(f) <= 3 * ru + k * u);
    assert(k * (n * u) <= 21 * ru + 2 * (k * u));
    assert(k * n <= 21 * r + 2 * k) by (nonlinear_arith)
        requires
            k * (n * u) <= 21 * (r * u) + 2 * (k * u),
            u > 0,
    ;
}

/// Points on opposite sides of the centre, met from opposite ends.
proof fn lemma_opposite_points(a: int, b: int, t: int, v: int, r: int)
    requires
        -one() <= t <= one(),
        -one() <= v <= one(),
        0x20_0000_0000_0000 * magnitude_of(t + v - one()) <= 5 * one(),
        -r <= a <= r,
        -r <= b <= r,
        r >= 0x40_0000_0000_0000,
    ensures
        0x1_0000_0000_0000 * magnitude_of(met_at(a, b, t) + met_at(-b, -a, v)) <= r,
{
    let d = difference(b, a);
    lemma_signed(a, b);
    assert(difference(-a, -b) == d);
    lemma_in_format(b - a, 1);
    lemma_sum_error(b, a);
    assert(magnitude_of(d) <= 3 * r);
    lemma_share_upto(t, d);
    lemma_share_upto(v, d);
    lemma_two_products(t, v, d, r);
    let (p, q) = (product(t, d), product(v, d));
    lemma_sum_error(a, p);
    lemma_sum_error(-b, q);
    lemma_added_up(a, b, p, q, d, sum(a, p), sum(-b, q), r);
}

proof fn lemma_added_up(a: int, b: int, p: int, q: int, d: int, x: int, y: int, r: int)
    requires
        -r <= a <= r,
        -r <= b <= r,
        r >= 0x40_0000_0000_0000,
        magnitude_of(p) <= 3 * r,
        magnitude_of(q) <= 3 * r,
        0x20_0000_0000_0000 * magnitude_of(d - (b - a)) <= 2 * r,
        0x20_0000_0000_0000 * magnitude_of(p + q - d) <= 21 * r + 2 * 0x20_0000_0000_0000,
        0x20_0000_0000_0000 * magnitude_of(x - (a + p)) <= magnitude_of(a + p),
        0x20_0000_0000_0000 * magnitude_of(y - (-b + q)) <= magnitude_of(-b + q),
    ensures
        0x1_0000_0000_0000 * magnitude_of(x + y) <= r,
{
}

/// The edge on the other side of the centre.
pub open spec fn opposite_edge(n: int) -> int {
    seq![11int, 10, 7, 9, 6, 8, 4, 2, 5, 3, 1, 0][n]
}

proof fn lemma_opposite_edge(n: int)
    requires
        0 <= n < 12,
    ensures
        0 <= opposite_edge(n) < 12,
        edges()[opposite_edge(n)] == (7 - edges()[n].1, 7 - edges()[n].0),
        0 <= edges()[n].0 < 8,
        0 <= edges()[n].1 < 8,
{
    assert(n == 0 || n == 1 || n == 2 || n == 3 || n == 4 || n == 5 || n == 6 || n == 7 || n == 8
        || n == 9 || n == 10 || n == 11);
}

/// Every point of a slice has a point of the opposite slice opposite to it, but for one part in
/// 2^48.
proof fn lemma_opposite(g: Seq<Seq<int>>, dims: Seq<nat>, z: int, e: int, i: int, k: int) -> (j: int)
    requires
        plain_matrix(g),
        0 <= k < 2,
        0 <= e < 12,
        0 <= i < edge_points(g, dims, z, e, k).len(),
    ensures
        0 <= j < edge_points(g, dims, -z, opposite_edge(e), k).len(),
        0x1_0000_0000_0000 * magnitude_of(
            edge_points(g, dims, z, e, k)[i] + edge_points(g, dims, -z, opposite_edge(e), k)[j],
        ) <= half_reach(g[k], dims),
{
    let r = half_reach(g[k], dims);
    assert(plain(g[k][0]) && plain(g[k][1]) && plain(g[k][2]));
    half_reach_is_half(g[k], dims);
    lemma_opposite_edge(e);
    let (x, y) = edges()[e];
    assert(edges()[opposite_edge(e)] == (7 - y, 7 - x));
    let (a, b) = (corner(g, dims, x), corner(g, dims, y));
    let (c, d) = (corner(g, dims, 7 - y), corner(g, dims, 7 - x));
    assert(edge_points(g, dims, z, e, k) == points_of(a, b, z, k)) by {
        reveal(edge_points);
    }
    assert(edge_points(g, dims, -z, opposite_edge(e), k) == points_of(c, d, -z, k)) by {
        reveal(edge_points);
    }
    lemma_opposite_corner(g, dims, x, k);
    lemma_opposite_corner(g, dims, y, k);
    lemma_opposite_corner(g, dims, x, 2);
    lemma_opposite_corner(g, dims, y, 2);
    assert(!misses(g, dims, z, e));
    lemma_meeting_edge(g, dims, z, e);
    lemma_corner_bounded(g, dims, x, k);
    lemma_corner_bounded(g, dims, y, k);
    lemma_half_reach_large(g[k], dims);
    lemma_opposite_ends(a, b, c, d, z, i, k, r)
}

/// The shares of an edge from both ends.
proof fn lemma_both_shares(da: int, db: int)
    requires
        in_format(da),
        in_format(db),
        da != db,
        between(da, db) || grazing(da, db),
    ensures
        -one() <= share(da, db) <= one(),
        -one() <= share(-db, -da) <= one(),
        0x20_0000_0000_0000 * magnitude_of(share(da, db) + share(-db, -da) - one()) <= 5 * one(),
{
    lemma_odd(da, 1);
    lemma_odd(db, 1);
    if between(da, db) {
        lemma_share(da, db);
        lemma_two_shares(da, db);
        lemma_share(-db, -da);
    } else {
        lemma_grazing_shares(da, db);
        lemma2_to64_rest();
        lemma_pow2_pos(1074);
        lemma_pow2_adds(406, 53);
        lemma_pow2_strictly_increases(459, 1074);
        lemma_pow2_strictly_increases(406, 1074);
    }
}

/// The points of opposite edges.
proof fn lemma_opposite_ends(
    a: Seq<int>,
    b: Seq<int>,
    c: Seq<int>,
    d: Seq<int>,
    z: int,
    i: int,
    k: int,
    r: int,
) -> (j: int)
    requires
        0 <= i < points_of(a, b, z, k).len(),
        c[k] == -b[k] && d[k] == -a[k],
        c[2] == -b[2] && d[2] == -a[2],
        in_format(a[k]) && in_format(b[k]),
        in_format(difference(a[2], z)) && in_format(difference(b[2], z)),
        ({
            let (da, db) = (difference(a[2], z), difference(b[2], z));
            between(da, db) || grazing(da, db) || da == db
        }),
        -r <= a[k] <= r,
        -r <= b[k] <= r,
        r == 0 || r >= 0x40_0000_0000_0000,
    ensures
        0 <= j < points_of(c, d, -z, k).len(),
        0x1_0000_0000_0000 * magnitude_of(points_of(a, b, z, k)[i] + points_of(c, d, -z, k)[j]) <= r,
{
    let (da, db) = (difference(a[2], z), difference(b[2], z));
    lemma_signed(a[2], z);
    lemma_signed(b[2], z);
    assert(difference(c[2], -z) == -db);
    assert(difference(d[2], -z) == -da);
    lemma_signed(db, da);
    assert(product(-db, -da) == product(da, db)) by {
        assert(db * da == da * db) by (nonlinear_arith);
    }
    if da == db {
        1 - i
    } else {
        let (x, y) = (a[k], b[k]);
        lemma_odd(da, 1);
        lemma_odd(db, 1);
        if r > 0 {
            lemma_both_shares(da, db);
            lemma_opposite_points(x, y, share(da, db), share(-db, -da), r);
        } else {
            lemma_odd(0, 1);
            lemma_meeting_point(x, y, da, db, 0);
            lemma_meeting_point(-y, -x, -db, -da, 0);
        }
        0
    }
}

/// The half reach of a rotated box is a multiple of 2^-201, so it is zero or large.
proof fn lemma_half_reach_large(row: Seq<int>, dims: Seq<nat>)
    requires
        plain(row[0]) && plain(row[1]) && plain(row[2]),
    ensures
        half_reach(row, dims) > 0 ==> half_reach(row, dims) >= 0x40_0000_0000_0000,
{
    let a = seq![magnitude_of(row[0]), magnitude_of(row[1]), magnitude_of(row[2])];
    let h = seq![half_side(dims[0]), half_side(dims[1]), half_side(dims[2])];
    assert forall|k: int| 0 <= k < 3 implies grained(#[trigger] product(a[k], h[k]), 873) by {
        assert(k == 0 || k == 1 || k == 2);
        if row[k] < 0 {
            lemma_grained_negated(row[k], 874);
        }
        lemma_half_side(dims[k]);
        lemma_product(a[k], h[k], 874, 1073);
    }
    let (x, y, z) = (product(a[0], h[0]), product(a[1], h[1]), product(a[2], h[2]));
    lemma_grained_sum(x, y, 873);
    lemma_grained_sum(sum(x, y), z, 873);
    let r = half_reach(row, dims);
    assert(grained(r, 873));
    lemma_grains(r, 873);
    lemma_pow2_pos(873);
    lemma2_to64_rest();
    lemma_pow2_strictly_increases(54, 873);
    let (n, p) = (grains(r, 873), pow2(873) as int);
    if r > 0 {
        assert(r >= p) by (nonlinear_arith)
            requires
                r == n * p,
                r > 0,
                p > 0,
        ;
    }
}

/// Opposite slices are opposite to each other: the bounding box at depth `-z` is the one at depth
/// `z`, point for point on the other side of the centre, but for one part in 2^48 of the half reach.
pub proof fn opposite_slices_are_opposite(g: Seq<Seq<int>>, dims: Seq<nat>, z: int, k: int)
    requires
        plain_matrix(g),
        0 <= k < 2,
    ensures
        slice_of(g, dims, z) is Some <==> slice_of(g, dims, -z) is Some,
        slice_of(g, dims, z) matches Some(b) ==> {
            let c = slice_of(g, dims, -z)->Some_0;
            let r = half_reach(g[k], dims);
            &&& 0x1_0000_0000_0000 * magnitude_of(c[2 * k] + b[2 * k + 1]) <= r
            &&& 0x1_0000_0000_0000 * magnitude_of(c[2 * k + 1] + b[2 * k]) <= r
        },
{
    assert(-(-z) == z);
    if slice_of(g, dims, z) is Some {
        lemma_opposite_exists(g, dims, z, k);
    } else if slice_of(g, dims, -z) is Some {
        lemma_opposite_exists(g, dims, -z, k);
    }
    if let Some(b) = slice_of(g, dims, z) {
        lemma_reaches_over(g, dims, z, k);
        lemma_reaches_over(g, dims, -z, k);
        assert(-(-z) == z);
    }
}

/// Where there is a slice, there is an opposite slice.
proof fn lemma_opposite_exists(g: Seq<Seq<int>>, dims: Seq<nat>, z: int, k: int)
    requires
        plain_matrix(g),
        0 <= k < 2,
        slice_of(g, dims, z) is Some,
    ensures
        slice_of(g, dims, -z) is Some,
{
    lemma_box(g, dims, z, 12, k);
    lemma_box(g, dims, -z, 12, k);
    let b = slice_of(g, dims, z)->Some_0;
    let (e, i) = choose|e: int, i: int|
        0 <= e < 12 && 0 <= i < edge_points(g, dims, z, e, k).len() && #[trigger] edge_points(
            g,
            dims,
            z,
            e,
            k,
        )[i] == b[2 * k];
    let j = lemma_opposite(g, dims, z, e, i, k);
    lemma_opposite_edge(e);
}

/// The opposite slice reaches at least as far as this one, but for one part in 2^48.
proof fn lemma_reaches_over(g: Seq<Seq<int>>, dims: Seq<nat>, z: int, k: int)
    requires
        plain_matrix(g),
        0 <= k < 2,
        slice_of(g, dims, z) is Some,
        slice_of(g, dims, -z) is Some,
    ensures
        ({
            let b = slice_of(g, dims, z)->Some_0;
            let c = slice_of(g, dims, -z)->Some_0;
            let r = half_reach(g[k], dims);
            &&& 0x1_0000_0000_0000 * (-b[2 * k] - c[2 * k + 1]) <= r
            &&& 0x1_0000_0000_0000 * (c[2 * k] + b[2 * k + 1]) <= r
        }),
{
    let b = slice_of(g, dims, z)->Some_0;
    let c = slice_of(g, dims, -z)->Some_0;
    lemma_box(g, dims, z, 12, k);
    lemma_box(g, dims, -z, 12, k);
    let (e, i) = choose|e: int, i: int|
        0 <= e < 12 && 0 <= i < edge_points(g, dims, z, e, k).len() && #[trigger] edge_points(
            g,
            dims,
            z,
            e,
            k,
        )[i] == b[2 * k];
    let j = lemma_opposite(g, dims, z, e, i, k);
    lemma_opposite_edge(e);
    assert(edge_points(g, dims, -z, opposite_edge(e), k)[j] <= c[2 * k + 1]);
    let (f, l) = choose|e: int, i: int|
        0 <= e < 12 && 0 <= i < edge_points(g, dims, z, e, k).len() && #[trigger] edge_points(
            g,
            dims,
            z,
            e,
            k,
        )[i] == b[2 * k + 1];
    let m = lemma_opposite(g, dims, z, f, l, k);
    lemma_opposite_edge(f);
    assert(c[2 * k] <= edge_points(g, dims, -z, opposite_edge(f), k)[m]);
}

} // verus!
