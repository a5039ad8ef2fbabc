//! A window that follows the content holds all of it.

use vstd::prelude::*;
use vstd::arithmetic::div_mod::{lemma_fundamental_div_mod, lemma_fundamental_div_mod_converse};
use vstd::arithmetic::power2::{
    lemma2_to64, lemma2_to64_rest, lemma_pow2_adds, lemma_pow2_pos, lemma_pow2_unfold, pow2,
};
use crate::accuracy::{lemma_abs_product, lemma_one_is_large, lemma_product_error, lemma_sum_error};
use crate::binary64::{
    ceiling_of, difference, floor_of, fraction, halves_are_exact, lemma_rounding_error,
    magnitude_of, one, product, quotient, round_signed, sum, whole_numbers_are_exact,
    zero_product,
};
use crate::geometry::{
    covering, fit_side, fit_sides, output_sides, reach, up_to_even, OutputSize,
};
use crate::grain::{grained, grains, lemma_finer, lemma_grains, lemma_is_grained};
use crate::rotation::{in_format, lemma_in_format, lemma_large_numbers_are_coarse};
use crate::rounding::lemma_rounded_positive;
use crate::slices::{
    half_reach, half_reach_is_half, lemma_monotone, lemma_odd, lemma_quotient_close, lemma_signed,
    lemma_two_halves, slices_exist_within_the_box, slices_stay_within_the_box,
};
use crate::subsampling::{plain, plain_matrix};
use crate::track::{
    added, axis_line, best_window, centres, depth_at, depths, fitted_velocity, follows, half,
    half_side, lines, mean, settled, slice_of, slices_upto, span, tracked_path, tracked_sides,
    tracked_window, two, window_along, window_on, window_side, windows_hold_every_slice, LineView,
    SliceView, WindowView,
};

verus! {

/// Frames at most: their depths are exact.
pub open spec fn most_frames() -> nat {
    100_000
}

/// A small multiple of one half is exact.
proof fn lemma_halves(n: int)
    requires
        -0x20_0000_0000_0000 < n < 0x20_0000_0000_0000,
    ensures
        round_signed(n * pow2(1073), 1) == n * pow2(1073),
        grained(n * pow2(1073), 1073),
{
    let h = pow2(1073) as int;
    lemma_is_grained(n, 1073);
    lemma_pow2_pos(1073);
    if n >= 0 {
        halves_are_exact(n as nat);
        assert(n * h >= 0) by (nonlinear_arith)
            requires
                n >= 0,
                h > 0,
        ;
    } else {
        halves_are_exact((-n) as nat);
        assert((-n) * h == -(n * h)) by (nonlinear_arith);
        assert(n * h < 0) by (nonlinear_arith)
            requires
                n < 0,
                h > 0,
        ;
    }
}

/// The depth of the middle of a frame, in halves of a frame.
pub open spec fn half_frames(k: int, d: nat) -> int {
    2 * k + 1 - d
}

/// Depths are exact.
proof fn lemma_depth(k: nat, d: nat)
    requires
        k < d,
        d <= most_frames(),
    ensures
        depth_at(k, half_side(d)) == half_frames(k as int, d) * pow2(1073),
        plain(depth_at(k, half_side(d))),
        fraction(k, 1) == k * one(),
{
    let h = pow2(1073) as int;
    let n = half_frames(k as int, d);
    lemma2_to64();
    halves_are_exact(1);
    assert(1 * h == h);
    assert(half() == h);
    whole_numbers_are_exact(k);
    whole_numbers_are_exact(d);
    lemma_two_halves(d);
    assert(d * (2 * h) == 2 * (d * h)) by (nonlinear_arith);
    assert(half_side(d) == d * h);
    assert(k * (2 * h) + h == (2 * k + 1) * h) by (nonlinear_arith);
    lemma_halves((2 * k + 1) as int);
    assert((2 * k + 1) * h - d * h == n * h) by (nonlinear_arith)
        requires
            n == 2 * k + 1 - d,
    ;
    lemma_halves(n);
    lemma_finer(n * h, 1073, 874);
}

/// A slice is listed with its depth and its bounding box.
proof fn lemma_slice_listed(g: Seq<Seq<int>>, dims: Seq<nat>, zc: int, n: nat, k: nat) -> (i: int)
    requires
        k < n,
        slice_of(g, dims, depth_at(k, zc)) is Some,
    ensures
        0 <= i < slices_upto(g, dims, zc, n).len(),
        slices_upto(g, dims, zc, n)[i].t == depth_at(k, zc),
        Some(slices_upto(g, dims, zc, n)[i].bb) == slice_of(g, dims, depth_at(k, zc)),
    decreases n,
{
    let m = (n - 1) as nat;
    if k == m {
        slices_upto(g, dims, zc, m).len() as int
    } else {
        lemma_slice_listed(g, dims, zc, m, k)
    }
}

/// Every listed slice is the slice of a frame.
proof fn lemma_listed_slice(g: Seq<Seq<int>>, dims: Seq<nat>, zc: int, n: nat, i: int) -> (k: nat)
    requires
        0 <= i < slices_upto(g, dims, zc, n).len(),
    ensures
        k < n,
        slices_upto(g, dims, zc, n)[i].t == depth_at(k, zc),
        Some(slices_upto(g, dims, zc, n)[i].bb) == slice_of(g, dims, depth_at(k, zc)),
    decreases n,
{
    let m = (n - 1) as nat;
    let front = slices_upto(g, dims, zc, m);
    if i == front.len() {
        m
    } else {
        lemma_listed_slice(g, dims, zc, m, i)
    }
}

proof fn lemma_listed_count(g: Seq<Seq<int>>, dims: Seq<nat>, zc: int, n: nat)
    ensures
        slices_upto(g, dims, zc, n).len() <= n,
    decreases n,
{
    if n > 0 {
        lemma_listed_count(g, dims, zc, (n - 1) as nat);
    }
}

/// What a frame adds to the sum of depths, in halves: its depth, when the box reaches that far.
pub open spec fn counted(k: int, d: nat, r: int) -> int {
    if magnitude_of(half_frames(k, d) * pow2(1073)) <= r {
        half_frames(k, d)
    } else {
        0
    }
}

/// The sum of the depths of the frames from `from` on, `n` of them, that the box reaches.
pub open spec fn depth_total(from: int, n: nat, d: nat, r: int) -> int
    decreases n,
{
    if n == 0 {
        0
    } else {
        depth_total(from, (n - 1) as nat, d, r) + counted(from + n - 1, d, r)
    }
}

/// A sum without its first term.
proof fn lemma_first_term(from: int, n: nat, d: nat, r: int)
    requires
        n > 0,
    ensures
        depth_total(from, n, d, r) == counted(from, d, r) + depth_total(
            from + 1,
            (n - 1) as nat,
            d,
            r,
        ),
    decreases n,
{
    if n > 1 {
        lemma_first_term(from, (n - 1) as nat, d, r);
    } else {
        reveal_with_fuel(depth_total, 2);
    }
}

/// Opposite frames cancel.
proof fn lemma_depths_cancel(from: int, n: nat, d: nat, r: int)
    requires
        2 * from + n == d,
    ensures
        depth_total(from, n, d, r) == 0,
    decreases n,
{
    if n == 1 {
        reveal_with_fuel(depth_total, 2);
    } else if n >= 2 {
        lemma_first_term(from, n, d, r);
        lemma_depths_cancel(from + 1, (n - 2) as nat, d, r);
        let h = pow2(1073) as int;
        let (x, y) = (half_frames(from, d), half_frames(from + n - 1, d));
        assert(x == -y);
        assert((-y) * h == -(y * h)) by (nonlinear_arith);
    }
}

/// The sum of the depths of the listed slices.
proof fn lemma_added_depths(g: Seq<Seq<int>>, dims: Seq<nat>, d: nat, n: nat)
    requires
        plain_matrix(g),
        n <= d <= most_frames(),
    ensures
        ({
            let r = half_reach(g[2], dims);
            let t = depth_total(0, n, d, r);
            &&& added(depths(slices_upto(g, dims, half_side(d), n))) == t * pow2(1073)
            &&& -(n * d) <= t <= n * d
        }),
    decreases n,
{
    let h = pow2(1073) as int;
    let r = half_reach(g[2], dims);
    let s = slices_upto(g, dims, half_side(d), n);
    if n == 0 {
        assert(depths(s).len() == 0);
        assert(0 * h == 0);
    } else {
        let m = (n - 1) as nat;
        lemma_added_depths(g, dims, d, m);
        lemma_depth(m, d);
        let z = depth_at(m, half_side(d));
        slices_exist_within_the_box(g, dims, z);
        let front = slices_upto(g, dims, half_side(d), m);
        let t = depth_total(0, m, d, r);
        assert(n * d == m * d + d) by (nonlinear_arith)
            requires
                n == m + 1,
        ;
        assert(m * d <= 0x10_0000_0000) by (nonlinear_arith)
            requires
                m <= 100_000,
                d <= 100_000,
        ;
        let c = half_frames(m as int, d);
        assert(-(d as int) <= c <= d);
        if slice_of(g, dims, z) is Some {
            assert(depths(s).drop_last() =~= depths(front));
            assert(depths(s).last() == z);
            assert(t * h + c * h == (t + c) * h) by (nonlinear_arith);
            lemma_halves(t + c);
        }
    }
}

/// The mean of the depths of the listed slices is zero.
proof fn lemma_mean_depth(g: Seq<Seq<int>>, dims: Seq<nat>, d: nat)
    requires
        plain_matrix(g),
        d <= most_frames(),
        slices_upto(g, dims, half_side(d), d).len() > 0,
    ensures
        mean(depths(slices_upto(g, dims, half_side(d), d))) == 0,
{
    let s = depths(slices_upto(g, dims, half_side(d), d));
    lemma_added_depths(g, dims, d, d);
    lemma_depths_cancel(0, d, d, half_reach(g[2], dims));
    assert(0 * pow2(1073) == 0);
    assert(added(s) == 0);
    lemma_listed_count(g, dims, half_side(d), d);
    lemma_pow2_pos(1074);
    whole_numbers_are_exact(s.len());
    let f = fraction(s.len(), 1);
    assert(f > 0) by (nonlinear_arith)
        requires
            f == s.len() * one(),
            s.len() > 0,
            one() > 0,
    ;
    lemma_odd(0, f);
    assert(0 * one() == 0);
}

/// A bound for what lies in a box with that half reach.
spec fn room(r: int) -> int {
    3 * r + 4 * one()
}

/// The listed slices are no larger than the box.
proof fn lemma_listed_bounded(g: Seq<Seq<int>>, dims: Seq<nat>, d: nat, a: int, i: int)
    requires
        plain_matrix(g),
        d <= most_frames(),
        0 <= a < 2,
        0 <= i < slices_upto(g, dims, half_side(d), d).len(),
    ensures
        ({
            let b = slices_upto(g, dims, half_side(d), d)[i].bb;
            let p = room(half_reach(g[a], dims));
            &&& b[2 * a] <= b[2 * a + 1]
            &&& -p <= b[2 * a]
            &&& b[2 * a + 1] <= p
        }),
{
    let k = lemma_listed_slice(g, dims, half_side(d), d, i);
    lemma_depth(k, d);
    slices_stay_within_the_box(g, dims, depth_at(k, half_side(d)), a);
    assert(plain(g[a][0]) && plain(g[a][1]) && plain(g[a][2]));
    half_reach_is_half(g[a], dims);
    lemma_one_is_large();
}

/// Half of a sum.
proof fn lemma_half_sum(x: int, y: int, b: int)
    requires
        -b <= x <= b,
        -b <= y <= b,
        b >= one(),
    ensures
        magnitude_of(quotient(sum(x, y), two())) <= 2 * b,
        0x20_0000_0000_0000 * magnitude_of(2 * quotient(sum(x, y), two()) - (x + y)) <= 5 * b + 2
            * 0x20_0000_0000_0000,
{
    let u = one() as int;
    let k = 0x20_0000_0000_0000int;
    lemma_one_is_large();
    lemma_sum_error(x, y);
    let s = sum(x, y);
    lemma_quotient_close(s, two());
    let q = quotient(s, two());
    let (e, m) = (2 * q - s, magnitude_of(s));
    assert(q * (2 * u) - s * u == e * u) by (nonlinear_arith)
        requires
            e == 2 * q - s,
    ;
    let n = magnitude_of(e);
    lemma_abs_product(e, u, n, u);
    assert(k * n <= m + 2 * k) by (nonlinear_arith)
        requires
            k * (n * u) <= m * u + k * (2 * u),
            u > 0,
    ;
}

/// A sum of many numbers.
proof fn lemma_added_bounded(v: Seq<int>, b: int)
    requires
        v.len() <= most_frames(),
        b >= 0,
        forall|i: int| 0 <= i < v.len() ==> magnitude_of(#[trigger] v[i]) <= b,
    ensures
        magnitude_of(added(v)) <= 2 * (v.len() * b),
    decreases v.len(),
{
    if v.len() == 0 {
        assert(0 * b == 0);
    } else {
        let front = v.drop_last();
        assert forall|i: int| 0 <= i < front.len() implies magnitude_of(#[trigger] front[i]) <= b by {
            assert(front[i] == v[i]);
        }
        lemma_added_bounded(front, b);
        let (n, m) = (v.len() * b, front.len() * b);
        assert(n == m + b) by (nonlinear_arith)
            requires
                n == v.len() * b,
                m == front.len() * b,
                v.len() == front.len() + 1,
        ;
        assert(0 <= m <= 100_000 * b) by (nonlinear_arith)
            requires
                m == front.len() * b,
                0 <= front.len() <= 100_000,
                b >= 0,
        ;
        assert(magnitude_of(v[v.len() - 1]) <= b);
        lemma_sum_error(added(front), v.last());
    }
}

/// A mean of many numbers.
proof fn lemma_mean_bounded(v: Seq<int>, b: int)
    requires
        0 < v.len() <= most_frames(),
        b >= one(),
        forall|i: int| 0 <= i < v.len() ==> magnitude_of(#[trigger] v[i]) <= b,
    ensures
        magnitude_of(mean(v)) <= 3 * b,
{
    let u = one() as int;
    let k = 0x20_0000_0000_0000int;
    lemma_one_is_large();
    lemma_added_bounded(v, b);
    whole_numbers_are_exact(v.len());
    let n = v.len() as int;
    let f = n * u;
    assert(f > 0) by (nonlinear_arith)
        requires
            f == n * u,
            n > 0,
            u > 0,
    ;
    let t = added(v);
    lemma_quotient_close(t, f);
    let q = mean(v);
    let (m, w) = (magnitude_of(t), magnitude_of(q));
    lemma_abs_product(q, f, w, f);
    lemma_abs_product(t, u, m, u);
    assert(m * u <= 2 * (f * b)) by (nonlinear_arith)
        requires
            m <= 2 * (n * b),
            f == n * u,
            u > 0,
    ;
    let e = magnitude_of(q * f - t * u);
    assert(k * e <= m * u + k * f);
    assert(w * f <= m * u + e);
    assert(k * (w * f) <= k * (m * u) + m * u + k * f);
    let (fb, mu) = (f * b, m * u);
    assert(k * mu + mu <= 2 * (k * fb) + 2 * fb) by (nonlinear_arith)
        requires
            mu <= 2 * fb,
            k > 0,
    ;
    assert(k * (w * f) <= 2 * (k * fb) + 2 * fb + k * f);
    assert(k * w <= 2 * (k * b) + 2 * b + k) by (nonlinear_arith)
        requires
            k * (w * f) <= 2 * (k * (f * b)) + 2 * (f * b) + k * f,
            f > 0,
    ;
}

/// The lines to try do not start further out than a few times the box.
proof fn lemma_line_bounded(g: Seq<Seq<int>>, dims: Seq<nat>, d: nat, a: int, i: int)
    requires
        plain_matrix(g),
        d <= most_frames(),
        0 <= a < 2,
        slices_upto(g, dims, half_side(d), d).len() > 0,
        0 <= i < lines(g, slices_upto(g, dims, half_side(d), d), a).len(),
    ensures
        magnitude_of(lines(g, slices_upto(g, dims, half_side(d), d), a)[i].pos) <= 7 * room(
            half_reach(g[a], dims),
        ),
{
    let s = slices_upto(g, dims, half_side(d), d);
    let p = room(half_reach(g[a], dims));
    lemma_one_is_large();
    assert(plain(g[a][0]) && plain(g[a][1]) && plain(g[a][2]));
    half_reach_is_half(g[a], dims);
    lemma_mean_depth(g, dims, d);
    let vel = fitted_velocity(s, a);
    zero_product(vel);
    let c = centres(s, a);
    let b = 2 * p;
    lemma_listed_count(g, dims, half_side(d), d);
    assert forall|j: int| 0 <= j < c.len() implies magnitude_of(#[trigger] c[j]) <= b by {
        lemma_listed_bounded(g, dims, d, a, j);
        lemma_half_sum(s[j].bb[2 * a], s[j].bb[2 * a + 1], p);
    }
    lemma_mean_bounded(c, b);
    lemma_sum_error(mean(c), 0);
    let l = lines(g, s, a);
    let fitted = l[l.len() - 1];
    assert(fitted.pos == difference(mean(c), 0));
    assert forall|j: int| 0 <= j < l.len() - 1 implies (#[trigger] l[j]).pos == 0 by {
        let (x, y, z) = (axis_line(g, a, 0), axis_line(g, a, 1), axis_line(g, a, 2));
        assert(x.len() <= 1 && y.len() <= 1 && z.len() <= 1);
    }
}

/// The best window is the window along one of the lines.
proof fn lemma_best_line(s: Seq<SliceView>, a: int, l: Seq<LineView>) -> (i: int)
    requires
        l.len() > 0,
    ensures
        0 <= i < l.len(),
        best_window(s, a, l) == window_on(s, a, l[i]),
    decreases l.len(),
{
    if l.len() == 1 {
        0
    } else {
        let front = best_window(s, a, l.drop_last());
        let last = window_on(s, a, l.last());
        if last.extent < front.extent {
            l.len() - 1
        } else {
            lemma_best_line(s, a, l.drop_last())
        }
    }
}

/// The reciprocal of a whole number, but for one part.
proof fn lemma_small(d: nat)
    requires
        8 <= d <= 0x1_0000_0000,
    ensures
        0 < fraction(1, d),
        (d - 1) * fraction(1, d) <= one(),
{
    let u = one();
    lemma_one_is_large();
    assert(1 * u == u);
    lemma2_to64_rest();
    lemma_rounding_error(u, d);
    let f = fraction(1, d);
    lemma_rounded_positive(u, d, 53);
    assert(f * d == d * f) by (nonlinear_arith);
    assert(d * f <= u + u / 0x20_0000_0000_0000 + 1);
    assert(f >= u / 0x20_0000_0000_0000 + 1) by (nonlinear_arith)
        requires
            0x20_0000_0000_0000 * (u - f * d) <= u,
            0 < d <= 0x1_0000_0000,
            u >= 0x8000_0000_0000_0000_0000_0000_0000_0000,
    ;
    assert((d - 1) * f == d * f - f) by (nonlinear_arith);
}

/// A window is as wide as what it holds, but for a millionth and rounding.
proof fn lemma_width(lo: int, hi: int, f: int)
    requires
        lo <= hi,
        f >= 0,
    ensures
        0x20_0000_0000_0000 * (hi - lo - f - ceiling_of(
            difference(difference(hi, lo), f),
        ) * one()) <= 3 * (hi - lo) + f,
{
    let h = difference(hi, lo);
    let w = difference(h, f);
    lemma_sum_error(hi, lo);
    lemma_sum_error(h, f);
    let u = one() as int;
    lemma_pow2_pos(1074);
    lemma_fundamental_div_mod(-w, u);
    let n = ceiling_of(w);
    let q = (-w) / u;
    assert(n == -q);
    assert((-q) * u == -(u * q)) by (nonlinear_arith);
    assert(n * u >= w);
}

/// A line cannot drift away from slices on both sides of the centre that its window holds.
proof fn lemma_drift(
    p: int,
    lp: int,
    pi: int,
    c: int,
    c2: int,
    x: int,
    x2: int,
    b: int,
    b2: int,
)
    requires
        p > 0,
        magnitude_of(lp) <= 7 * p,
        magnitude_of(b) <= p,
        magnitude_of(b2) <= p,
        0x20_0000_0000_0000 * magnitude_of(c - (lp + pi)) <= magnitude_of(lp + pi),
        0x20_0000_0000_0000 * magnitude_of(c2 - (lp - pi)) <= magnitude_of(lp - pi),
        0x20_0000_0000_0000 * magnitude_of(x - (b - c)) <= magnitude_of(b - c),
        0x20_0000_0000_0000 * magnitude_of(x2 - (b2 - c2)) <= magnitude_of(b2 - c2),
        magnitude_of(x - x2) <= p,
    ensures
        magnitude_of(pi) <= 2 * p,
{
    let q = magnitude_of(pi);
    let y = 7 * p + q;
    lemma_triangle(lp, pi, 7 * p, q);
    lemma_near(c, lp + pi, y);
    lemma_near(c2, lp - pi, y);
    let z = p + 2 * y;
    lemma_triangle(b, c, p, 2 * y);
    lemma_triangle(b2, c2, p, 2 * y);
    lemma_near(x, b - c, z);
    lemma_near(x2, b2 - c2, z);
    lemma_drift_end(
        p,
        pi,
        c - (lp + pi),
        c2 - (lp - pi),
        x - (b - c),
        x2 - (b2 - c2),
        x - x2,
        b - b2,
    );
}

proof fn lemma_drift_end(p: int, pi: int, e1: int, e2: int, e3: int, e4: int, dx: int, db: int)
    requires
        p > 0,
        2 * pi == db - dx - e1 + e2 + e3 - e4,
        0x20_0000_0000_0000 * magnitude_of(e1) <= 7 * p + magnitude_of(pi),
        0x20_0000_0000_0000 * magnitude_of(e2) <= 7 * p + magnitude_of(pi),
        0x20_0000_0000_0000 * magnitude_of(e3) <= 15 * p + 2 * magnitude_of(pi),
        0x20_0000_0000_0000 * magnitude_of(e4) <= 15 * p + 2 * magnitude_of(pi),
        magnitude_of(dx) <= p,
        magnitude_of(db) <= 2 * p,
    ensures
        magnitude_of(pi) <= 2 * p,
{
    let e = -e1 + e2 + e3 - e4;
    assert(magnitude_of(e) <= magnitude_of(e1) + magnitude_of(e2) + magnitude_of(e3) + magnitude_of(
        e4,
    ));
    assert(0x20_0000_0000_0000 * magnitude_of(e) <= 44 * p + 6 * magnitude_of(pi));
}

/// A sum and a difference are no larger than their terms allow.
proof fn lemma_triangle(a: int, b: int, x: int, y: int)
    requires
        magnitude_of(a) <= x,
        magnitude_of(b) <= y,
    ensures
        magnitude_of(a + b) <= x + y,
        magnitude_of(a - b) <= x + y,
{
}

/// A rounded number is close to the number it stands for.
proof fn lemma_near(v: int, w: int, b: int)
    requires
        0x20_0000_0000_0000 * magnitude_of(v - w) <= magnitude_of(w),
        magnitude_of(w) <= b,
    ensures
        0x20_0000_0000_0000 * magnitude_of(v - w) <= b,
        0x20_0000_0000_0000 * magnitude_of(v) <= 0x20_0000_0000_0001 * b,
        magnitude_of(v) <= 2 * b,
{
}

/// Twice what may lie outside of half the window: 6e-5 pixels, and one part in 2^44 of the half reach
/// for rounding.
pub open spec fn within_slack(twice: int, r: int) -> bool {
    0x1000_0000_0000 * (100_000 * twice - 12 * one()) <= 200_000 * r
}

/// What a window holds lies around its centre, but for rounding.
proof fn lemma_held(
    u: int,
    p: int,
    lp: int,
    pi: int,
    c: int,
    x: int,
    b: int,
    lo: int,
    hi: int,
    mid: int,
    q: int,
    pos: int,
    pi2: int,
    at: int,
    ext: int,
    f6: int,
    f9: int,
)
    requires
        u >= 0x8000_0000_0000_0000_0000_0000_0000_0000,
        p >= 4 * u,
        magnitude_of(lp) <= 7 * p,
        magnitude_of(pi) <= 2 * p,
        magnitude_of(b) <= p,
        0x20_0000_0000_0000 * magnitude_of(c - (lp + pi)) <= magnitude_of(lp + pi),
        0x20_0000_0000_0000 * magnitude_of(x - (b - c)) <= magnitude_of(b - c),
        lo <= x <= hi,
        hi - lo <= p,
        0x20_0000_0000_0000 * magnitude_of(2 * mid - (hi + lo)) <= 5 * (16 * p) + 2
            * 0x20_0000_0000_0000,
        0x20_0000_0000_0000 * magnitude_of(q - (lp + mid)) <= magnitude_of(lp + mid),
        magnitude_of(pos - q) <= f9,
        magnitude_of(pi2 - pi) <= 50_002 * f9,
        0x20_0000_0000_0000 * magnitude_of(at - (pos + pi2)) <= magnitude_of(pos + pi2),
        0x20_0000_0000_0000 * (hi - lo - f6 - ext) <= 3 * (hi - lo) + f6,
        0 <= 999_999 * f6 <= u,
        0 <= 999_999_999 * f9 <= u,
    ensures
        0x20_0000_0000_0000 * (100_000 * (2 * (at - b) - ext) - 11 * u) <= 100_000 * (220 * p),
        0x20_0000_0000_0000 * (100_000 * (2 * (b - at) - ext) - 11 * u) <= 100_000 * (220 * p),
{
    lemma_triangle(lp, pi, 7 * p, 2 * p);
    lemma_near(c, lp + pi, 9 * p);
    assert(magnitude_of(c) <= 10 * p);
    lemma_triangle(b, c, p, 10 * p);
    lemma_near(x, b - c, 11 * p);
    assert(magnitude_of(x) <= 12 * p);
    assert(magnitude_of(lo) <= 13 * p && magnitude_of(hi) <= 13 * p);
    lemma_triangle(hi, lo, 13 * p, 13 * p);
    let (e1, e2, e3) = (c - (lp + pi), x - (b - c), 2 * mid - (hi + lo));
    assert(0x20_0000_0000_0000 * magnitude_of(e3) <= 81 * p);
    assert(magnitude_of(mid) <= 14 * p);
    lemma_triangle(lp, mid, 7 * p, 14 * p);
    lemma_near(q, lp + mid, 21 * p);
    assert(magnitude_of(q) <= 22 * p);
    let (e4, e5, e6, e7) = (q - (lp + mid), pos - q, pi2 - pi, at - (pos + pi2));
    assert(magnitude_of(pos) <= 23 * p);
    assert(magnitude_of(pi2) <= 3 * p);
    lemma_triangle(pos, pi2, 23 * p, 3 * p);
    lemma_near(at, pos + pi2, 26 * p);
    lemma_held_end(u, p, x, b, lo, hi, at, ext, f6, f9, e1, e2, e3, e4, e5, e6, e7);
}

proof fn lemma_held_end(
    u: int,
    p: int,
    x: int,
    b: int,
    lo: int,
    hi: int,
    at: int,
    ext: int,
    f6: int,
    f9: int,
    e1: int,
    e2: int,
    e3: int,
    e4: int,
    e5: int,
    e6: int,
    e7: int,
)
    requires
        u >= 0x8000_0000_0000_0000_0000_0000_0000_0000,
        p >= 4 * u,
        0x20_0000_0000_0000 * magnitude_of(e1) <= 9 * p,
        0x20_0000_0000_0000 * magnitude_of(e2) <= 11 * p,
        0x20_0000_0000_0000 * magnitude_of(e3) <= 81 * p,
        0x20_0000_0000_0000 * magnitude_of(e4) <= 21 * p,
        0x20_0000_0000_0000 * magnitude_of(e7) <= 26 * p,
        magnitude_of(e5) <= f9,
        magnitude_of(e6) <= 50_002 * f9,
        0 <= 999_999 * f6 <= u,
        0 <= 999_999_999 * f9 <= u,
        lo <= x <= hi,
        hi - lo <= p,
        0x20_0000_0000_0000 * (hi - lo - f6 - ext) <= 3 * (hi - lo) + f6,
        2 * (at - b) == -2 * x + (hi + lo) - 2 * e1 + 2 * e2 + e3 + 2 * e4 + 2 * e5 + 2 * e6 + 2 * e7,
    ensures
        0x20_0000_0000_0000 * (100_000 * (2 * (at - b) - ext) - 11 * u) <= 100_000 * (220 * p),
        0x20_0000_0000_0000 * (100_000 * (2 * (b - at) - ext) - 11 * u) <= 100_000 * (220 * p),
{
    let e = -2 * e1 + 2 * e2 + e3 + 2 * e4 + 2 * e7;
    assert(0x20_0000_0000_0000 * magnitude_of(e) <= 215 * p);
    let f = 2 * e5 + 2 * e6;
    assert(100_000_000 * magnitude_of(f) <= 10_001 * u);
    let w = hi - lo - ext;
    assert(0x20_0000_0000_0000 * (w - f6) <= 4 * p);
    assert(2 * (at - b) - ext <= w + magnitude_of(e) + magnitude_of(f));
    assert(2 * (b - at) - ext <= w + magnitude_of(e) + magnitude_of(f));
    assert(100_000 * (magnitude_of(f) + f6) <= 11 * u);
}

/// Snapping a velocity to zero moves a window by less than 6e-5 pixels.
proof fn lemma_settled_drift(vel: int, t: int)
    requires
        magnitude_of(t) <= 50_000 * one(),
    ensures
        magnitude_of(product(settled(vel), t) - product(vel, t)) <= 50_002 * fraction(1, 1_000_000_000),
{
    let u = one() as int;
    let f = fraction(1, 1_000_000_000) as int;
    lemma_one_is_large();
    lemma_small(1_000_000_000);
    if magnitude_of(vel) < f {
        zero_product(t);
        lemma_product_error(vel, t);
        lemma_abs_product(vel, t, f, 50_000 * u);
        let p = product(vel, t);
        let m = magnitude_of(p);
        let k = 0x20_0000_0000_0000int;
        lemma_abs_product(p, u, m, u);
        assert(f * (50_000 * u) == 50_000 * (f * u)) by (nonlinear_arith);
        let (v, fu) = (magnitude_of(vel * t), f * u);
        let e = magnitude_of(p * u - vel * t);
        assert(k * e <= v + k * u);
        assert(m * u <= v + e);
        assert(k * (m * u) <= k * v + v + k * u);
        assert(k * (m * u) <= k * (50_000 * fu) + 50_000 * fu + k * u) by {
            assert(k * v <= k * (50_000 * fu));
        }
        assert(fu >= 0) by (nonlinear_arith)
            requires
                fu == f * u,
                f > 0,
                u > 0,
        ;
        assert(50_000 * fu <= k * fu);
        assert(m <= 50_001 * f + 1) by (nonlinear_arith)
            requires
                k * (m * u) <= k * (50_000 * (f * u)) + k * (f * u) + k * u,
                k > 0,
                u > 0,
        ;
    }
}

/// The pixels that cover a length are a number of the format, unless there are too many to count.
proof fn lemma_covering(length: int)
    requires
        ceiling_of(difference(length, fraction(1, 1_000_000) as int)) <= usize::MAX,
    ensures
        fraction(covering(length), 1) == covering(length) * one(),
{
    let u = one() as int;
    let w = difference(length, fraction(1, 1_000_000) as int);
    let n = ceiling_of(w);
    lemma_pow2_pos(1074);
    lemma_fundamental_div_mod(-w, u);
    let q = (-w) / u;
    assert((-q) * u == -(u * q)) by (nonlinear_arith);
    assert(w <= n * u < w + u);
    if w >= pow2(1126) {
        lemma_pow2_pos(1126);
        lemma_in_format(length - fraction(1, 1_000_000), 1);
        lemma_large_numbers_are_coarse(w, 1074);
        lemma_grains(w, 1074);
        let m = grains(w, 1074);
        assert(n == m) by (nonlinear_arith)
            requires
                w == m * u,
                w <= n * u < w + u,
                u > 0,
        ;
        assert(n >= 1) by (nonlinear_arith)
            requires
                n * u >= w,
                w > 0,
                u > 0,
        ;
    } else {
        lemma_pow2_adds(1074, 52);
        lemma2_to64_rest();
        assert(n <= 0x10_0000_0000_0000) by (nonlinear_arith)
            requires
                n * u < w + u,
                w < 0x10_0000_0000_0000 * u,
                u > 0,
        ;
        whole_numbers_are_exact(covering(length));
    }
}

/// The bounding box of a volume that can be counted.
proof fn lemma_fit(g: Seq<Seq<int>>, dims: Seq<nat>, a: int)
    requires
        plain_matrix(g),
        0 <= a < 2,
        2 * half_reach(g[a], dims) < usize::MAX * one(),
    ensures
        ({
            let n = fit_sides(g, dims)[a];
            let r = half_reach(g[a], dims);
            &&& 1 <= n <= usize::MAX
            &&& fraction(n, 1) == n * one()
            &&& r >= 0
            &&& n * one() <= 2 * r + one()
            &&& 0x20_0000_0000_0000 * (999_999 * (2 * r - n * one()) - one()) <= 999_999 * (2 * r)
        }),
{
    let u = one() as int;
    let r = half_reach(g[a], dims);
    lemma_one_is_large();
    assert(plain(g[a][0]) && plain(g[a][1]) && plain(g[a][2]));
    half_reach_is_half(g[a], dims);
    lemma_small(1_000_000);
    let f = fraction(1, 1_000_000) as int;
    let length = reach(g[a], dims);
    assert(length == 2 * r);
    lemma_reach_in_format(g[a], dims);
    let w = difference(length, f);
    lemma_monotone(length - f, length, 1);
    lemma_sum_error(length, f);
    lemma_pow2_pos(1074);
    lemma_fundamental_div_mod(-w, u);
    let (n, q) = (ceiling_of(w), (-w) / u);
    assert((-q) * u == -(u * q)) by (nonlinear_arith);
    assert(w <= n * u < w + u);
    let top = usize::MAX as int;
    assert(n <= top) by (nonlinear_arith)
        requires
            n * u < w + u,
            w <= top * u,
            u > 0,
    ;
    let m = fit_side(g[a], dims);
    assert(m * u <= 2 * r + u) by (nonlinear_arith)
        requires
            m == 1 || m == n,
            n * u < 2 * r + u,
            r >= 0,
            u > 0,
    ;
    assert(m * u >= n * u) by (nonlinear_arith)
        requires
            m >= n,
            u > 0,
    ;
    lemma_covering(length);
}

/// How far a box reaches is a number of the format.
proof fn lemma_reach_in_format(row: Seq<int>, dims: Seq<nat>)
    ensures
        in_format(reach(row, dims)),
{
    let (x, y, z) = (
        product(magnitude_of(row[0]), fraction(dims[0], 1) as int),
        product(magnitude_of(row[1]), fraction(dims[1], 1) as int),
        product(magnitude_of(row[2]), fraction(dims[2], 1) as int),
    );
    lemma_in_format(sum(x, y) + z, 1);
}

/// The pixels of a window cover its extent.
proof fn lemma_side(w: WindowView, n: int, even: bool)
    requires
        w.extent == n * one(),
        0 <= n <= usize::MAX,
    ensures
        window_side(w, even) >= n,
        window_side(w, even) * one() >= w.extent,
{
    let u = one() as int;
    lemma_pow2_pos(1074);
    lemma_fundamental_div_mod_converse(w.extent, u, n, 0);
    let m = window_side(w, even);
    assert(m * u >= n * u) by (nonlinear_arith)
        requires
            m >= n,
            u > 0,
    ;
}

/// Bounds of what a window along a line holds.
proof fn lemma_span_bounded(p: int, lp: int, pi: int, c: int, x: int, b: int, lo: int, hi: int)
    requires
        p > 0,
        magnitude_of(lp) <= 7 * p,
        magnitude_of(pi) <= 2 * p,
        magnitude_of(b) <= p,
        0x20_0000_0000_0000 * magnitude_of(c - (lp + pi)) <= magnitude_of(lp + pi),
        0x20_0000_0000_0000 * magnitude_of(x - (b - c)) <= magnitude_of(b - c),
        lo <= x <= hi,
        hi - lo <= p,
    ensures
        magnitude_of(lo) <= 13 * p,
        magnitude_of(hi) <= 13 * p,
{
    lemma_triangle(lp, pi, 7 * p, 2 * p);
    lemma_near(c, lp + pi, 9 * p);
    assert(magnitude_of(c) <= 10 * p);
    lemma_triangle(b, c, p, 10 * p);
    lemma_near(x, b - c, 11 * p);
    assert(magnitude_of(x) <= 12 * p);
}

/// The width of what a window holds.
proof fn lemma_span_width(s: Seq<SliceView>, a: int, l: LineView, r: int)
    requires
        r >= 0,
        span(s, a, l).0 <= span(s, a, l).1,
        window_on(s, a, l).extent <= 2 * r + one(),
    ensures
        span(s, a, l).1 - span(s, a, l).0 <= room(r),
{
    let (lo, hi) = span(s, a, l);
    let f6 = fraction(1, 1_000_000) as int;
    lemma_one_is_large();
    lemma_small(1_000_000);
    lemma_width(lo, hi, f6);
    let n = ceiling_of(difference(difference(hi, lo), f6)) * one();
    assert(n <= window_on(s, a, l).extent);
}

/// The slices of two frames on opposite sides of the centre, and the window along a line.
#[verifier::spinoff_prover]
proof fn lemma_window_holds(s: Seq<SliceView>, a: int, l: LineView, i: int, j: int, p: int)
    requires
        0 <= a < 2,
        0 <= i < s.len(),
        0 <= j < s.len(),
        s[j].t == -s[i].t,
        magnitude_of(s[i].t) <= 50_000 * one(),
        p >= 4 * one(),
        forall|m: int|
            #![trigger s[m]]
            0 <= m < s.len() ==> {
                &&& s[m].bb[2 * a] <= s[m].bb[2 * a + 1]
                &&& -p <= s[m].bb[2 * a]
                &&& s[m].bb[2 * a + 1] <= p
            },
        magnitude_of(l.pos) <= 7 * p,
        ({
            let (lo, hi) = span(s, a, l);
            hi - lo <= p
        }),
    ensures
        ({
            let w = window_on(s, a, l);
            let at = sum(settled(w.pos), product(settled(w.vel), s[i].t));
            &&& 0x20_0000_0000_0000 * (100_000 * (2 * (at - s[i].bb[2 * a]) - w.extent) - 11 * one())
                <= 100_000 * (220 * p)
            &&& 0x20_0000_0000_0000 * (100_000 * (2 * (s[i].bb[2 * a + 1] - at) - w.extent) - 11
                * one()) <= 100_000 * (220 * p)
        }),
{
    let u = one() as int;
    lemma_one_is_large();
    let w = window_on(s, a, l);
    let (lo, hi) = span(s, a, l);
    let t = s[i].t;
    windows_hold_every_slice(s, a, l, i);
    windows_hold_every_slice(s, a, l, j);
    let (lp, pi) = (l.pos, product(l.vel, t));
    lemma_signed(l.vel, t);
    let (c, c2) = (sum(lp, pi), sum(lp, -pi));
    let (b0, b1) = (s[i].bb[2 * a], s[i].bb[2 * a + 1]);
    let (d0, d1) = (s[j].bb[2 * a], s[j].bb[2 * a + 1]);
    let (x0, x1) = (difference(b0, c), difference(b1, c));
    let (y0, y1) = (difference(d0, c2), difference(d1, c2));
    lemma_monotone(b0 - c, b1 - c, 1);
    lemma_monotone(d0 - c2, d1 - c2, 1);
    assert(lo <= x0 <= x1 <= hi && lo <= y0 <= y1 <= hi);
    lemma_small(1_000_000);
    lemma_small(1_000_000_000);
    let f6 = fraction(1, 1_000_000) as int;
    let f9 = fraction(1, 1_000_000_000) as int;
    lemma_width(lo, hi, f6);
    let n = ceiling_of(difference(difference(hi, lo), f6)) * one();
    assert(n <= w.extent);
    lemma_sum_error(lp, pi);
    lemma_sum_error(lp, -pi);
    lemma_sum_error(b0, c);
    lemma_sum_error(b1, c);
    lemma_sum_error(d0, c2);
    lemma_drift(p, lp, pi, c, c2, x0, y0, b0, d0);
    lemma_span_bounded(p, lp, pi, c, x0, b0, lo, hi);
    lemma_half_sum(hi, lo, 16 * p);
    let mid = quotient(sum(hi, lo), two());
    lemma_sum_error(lp, mid);
    let q = sum(lp, mid);
    assert(w.pos == q);
    lemma_settled_drift(l.vel, t);
    let (pos, pi2) = (settled(q), product(settled(l.vel), t));
    lemma_sum_error(pos, pi2);
    let at = sum(pos, pi2);
    lemma_held(u, p, lp, pi, c, x0, b0, lo, hi, mid, q, pos, pi2, at, w.extent, f6, f9);
    lemma_held(u, p, lp, pi, c, x1, b1, lo, hi, mid, q, pos, pi2, at, w.extent, f6, f9);
}

/// A window that follows the content loses none of it: in every frame, the slice of the rotated
/// volume lies within half the window around its centre, but for 6e-5 pixels, and one part in 2^44 of
/// the half reach for rounding. So it is less than a ten-thousandth of a pixel for volumes that reach
/// up to 2^29 pixels from their centre. This is stated for up to 100000 frames, and for volumes whose
/// pixels can be counted.
pub proof fn tracked_windows_hold_the_content(
    g: Seq<Seq<int>>,
    dims: Seq<nat>,
    size: OutputSize,
    even: bool,
    a: int,
    k: nat,
)
    requires
        plain_matrix(g),
        0 <= a < 2,
        follows(size, a),
        k < output_sides(g, dims, size, even)[2] <= most_frames(),
        2 * half_reach(g[a], dims) < usize::MAX * one(),
    ensures
        ({
            let path = tracked_path(g, dims, size, even);
            let side = tracked_sides(g, dims, size, even)[a] * one();
            let at = path.center((k * one()) as int, a);
            let r = half_reach(g[a], dims);
            slice_of(g, dims, depth_at(k, path.zc)) matches Some(b) ==> {
                &&& within_slack(2 * (at - b[2 * a]) - side, r)
                &&& within_slack(2 * (b[2 * a + 1] - at) - side, r)
                &&& r <= 0x2000_0000 * one() ==> 10_000 * (at - b[2 * a]) <= 5_000 * side + one()
                &&& r <= 0x2000_0000 * one() ==> 10_000 * (b[2 * a + 1] - at) <= 5_000 * side
                    + one()
            }
        }),
{
    let d = output_sides(g, dims, size, even)[2];
    lemma_path(g, dims, size, even, a, k);
    if slice_of(g, dims, depth_at(k, half_side(d))) is Some {
        lemma_axis(g, dims, d, a, k, even);
    }
}

/// The side and the path of a window along one axis.
proof fn lemma_path(
    g: Seq<Seq<int>>,
    dims: Seq<nat>,
    size: OutputSize,
    even: bool,
    a: int,
    k: nat,
)
    requires
        0 <= a < 2,
        follows(size, a),
        k < output_sides(g, dims, size, even)[2] <= most_frames(),
    ensures
        ({
            let d = output_sides(g, dims, size, even)[2];
            let s = slices_upto(g, dims, half_side(d), d);
            let w = window_along(g, s, a, fit_sides(g, dims)[a]);
            let path = tracked_path(g, dims, size, even);
            &&& tracked_sides(g, dims, size, even)[a] == window_side(w, even)
            &&& path.zc == half_side(d)
            &&& path.center((k * one()) as int, a) == sum(
                w.pos,
                product(w.vel, depth_at(k, half_side(d))),
            )
        }),
{
    let d = output_sides(g, dims, size, even)[2];
    lemma_depth(k, d);
    let path = tracked_path(g, dims, size, even);
    if a == 0 {
        let w = tracked_window(g, dims, size, even, 0);
        assert(path.pos[0] == w.pos && path.vel[0] == w.vel);
    } else {
        let w = tracked_window(g, dims, size, even, 1);
        assert(path.pos[1] == w.pos && path.vel[1] == w.vel);
    }
}

/// One axis of a window that follows the content.
proof fn lemma_axis(g: Seq<Seq<int>>, dims: Seq<nat>, d: nat, a: int, k: nat, even: bool)
    requires
        plain_matrix(g),
        0 <= a < 2,
        k < d <= most_frames(),
        2 * half_reach(g[a], dims) < usize::MAX * one(),
        slice_of(g, dims, depth_at(k, half_side(d))) is Some,
    ensures
        ({
            let s = slices_upto(g, dims, half_side(d), d);
            let w = window_along(g, s, a, fit_sides(g, dims)[a]);
            let t = depth_at(k, half_side(d));
            let b = slice_of(g, dims, t)->Some_0;
            let at = sum(w.pos, product(w.vel, t));
            let side = window_side(w, even) * one();
            let r = half_reach(g[a], dims);
            &&& r >= 0
            &&& within_slack(2 * (at - b[2 * a]) - side, r)
            &&& within_slack(2 * (b[2 * a + 1] - at) - side, r)
        }),
{
    let u = one() as int;
    let zc = half_side(d);
    let s = slices_upto(g, dims, zc, d);
    let t = depth_at(k, zc);
    lemma_one_is_large();
    lemma_depth(k, d);
    lemma_fit(g, dims, a);
    let r = half_reach(g[a], dims);
    let fit = fit_sides(g, dims)[a];
    let w = window_along(g, s, a, fit);
    let o = lemma_window_along(g, s, a, fit);
    if o < 0 {
        lemma_side(w, fit as int, even);
        zero_product(t);
        lemma_odd(0, 1);
        slices_stay_within_the_box(g, dims, t, a);
        let side = window_side(w, even) * u;
        let b = slice_of(g, dims, t)->Some_0;
        lemma_whole_box(r, side, b[2 * a], b[2 * a + 1]);
    } else {
        lemma_line_axis(g, dims, d, a, k, o, even);
    }
}

/// The whole box holds every slice.
proof fn lemma_whole_box(r: int, side: int, lo: int, hi: int)
    requires
        r >= 0,
        0x20_0000_0000_0000 * (999_999 * (2 * r - side) - one()) <= 999_999 * (2 * r),
        0x8_0000_0000_0000 * (magnitude_of(lo) - r) <= r,
        0x8_0000_0000_0000 * (magnitude_of(hi) - r) <= r,
    ensures
        within_slack(2 * (0 - lo) - side, r),
        within_slack(2 * (hi - 0) - side, r),
{
    lemma_one_is_large();
}

/// A window along a line holds every slice.
proof fn lemma_line_axis(
    g: Seq<Seq<int>>,
    dims: Seq<nat>,
    d: nat,
    a: int,
    k: nat,
    o: int,
    even: bool,
)
    requires
        plain_matrix(g),
        0 <= a < 2,
        k < d <= most_frames(),
        2 * half_reach(g[a], dims) < usize::MAX * one(),
        slice_of(g, dims, depth_at(k, half_side(d))) is Some,
        ({
            let s = slices_upto(g, dims, half_side(d), d);
            let w = window_along(g, s, a, fit_sides(g, dims)[a]);
            let b = window_on(s, a, lines(g, s, a)[o]);
            &&& s.len() > 0
            &&& 0 <= o < lines(g, s, a).len()
            &&& w.extent == b.extent
            &&& w.extent < fraction(fit_sides(g, dims)[a], 1)
            &&& w.pos == settled(b.pos)
            &&& w.vel == settled(b.vel)
        }),
    ensures
        ({
            let s = slices_upto(g, dims, half_side(d), d);
            let w = window_along(g, s, a, fit_sides(g, dims)[a]);
            let t = depth_at(k, half_side(d));
            let b = slice_of(g, dims, t)->Some_0;
            let at = sum(w.pos, product(w.vel, t));
            let side = window_side(w, even) * one();
            let r = half_reach(g[a], dims);
            &&& within_slack(2 * (at - b[2 * a]) - side, r)
            &&& within_slack(2 * (b[2 * a + 1] - at) - side, r)
        }),
{
    let u = one() as int;
    let zc = half_side(d);
    let s = slices_upto(g, dims, zc, d);
    let r = half_reach(g[a], dims);
    let p = room(r);
    lemma_one_is_large();
    lemma_fit(g, dims, a);
    let fit = fit_sides(g, dims)[a];
    let w = window_along(g, s, a, fit);
    let i = lemma_slice_listed(g, dims, zc, d, k);
    let l = lines(g, s, a)[o];
    lemma_line_bounded(g, dims, d, a, o);
    let j = lemma_opposite_listed(g, dims, d, k);
    assert forall|m: int|
        #![trigger s[m]]
        0 <= m < s.len() implies {
            &&& s[m].bb[2 * a] <= s[m].bb[2 * a + 1]
            &&& -p <= s[m].bb[2 * a]
            &&& s[m].bb[2 * a + 1] <= p
        } by {
        lemma_listed_bounded(g, dims, d, a, m);
    }
    lemma_span_ordered(s, a, l);
    lemma_span_width(s, a, l, r);
    lemma_window_holds(s, a, l, i, j, p);
    lemma_extent(s, a, l);
    let e = w.extent / u;
    let top = usize::MAX as int;
    assert(0 <= e <= top) by (nonlinear_arith)
        requires
            e * u == w.extent,
            0 <= w.extent < fit * u,
            fit <= top,
            u > 0,
    ;
    lemma_side(w, e, even);
}

/// What a window holds has a width.
proof fn lemma_span_ordered(s: Seq<SliceView>, a: int, l: LineView)
    requires
        0 <= a < 2,
        s.len() > 0,
        forall|m: int|
            #![trigger s[m]]
            0 <= m < s.len() ==> s[m].bb[2 * a] <= s[m].bb[2 * a + 1],
    ensures
        span(s, a, l).0 <= span(s, a, l).1,
{
    windows_hold_every_slice(s, a, l, 0);
    let c = sum(l.pos, product(l.vel, s[0].t));
    assert(s[0].bb[2 * a] <= s[0].bb[2 * a + 1]);
    lemma_monotone(s[0].bb[2 * a] - c, s[0].bb[2 * a + 1] - c, 1);
}

/// The window along an axis is the whole box, or the window along one of the lines.
proof fn lemma_window_along(g: Seq<Seq<int>>, s: Seq<SliceView>, a: int, fit: nat) -> (o: int)
    ensures
        ({
            let w = window_along(g, s, a, fit);
            if o < 0 {
                w.extent == fraction(fit, 1) && w.pos == 0 && w.vel == 0
            } else {
                let b = window_on(s, a, lines(g, s, a)[o]);
                &&& s.len() > 0
                &&& 0 <= o < lines(g, s, a).len()
                &&& w.extent == b.extent
                &&& w.extent < fraction(fit, 1)
                &&& w.pos == settled(b.pos)
                &&& w.vel == settled(b.vel)
            }
        }),
{
    reveal(window_along);
    let l = lines(g, s, a);
    if s.len() > 0 && best_window(s, a, l).extent < fraction(fit, 1) {
        lemma_best_line(s, a, l)
    } else {
        -1
    }
}

/// The frame on the other side of the centre has a slice, too.
proof fn lemma_opposite_listed(g: Seq<Seq<int>>, dims: Seq<nat>, d: nat, k: nat) -> (j: int)
    requires
        plain_matrix(g),
        k < d <= most_frames(),
        slice_of(g, dims, depth_at(k, half_side(d))) is Some,
    ensures
        0 <= j < slices_upto(g, dims, half_side(d), d).len(),
        slices_upto(g, dims, half_side(d), d)[j].t == -depth_at(k, half_side(d)),
        magnitude_of(depth_at(k, half_side(d))) <= 50_000 * one(),
{
    let zc = half_side(d);
    let t = depth_at(k, zc);
    let k2 = (d - 1 - k) as nat;
    lemma_depth(k, d);
    lemma_depth(k2, d);
    let h = pow2(1073) as int;
    let n = half_frames(k as int, d);
    assert(half_frames(k2 as int, d) == -n);
    assert((-n) * h == -(n * h)) by (nonlinear_arith);
    lemma_pow2_unfold(1074);
    lemma_pow2_pos(1073);
    lemma_abs_product(n, h, 100_000, h);
    slices_exist_within_the_box(g, dims, t);
    slices_exist_within_the_box(g, dims, -t);
    lemma_slice_listed(g, dims, zc, d, k2)
}

/// The extent of a window is a whole number of pixels, and positive.
proof fn lemma_extent(s: Seq<SliceView>, a: int, l: LineView)
    ensures
        ({
            let e = window_on(s, a, l).extent;
            e == (e / one() as int) * one() && e > 0
        }),
{
    let u = one() as int;
    lemma_pow2_pos(1074);
    let (lo, hi) = span(s, a, l);
    let n = ceiling_of(difference(difference(hi, lo), fraction(1, 1_000_000) as int));
    assert(1 * u == u);
    lemma_fundamental_div_mod_converse(n * u, u, n, 0);
    lemma_fundamental_div_mod_converse(u, u, 1, 0);
}

/// A window that follows the content makes no side of the output larger than the bounding box does,
/// and keeps the frame count.
pub proof fn tracked_outputs_are_no_larger(
    g: Seq<Seq<int>>,
    dims: Seq<nat>,
    size: OutputSize,
    even: bool,
    a: int,
)
    requires
        0 <= a < 2,
    ensures
        tracked_sides(g, dims, size, even)[a] <= output_sides(g, dims, size, even)[a],
        tracked_sides(g, dims, size, even)[2] == output_sides(g, dims, size, even)[2],
{
    let fit = fit_sides(g, dims)[a];
    let d = output_sides(g, dims, size, even)[2];
    let s = slices_upto(g, dims, half_side(d), d);
    assert(a == 0 || a == 1);
    if follows(size, a) {
        assert(tracked_window(g, dims, size, even, a) == window_along(g, s, a, fit));
        assert(tracked_sides(g, dims, size, even)[a] == window_side(
            window_along(g, s, a, fit),
            even,
        ));
        assert(output_sides(g, dims, size, even)[a] == up_to_even(fit, even));
        lemma_no_wider(g, s, a, reach(g[a], dims), even);
    }
}

proof fn lemma_no_wider(g: Seq<Seq<int>>, s: Seq<SliceView>, a: int, length: int, even: bool)
    ensures
        window_side(window_along(g, s, a, covering(length)), even) <= up_to_even(
            covering(length),
            even,
        ),
{
    let u = one() as int;
    let fit = covering(length);
    lemma_pow2_pos(1074);
    let w = window_along(g, s, a, fit);
    let o = lemma_window_along(g, s, a, fit);
    assert(w.extent <= fraction(fit, 1));
    if fit < usize::MAX {
        lemma_covering(length);
        let n = floor_of(w.extent);
        lemma_fundamental_div_mod(w.extent, u);
        assert(n <= fit) by (nonlinear_arith)
            requires
                u * n <= fit * u,
                u > 0,
        ;
    }
}

} // verus!
