//! The window that follows the content is as small as along any of the lines that it may move on.

use vstd::prelude::*;
use vstd::arithmetic::div_mod::lemma_fundamental_div_mod;
use vstd::arithmetic::power2::lemma_pow2_pos;
use crate::accuracy::{lemma_one_is_large, lemma_quotient_error};
use crate::binary64::{
    ceiling_of, difference, fraction, magnitude_of, one, product, quotient, round_signed, sum,
    whole_numbers_are_exact,
};
use crate::geometry::{output_sides, OutputSize};
use crate::rounding::rounding_is_monotonic;
use crate::track::{
    axis_line, half_side, lines, slices_upto, span, the_smallest_window_is_taken, tracked_window,
    window_along, window_on, LineView, SliceView,
};

verus! {

/// Every slice lies between `lo` and `hi` of a line, along axis `a`.
pub open spec fn all_between(s: Seq<SliceView>, a: int, pos: int, vel: int, lo: int, hi: int) -> bool {
    forall|i: int|
        0 <= i < s.len() ==> {
            let c = sum(pos, product(vel, (#[trigger] s[i]).t));
            lo <= difference(s[i].bb[2 * a], c) && difference(s[i].bb[2 * a + 1], c) <= hi
        }
}

proof fn lemma_span_between(s: Seq<SliceView>, a: int, l: LineView, lo: int, hi: int)
    requires
        s.len() > 0,
        all_between(s, a, l.pos, l.vel, lo, hi),
    ensures
        lo <= span(s, a, l).0,
        span(s, a, l).1 <= hi,
    decreases s.len(),
{
    assert(s[s.len() - 1] == s.last());
    if s.len() > 1 {
        let front = s.drop_last();
        assert forall|i: int| 0 <= i < front.len() implies {
            let c = sum(l.pos, product(l.vel, (#[trigger] front[i]).t));
            lo <= difference(front[i].bb[2 * a], c) && difference(front[i].bb[2 * a + 1], c) <= hi
        } by {
            assert(front[i] == s[i]);
        }
        lemma_span_between(front, a, l, lo, hi);
    } else {
        assert(s[0] == s.last());
    }
}

/// A window that some whole pixels hold is no wider than those.
proof fn lemma_window_upto(s: Seq<SliceView>, a: int, l: LineView, lo: int, hi: int, n: nat)
    requires
        s.len() > 0,
        all_between(s, a, l.pos, l.vel, lo, hi),
        1 <= n < 0x20_0000_0000_0000,
        hi - lo <= n * one(),
    ensures
        window_on(s, a, l).extent <= n * one(),
{
    let u = one() as int;
    let nu = (n * one()) as int;
    lemma_pow2_pos(1074);
    lemma_span_between(s, a, l, lo, hi);
    let (x, y) = span(s, a, l);
    lemma_rounded_upto(y - x, n);
    let d = difference(y, x);
    let m = fraction(1, 1_000_000) as int;
    lemma_rounded_upto(d - m, n);
    let e = difference(d, m);
    assert(e <= nu);
    let k = (-e) / u;
    lemma_fundamental_div_mod(-e, u);
    let c = ceiling_of(e);
    assert(c <= n) by (nonlinear_arith)
        requires
            c == -k,
            -e == u * k + (-e) % u,
            0 <= (-e) % u < u,
            e <= n * u,
            u > 0,
    ;
    assert(c * u <= nu && u <= nu) by (nonlinear_arith)
        requires
            c <= n,
            nu == n * u,
            n >= 1,
            u > 0,
    ;
}

proof fn lemma_rounded_upto(v: int, n: nat)
    requires
        v <= n * one(),
        n < 0x20_0000_0000_0000,
    ensures
        round_signed(v, 1) <= n * one(),
{
    whole_numbers_are_exact(n);
    if v >= 0 {
        rounding_is_monotonic(v as nat, n * one(), 1, 53);
    }
}

/// The window follows the content as closely as standing still would, or moving along with any of the
/// input axes that runs through time: where some whole pixels along such a line hold every slice, the
/// window is no wider than those.
pub proof fn the_window_is_as_small_as_along_any_axis(
    g: Seq<Seq<int>>,
    dims: Seq<nat>,
    size: OutputSize,
    even: bool,
    a: int,
    j: int,
    still: bool,
    lo: int,
    hi: int,
    n: nat,
)
    requires
        0 <= a < 2,
        0 <= j < 3,
        still || 500_000_000 * magnitude_of(g[2][j]) >= one(),
        1 <= n < 0x20_0000_0000_0000,
        hi - lo <= n * one(),
        ({
            let depth = output_sides(g, dims, size, even)[2];
            let s = slices_upto(g, dims, half_side(depth), depth);
            let vel = if still {
                0
            } else {
                quotient(g[a][j], g[2][j])
            };
            s.len() > 0 && all_between(s, a, 0, vel, lo, hi)
        }),
    ensures
        tracked_window(g, dims, size, even, a).extent <= n * one(),
{
    let depth = output_sides(g, dims, size, even)[2];
    let s = slices_upto(g, dims, half_side(depth), depth);
    reveal(window_along);
    let all = lines(g, s, a);
    let u = one();
    lemma_one_is_large();
    assert(1 * u == u);
    lemma_quotient_error(u as int, 1_000_000_000);
    let (p, q, r) = (axis_line(g, a, 0), axis_line(g, a, 1), axis_line(g, a, 2));
    let i: int = if still {
        0
    } else if j == 0 {
        1
    } else if j == 1 {
        1 + p.len() as int
    } else {
        1 + p.len() as int + q.len() as int
    };
    let vel = if still {
        0
    } else {
        quotient(g[a][j], g[2][j])
    };
    assert(all[i] == LineView { pos: 0, vel });
    the_smallest_window_is_taken(s, a, all, i);
    lemma_window_upto(s, a, all[i], lo, hi, n);
}

} // verus!
