//! What is rendered lies between what it is rendered from: rounded weights add up to nearly one, and
//! a sample that is blended with them is no darker and no brighter than the voxels around it.

use vstd::prelude::*;
use vstd::arithmetic::div_mod::lemma_fundamental_div_mod;
use vstd::arithmetic::power2::{
    lemma2_to64, lemma2_to64_rest, lemma_pow2_adds, lemma_pow2_strictly_increases, pow2,
};
use crate::binary32::{complement32, narrowing_keeps_one, product32, rounded32, sum32, unity};
use crate::binary64::{difference, floor_of, fractions_stay_below_one, magnitude_of, one};
use crate::pixfmt::sample_bytes;
use crate::render::{
    along, cell, row_touched, sample_at, tap_x, tap_y, tap_z, taps, weights, RendererView, TapView,
};
use crate::rounding::{lemma_halved, lemma_rounded_scale, nearest};
use crate::track::half;
use crate::volume::{half32, nearest_sample};

verus! {

/// Rounding to 24 bits is off by at most one part in 2^24, or by half a unit.
pub proof fn lemma_rounded32(n: nat, d: nat)
    requires
        d > 0,
    ensures
        2 * magnitude_of(rounded32(n, d) * d - n) <= d || 0x100_0000 * magnitude_of(
            rounded32(n, d) * d - n,
        ) <= n,
    decreases n / d,
{
    lemma2_to64();
    if n < pow2(24) * d {
        let (q, m) = (n / d, n % d);
        lemma_fundamental_div_mod(n as int, d as int);
        assert(q * d == d * q) by (nonlinear_arith);
        assert((q + 1) * d == d * q + d) by (nonlinear_arith);
        assert(rounded32(n, d) == nearest(n, d));
    } else {
        lemma_halved(n, d, pow2(24));
        lemma_rounded32(n, 2 * d);
        let r = rounded32(n, 2 * d);
        assert((2 * r) * d == r * (2 * d)) by (nonlinear_arith);
        assert(rounded32(n, d) == 2 * r);
    }
}

/// The number one is many units.
pub proof fn lemma_unity_is_large()
    ensures
        unity() >= 0x1_0000_0000_0000_0000,
        unity() == 2 * half32(),
{
    lemma2_to64();
    lemma2_to64_rest();
    lemma_pow2_strictly_increases(64, 149);
    lemma_pow2_adds(1, 148);
}

/// The two weights of a coordinate add up to one but for one part in 2^24.
pub proof fn lemma_weights(q: int)
    ensures
        weights(q).0 <= 2 * unity(),
        weights(q).1 <= unity(),
        0x100_0000 * magnitude_of(weights(q).0 + weights(q).1 - unity()) <= unity(),
{
    fractions_stay_below_one(q);
    let f = difference(q, floor_of(q) * one()) as nat;
    narrowing_keeps_one(f);
    let t = weights(q).1;
    lemma_unity_is_large();
    lemma_rounded32((unity() - t) as nat, 1);
    assert(weights(q).0 == complement32(t));
}

/// A weight is parted into two, by weights that add up to one but for one part in 2^24.
proof fn lemma_parted(w: int, a: int, b: int, x: int, y: int, u: int)
    requires
        u >= 0x1_0000_0000_0000_0000,
        0 <= w <= 2 * u,
        a >= 0,
        b >= 0,
        0x100_0000 * magnitude_of(a + b - u) <= u,
        0x100_0000 * magnitude_of(x * u - w * a) <= w * a + 0x100_0000 * u,
        0x100_0000 * magnitude_of(y * u - w * b) <= w * b + 0x100_0000 * u,
    ensures
        0x20_0000 * magnitude_of(x + y - w) <= u,
{
    let g = a + b - u;
    let s = x + y - w;
    let k = u * u;
    assert(s * u == (x * u - w * a) + (y * u - w * b) + w * g) by (nonlinear_arith)
        requires
            s == x + y - w,
            g == a + b - u,
    ;
    assert(w * a + w * b == w * u + w * g) by (nonlinear_arith)
        requires
            g == a + b - u,
    ;
    assert(w * u <= 2 * k) by (nonlinear_arith)
        requires
            w <= 2 * u,
            u >= 0,
            k == u * u,
    ;
    assert(-(w * u) <= 0x100_0000 * (w * g) <= w * u) by (nonlinear_arith)
        requires
            -u <= 0x100_0000 * g <= u,
            w >= 0,
    ;
    assert(k >= 0x1_0000_0000_0000_0000 * u) by (nonlinear_arith)
        requires
            u >= 0x1_0000_0000_0000_0000,
            k == u * u,
    ;
    assert(-(6 * k) <= 0x100_0000 * (s * u) <= 6 * k);
    assert(-(6 * u) <= 0x100_0000 * s <= 6 * u) by (nonlinear_arith)
        requires
            -(6 * k) <= 0x100_0000 * (s * u) <= 6 * k,
            k == u * u,
            u > 0,
    ;
}

/// The parts of a weight add up to it but for one part in 2^21.
proof fn lemma_parts(w: nat, q: int)
    requires
        w <= 2 * unity(),
    ensures
        0x20_0000 * magnitude_of(
            product32(w, weights(q).0) + product32(w, weights(q).1) - w,
        ) <= unity(),
{
    let (a, b) = weights(q);
    lemma_weights(q);
    lemma_unity_is_large();
    lemma_rounded32(w * a, unity());
    lemma_rounded32(w * b, unity());
    lemma_parted(
        w as int,
        a as int,
        b as int,
        product32(w, a) as int,
        product32(w, b) as int,
        unity() as int,
    );
}

/// All weights together.
pub open spec fn total_weight(t: Seq<TapView>) -> nat
    decreases t.len(),
{
    if t.len() == 0 {
        0
    } else {
        total_weight(t.drop_last()) + t.last().weight
    }
}

proof fn lemma_total_of_both(s: Seq<TapView>, t: Seq<TapView>)
    ensures
        total_weight(s + t) == total_weight(s) + total_weight(t),
    decreases t.len(),
{
    if t.len() == 0 {
        assert(s + t =~= s);
    } else {
        assert((s + t).drop_last() =~= s + t.drop_last());
        lemma_total_of_both(s, t.drop_last());
    }
}

proof fn lemma_total_x(x: int, y: int, z: int, w: nat, dims: Seq<nat>)
    ensures
        total_weight(tap_x(x, y, z, w, dims)) == w,
        tap_x(x, y, z, w, dims).len() <= 1,
{
    reveal_with_fuel(total_weight, 2);
    let t = tap_x(x, y, z, w, dims);
    if w != 0 {
        assert(t.drop_last() =~= Seq::<TapView>::empty());
    }
}

proof fn lemma_total_y(x: int, y: int, z: int, w: nat, q: int, dims: Seq<nat>)
    requires
        w <= 2 * unity(),
    ensures
        0x20_0000 * magnitude_of(total_weight(tap_y(x, y, z, w, weights(q), dims)) - w) <= unity(),
        tap_y(x, y, z, w, weights(q), dims).len() <= 2,
{
    let (a, b) = weights(q);
    if w != 0 {
        lemma_parts(w, q);
        lemma_total_x(x, y, z, product32(w, a), dims);
        lemma_total_x(x + 1, y, z, product32(w, b), dims);
        lemma_total_of_both(
            tap_x(x, y, z, product32(w, a), dims),
            tap_x(x + 1, y, z, product32(w, b), dims),
        );
    }
}

proof fn lemma_total_z(x: int, y: int, z: int, w: nat, q: int, v: int, dims: Seq<nat>)
    requires
        2 * w <= 3 * unity(),
    ensures
        0x20_0000 * magnitude_of(
            total_weight(tap_z(x, y, z, w, weights(q), weights(v), dims)) - w,
        ) <= 3 * unity(),
        tap_z(x, y, z, w, weights(q), weights(v), dims).len() <= 4,
{
    let (a, b) = weights(v);
    if w == 0 {
    } else if !(0 <= z < dims[2]) {
        reveal_with_fuel(total_weight, 2);
        let t = tap_z(x, y, z, w, weights(q), weights(v), dims);
        assert(t.drop_last() =~= Seq::<TapView>::empty());
    } else {
        lemma_parts(w, v);
        lemma_unity_is_large();
        let (m, n) = (product32(w, a), product32(w, b));
        lemma_total_y(x, y, z, m, q, dims);
        lemma_total_y(x, y + 1, z, n, q, dims);
        lemma_total_of_both(
            tap_y(x, y, z, m, weights(q), dims),
            tap_y(x, y + 1, z, n, weights(q), dims),
        );
    }
}

/// The weights of the voxels around a coordinate add up to one but for seven parts in 2^21, and there
/// are at most eight of them.
pub proof fn weights_add_up_to_one(q: Seq<int>, dims: Seq<nat>)
    ensures
        0x20_0000 * magnitude_of(total_weight(taps(q, dims)) - unity()) <= 7 * unity(),
        taps(q, dims).len() <= 8,
{
    let (x, y, z) = (cell(q[0]), cell(q[1]), cell(q[2]));
    let w = weights(q[2]);
    lemma_weights(q[2]);
    lemma_unity_is_large();
    lemma_total_z(x, y, z, w.0, q[0], q[1], dims);
    lemma_total_z(x, y, z + 1, w.1, q[0], q[1], dims);
    lemma_total_of_both(
        tap_z(x, y, z, w.0, weights(q[0]), weights(q[1]), dims),
        tap_z(x, y, z + 1, w.1, weights(q[0]), weights(q[1]), dims),
    );
}

/// Channel `c` of all weighted voxels lies between `lo` and `hi`.
pub open spec fn within(
    r: RendererView,
    vol: Seq<Seq<u8>>,
    p: int,
    t: Seq<TapView>,
    c: int,
    lo: nat,
    hi: nat,
) -> bool {
    forall|i: int| 0 <= i < t.len() ==> lo <= #[trigger] r.tap_sample(vol, p, t[i], c) <= hi
}

/// The samples times their weights, added up without rounding.
pub open spec fn weighed(r: RendererView, vol: Seq<Seq<u8>>, p: int, t: Seq<TapView>, c: int) -> nat
    decreases t.len(),
{
    if t.len() == 0 {
        0
    } else {
        weighed(r, vol, p, t.drop_last(), c) + t.last().weight * r.tap_sample(vol, p, t.last(), c)
    }
}

pub proof fn lemma_weighed(
    r: RendererView,
    vol: Seq<Seq<u8>>,
    p: int,
    t: Seq<TapView>,
    c: int,
    lo: nat,
    hi: nat,
)
    requires
        within(r, vol, p, t, c, lo, hi),
    ensures
        lo * total_weight(t) <= weighed(r, vol, p, t, c) <= hi * total_weight(t),
    decreases t.len(),
{
    if t.len() > 0 {
        let s = t.drop_last();
        assert forall|i: int| 0 <= i < s.len() implies lo <= #[trigger] r.tap_sample(
            vol,
            p,
            s[i],
            c,
        ) <= hi by {
            assert(s[i] == t[i]);
        }
        lemma_weighed(r, vol, p, s, c, lo, hi);
        let (w, x, a) = (t.last().weight, r.tap_sample(vol, p, t.last(), c), total_weight(s));
        assert(lo <= r.tap_sample(vol, p, t[t.len() - 1], c) <= hi);
        assert(lo * (a + w) == lo * a + lo * w && hi * (a + w) == hi * a + hi * w)
            by (nonlinear_arith);
        assert(lo * w <= w * x <= hi * w) by (nonlinear_arith)
            requires
                lo <= x <= hi,
        ;
    } else {
        assert(lo * 0 == 0 && hi * 0 == 0);
    }
}

/// Blending with rounding is off by at most one part in 64 for each voxel.
pub proof fn lemma_blended(
    r: RendererView,
    vol: Seq<Seq<u8>>,
    p: int,
    t: Seq<TapView>,
    c: int,
)
    requires
        t.len() <= 8,
        within(r, vol, p, t, c, 0, 65535),
        2 * total_weight(t) <= 3 * unity(),
    ensures
        64 * magnitude_of(r.blended(vol, p, t, c) - weighed(r, vol, p, t, c)) <= t.len() * unity(),
    decreases t.len(),
{
    let u = unity();
    if t.len() > 0 {
        let s = t.drop_last();
        assert forall|i: int| 0 <= i < s.len() implies 0 <= #[trigger] r.tap_sample(
            vol,
            p,
            s[i],
            c,
        ) <= 65535 by {
            assert(s[i] == t[i]);
        }
        lemma_blended(r, vol, p, s, c);
        lemma_weighed(r, vol, p, t, c, 0, 65535);
        let (w, x) = (t.last().weight, r.tap_sample(vol, p, t.last(), c));
        let (a, b) = (r.blended(vol, p, s, c), product32(w, x * u));
        let (n, m) = (weighed(r, vol, p, s, c), w * x);
        lemma_unity_is_large();
        assert(w * (x * u) == m * u) by (nonlinear_arith)
            requires
                m == w * x,
        ;
        lemma_rounded_scale(m, 1, u, 24);
        assert(1 * u == u);
        lemma_rounded32(m, 1);
        lemma_rounded32(a + b, 1);
        assert(0x100_0000 * magnitude_of(b - m) <= m);
        assert(r.blended(vol, p, t, c) == sum32(a, b));
        let k = t.len();
        let j = (k - 1) as nat;
        assert(k * u == j * u + u && j * u <= 7 * u) by (nonlinear_arith)
            requires
                k == j + 1,
                j <= 7,
        ;
        assert(n + m <= 0x18000 * u);
        assert(a + b <= 0x20000 * u);
    }
}

/// A number near the range from `lo` to `hi` is stored as a sample in it.
proof fn lemma_stored_between(v: nat, lo: nat, hi: nat, top: nat)
    requires
        lo <= hi <= top <= 65535,
        32 * v + 11 * unity() >= 32 * (lo * unity()),
        32 * v <= 32 * (hi * unity()) + 11 * unity(),
    ensures
        lo <= nearest_sample(v, top) <= hi,
{
    let u = unity();
    lemma_unity_is_large();
    lemma_rounded32(v + half32(), 1);
    let s = sum32(v, half32());
    assert(lo * u <= 65535 * u && hi * u <= 65535 * u) by (nonlinear_arith)
        requires
            lo <= 65535,
            hi <= 65535,
    ;
    assert(lo * u <= s < hi * u + u);
    let n = s / u;
    lemma_fundamental_div_mod(s as int, u as int);
    assert(lo <= n <= hi) by (nonlinear_arith)
        requires
            lo * u <= s < hi * u + u,
            s == u * n + s % u,
            0 <= s % u < u,
    ;
}

/// A sample that is blended from voxels, and from the fill where the volume ends, lies between the
/// smallest and the largest sample of these.
pub proof fn blends_lie_between_their_voxels(
    r: RendererView,
    vol: Seq<Seq<u8>>,
    p: int,
    q: Seq<int>,
    c: int,
    lo: nat,
    hi: nat,
    top: nat,
)
    requires
        lo <= hi <= top <= 65535,
        forall|i: int|
            0 <= i < taps(q, r.geoms[p].in_dims).len() ==> lo <= #[trigger] r.tap_sample(
                vol,
                p,
                taps(q, r.geoms[p].in_dims)[i],
                c,
            ) <= hi,
    ensures
        lo <= nearest_sample(r.blended(vol, p, taps(q, r.geoms[p].in_dims), c), top) <= hi,
{
    let t = taps(q, r.geoms[p].in_dims);
    let (u, w) = (unity(), total_weight(t));
    lemma_unity_is_large();
    weights_add_up_to_one(q, r.geoms[p].in_dims);
    assert(within(r, vol, p, t, c, lo, hi));
    assert(within(r, vol, p, t, c, 0, 65535));
    lemma_weighed(r, vol, p, t, c, lo, hi);
    lemma_blended(r, vol, p, t, c);
    let k = t.len();
    assert(k * u <= 8 * u) by (nonlinear_arith)
        requires
            k <= 8,
    ;
    let g = w - u;
    assert(lo * w == lo * u + lo * g && hi * w == hi * u + hi * g) by (nonlinear_arith)
        requires
            w == u + g,
    ;
    let e = magnitude_of(g);
    assert(lo * g >= -(65535 * e)) by (nonlinear_arith)
        requires
            0 <= lo <= 65535,
            g >= -e,
            e >= 0,
    ;
    assert(hi * g <= 65535 * e) by (nonlinear_arith)
        requires
            0 <= hi <= 65535,
            g <= e,
            e >= 0,
    ;
    lemma_stored_between(r.blended(vol, p, t, c), lo, hi, top);
}

/// Channel `c` of all voxels of a plane, and of its fill, lies between `lo` and `hi`.
pub open spec fn plane_within(
    r: RendererView,
    vol: Seq<Seq<u8>>,
    p: int,
    c: int,
    lo: nat,
    hi: nat,
) -> bool {
    let d = r.geoms[p].in_dims;
    let b = r.format.bytes;
    &&& lo <= sample_at(r.fill[p], c * b, b) <= hi
    &&& forall|x: int, y: int, z: int|
        0 <= x < d[0] && 0 <= y < d[1] && 0 <= z < d[2] ==> lo <= sample_at(
            #[trigger] r.voxel_or_fill(vol, p, Some((x, y, z))),
            c * b,
            b,
        ) <= hi
}

/// A weighted voxel lies in the volume, if it is there at all.
spec fn all_inside(t: Seq<TapView>, d: Seq<nat>) -> bool {
    forall|i: int|
        0 <= i < t.len() ==> match (#[trigger] t[i]).voxel {
            Some((x, y, z)) => 0 <= x < d[0] && 0 <= y < d[1] && 0 <= z < d[2],
            None => true,
        }
}

proof fn lemma_both_inside(s: Seq<TapView>, t: Seq<TapView>, d: Seq<nat>)
    requires
        all_inside(s, d),
        all_inside(t, d),
    ensures
        all_inside(s + t, d),
{
    let u = s + t;
    assert forall|i: int| 0 <= i < u.len() implies match (#[trigger] u[i]).voxel {
        Some((x, y, z)) => 0 <= x < d[0] && 0 <= y < d[1] && 0 <= z < d[2],
        None => true,
    } by {
        if i < s.len() {
            assert(u[i] == s[i]);
        } else {
            assert(u[i] == t[i - s.len()]);
        }
    }
}

proof fn lemma_row_inside(x: int, y: int, z: int, w: nat, wx: (nat, nat), d: Seq<nat>)
    requires
        0 <= z < d[2],
    ensures
        all_inside(tap_y(x, y, z, w, wx, d), d),
{
    lemma_both_inside(
        tap_x(x, y, z, product32(w, wx.0), d),
        tap_x(x + 1, y, z, product32(w, wx.1), d),
        d,
    );
}

proof fn lemma_frame_inside(
    x: int,
    y: int,
    z: int,
    w: nat,
    wx: (nat, nat),
    wy: (nat, nat),
    d: Seq<nat>,
)
    ensures
        all_inside(tap_z(x, y, z, w, wx, wy, d), d),
{
    if 0 <= z < d[2] {
        let (m, n) = (product32(w, wy.0), product32(w, wy.1));
        lemma_row_inside(x, y, z, m, wx, d);
        lemma_row_inside(x, y + 1, z, n, wx, d);
        lemma_both_inside(tap_y(x, y, z, m, wx, d), tap_y(x, y + 1, z, n, wx, d), d);
    }
}

proof fn lemma_taps_inside(q: Seq<int>, d: Seq<nat>)
    ensures
        all_inside(taps(q, d), d),
{
    let (x, y, z) = (cell(q[0]), cell(q[1]), cell(q[2]));
    let (wx, wy, wz) = (weights(q[0]), weights(q[1]), weights(q[2]));
    lemma_frame_inside(x, y, z, wz.0, wx, wy, d);
    lemma_frame_inside(x, y, z + 1, wz.1, wx, wy, d);
    lemma_both_inside(
        tap_z(x, y, z, wz.0, wx, wy, d),
        tap_z(x, y, z + 1, wz.1, wx, wy, d),
        d,
    );
}

/// A blended voxel holds its channels one after the other.
pub proof fn lemma_blended_sample(
    r: RendererView,
    vol: Seq<Seq<u8>>,
    p: int,
    t: Seq<TapView>,
    n: nat,
    c: int,
    top: nat,
)
    requires
        1 <= r.format.bytes <= 2,
        top == if r.format.bytes == 1 {
            255nat
        } else {
            65535nat
        },
        0 <= c < n,
    ensures
        r.blended_bytes(vol, p, t, n).len() == n * r.format.bytes,
        sample_at(r.blended_bytes(vol, p, t, n), c * r.format.bytes, r.format.bytes)
            == nearest_sample(r.blended(vol, p, t, c), top),
    decreases n,
{
    let b = r.format.bytes;
    let m = (n - 1) as nat;
    let last = sample_bytes(nearest_sample(r.blended(vol, p, t, m as int), top), b);
    let data = r.blended_bytes(vol, p, t, n);
    assert(data == r.blended_bytes(vol, p, t, m) + last);
    assert(n * b == m * b + b) by (nonlinear_arith)
        requires
            n == m + 1,
    ;
    if m == 0 {
        assert(0 * b == 0);
    } else {
        lemma_blended_sample(r, vol, p, t, m, 0, top);
    }
    if c == m {
        let v = nearest_sample(r.blended(vol, p, t, c), top);
        assert(v <= top);
        assert(data[c * b] == last[0]);
        if b == 2 {
            assert(data[c * b + 1] == last[1]);
        }
    } else {
        lemma_blended_sample(r, vol, p, t, m, c, top);
        assert(0 <= c * b && c * b + b <= m * b) by (nonlinear_arith)
            requires
                0 <= c < m,
        ;
    }
}

/// Rendering makes nothing darker or brighter: a sample of an output pixel lies between the smallest
/// and the largest sample of its channel in the plane and its fill.
pub proof fn rendering_stays_between_its_samples(
    r: RendererView,
    vol: Seq<Seq<u8>>,
    p: int,
    x: nat,
    y: nat,
    z: nat,
    c: int,
    lo: nat,
    hi: nat,
)
    requires
        r.wf(),
        0 <= p < r.format.planes.len(),
        0 <= c < r.format.planes[p].channels,
        plane_within(r, vol, p, c, lo, hi),
    ensures
        lo <= sample_at(
            r.pixel(vol, p, x, y, z),
            c * r.format.bytes,
            r.format.bytes,
        ) <= hi,
{
    let g = r.geoms[p];
    let b = r.format.bytes;
    let q0 = r.row_start(p, y, z);
    let dq = g.step_x();
    let q = seq![along(q0[0], dq[0], x), along(q0[1], dq[1], x), along(q0[2], dq[2], x)];
    let touched = row_touched(g, q0, dq, r.margin()) matches Some((x0, x1)) && x0 <= x < x1;
    if touched && r.interp is Trilinear {
        let h = seq![
            difference(q[0], half()),
            difference(q[1], half()),
            difference(q[2], half()),
        ];
        let t = taps(h, g.in_dims);
        let top: nat = if b == 1 {
            255
        } else {
            65535
        };
        let most = if hi > top {
            top
        } else {
            hi
        };
        lemma_taps_inside(h, g.in_dims);
        assert forall|i: int| 0 <= i < t.len() implies lo <= #[trigger] r.tap_sample(
            vol,
            p,
            t[i],
            c,
        ) <= most by {
            match t[i].voxel {
                Some((i, j, k)) => {
                    assert(lo <= sample_at(
                        r.voxel_or_fill(vol, p, Some((i, j, k))),
                        c * b,
                        b,
                    ) <= hi);
                },
                None => {},
            }
        }
        blends_lie_between_their_voxels(r, vol, p, h, c, lo, most, top);
        lemma_blended_sample(r, vol, p, t, r.format.planes[p].channels, c, top);
        assert(r.pixel(vol, p, x, y, z) == r.blended_bytes(
            vol,
            p,
            t,
            r.format.planes[p].channels,
        ));
    } else if touched {
        assert(r.pixel(vol, p, x, y, z) == r.voxel_or_fill(vol, p, r.hit(p, q)));
    } else {
        assert(r.pixel(vol, p, x, y, z) == r.fill[p]);
    }
}

} // verus!
