//! Edges that graze a plane: one end lies so close to it that the other end decides alone.

use vstd::prelude::*;
use vstd::arithmetic::power2::{
    lemma2_to64, lemma2_to64_rest, lemma_pow2_adds, lemma_pow2_pos, lemma_pow2_strictly_increases,
    lemma_pow2_unfold, pow2,
};
use crate::accuracy::{lemma_abs_product, lemma_one_is_large, lemma_product_error, lemma_sum_error};
use crate::binary64::{
    difference, lemma_absorbed, magnitude_of, one, product, quotient, round_signed,
    whole_numbers_are_exact,
};
use crate::rotation::in_format;
use crate::rounding::{lemma_rounded_bits, lemma_rounded_scale};
use crate::slices::{lemma_odd, lemma_quotient_close, met_at, share};

verus! {

/// Less than 2^-872.
pub open spec fn speck() -> int {
    pow2(202) as int
}

/// At least 2^-202.
pub open spec fn clod() -> int {
    pow2(872) as int
}

/// One of the depths is next to nothing, the other is not.
pub open spec fn grazing(da: int, db: int) -> bool {
    ||| magnitude_of(da) <= speck() && magnitude_of(db) >= clod()
    ||| magnitude_of(db) <= speck() && magnitude_of(da) >= clod()
}

/// A number of at most 53 bits, with all of them.
proof fn lemma_full_bits(m: nat, x: nat) -> (r: (nat, nat))
    requires
        0 < m < 0x20_0000_0000_0000,
        m * pow2(x) >= pow2(872),
    ensures
        0x10_0000_0000_0000 <= r.0 < 0x20_0000_0000_0000,
        r.1 >= 819,
        r.0 * pow2(r.1) == m * pow2(x),
    decreases 0x20_0000_0000_0000 - m,
{
    lemma2_to64_rest();
    lemma_pow2_adds(53, x);
    lemma_pow2_pos(x);
    let p = pow2(x);
    assert(m * p < 0x20_0000_0000_0000 * p) by (nonlinear_arith)
        requires
            m < 0x20_0000_0000_0000,
            p > 0,
    ;
    if x + 53 <= 872 {
        if x + 53 < 872 {
            lemma_pow2_strictly_increases(x + 53, 872);
        }
        assert(false);
    }
    if m >= 0x10_0000_0000_0000 {
        (m, x)
    } else {
        let y = (x - 1) as nat;
        lemma_pow2_unfold(x);
        assert((2 * m) * pow2(y) == m * (2 * pow2(y))) by (nonlinear_arith);
        lemma_full_bits(2 * m, y)
    }
}

/// A speck is lost in a clod.
pub proof fn lemma_lost(x: int, y: int)
    requires
        in_format(x),
        magnitude_of(x) >= clod(),
        magnitude_of(y) <= speck(),
    ensures
        round_signed(x + y, 1) == x,
{
    let a = magnitude_of(x) as nat;
    lemma_rounded_bits(a, 1, 53);
    lemma2_to64_rest();
    lemma_odd(x, 1);
    let (m, k) = choose|m: nat, k: nat| m < pow2(53) && a == #[trigger] (m * pow2(k));
    lemma_pow2_pos(872);
    assert(m > 0) by {
        if m == 0 {
            assert(0 * pow2(k) == 0);
        }
    }
    let (f, e) = lemma_full_bits(m, k);
    lemma_pow2_strictly_increases(202, (e - 12) as nat);
    lemma_absorbed(f, e, y);
    lemma_absorbed(f, e, -y);
    if x < 0 {
        lemma_odd(x + y, 1);
    }
}

/// A number divided by itself.
proof fn lemma_itself(x: int)
    requires
        x != 0,
    ensures
        quotient(x, x) == one(),
{
    let u = one();
    let m = magnitude_of(x) as nat;
    lemma_pow2_pos(1074);
    whole_numbers_are_exact(1);
    assert(1 * u == u);
    lemma_rounded_scale(u, 1, m, 53);
    assert(1 * m == m);
    assert(u * m == m * u) by (nonlinear_arith);
    assert(m * u >= 0);
}

/// A speck divided by a clod is next to nothing.
proof fn lemma_hardly_any(x: int, y: int)
    requires
        magnitude_of(x) <= speck(),
        magnitude_of(y) >= clod(),
    ensures
        magnitude_of(quotient(x, y)) <= pow2(406),
{
    let u = one() as int;
    let k = 0x20_0000_0000_0000int;
    lemma_pow2_pos(872);
    lemma_pow2_pos(202);
    lemma_pow2_pos(1074);
    lemma_quotient_close(x, y);
    let q = quotient(x, y);
    let (n, m, d) = (magnitude_of(q), magnitude_of(x), magnitude_of(y));
    lemma_abs_product(q, y, n, d);
    lemma_abs_product(x, u, m, u);
    let e = magnitude_of(q * y - x * u);
    assert(n * d <= m * u + e);
    lemma_pow2_adds(202, 1074);
    lemma_pow2_adds(872, 404);
    lemma_pow2_unfold(406);
    lemma_pow2_unfold(405);
    lemma_pow2_strictly_increases(0, 404);
    lemma2_to64();
    let p = pow2(404) as int;
    assert(m * u <= d * p) by (nonlinear_arith)
        requires
            m <= speck(),
            d >= clod(),
            u > 0,
            p > 0,
            speck() * u == clod() * p,
    ;
    assert(k * (n * d) <= k * (d * p) + d * p + k * d) by {
        assert(k * e <= m * u + k * d);
    }
    assert(n <= 2 * p + 1) by (nonlinear_arith)
        requires
            k * (n * d) <= k * (d * p) + d * p + k * d,
            k > 1,
            d > 0,
            p > 0,
    ;
}

/// The shares of an edge that grazes the plane: all of the way, or hardly any of it.
pub proof fn lemma_grazing_shares(da: int, db: int)
    requires
        in_format(da),
        in_format(db),
        grazing(da, db),
    ensures
        difference(da, db) != 0,
        ({
            let (t, v) = (share(da, db), share(-db, -da));
            ||| magnitude_of(t) <= pow2(406) && v == one()
            ||| t == one() && magnitude_of(v) <= pow2(406)
        }),
{
    lemma_pow2_pos(872);
    lemma_odd(da, 1);
    lemma_odd(db, 1);
    if magnitude_of(da) <= speck() && magnitude_of(db) >= clod() {
        lemma_lost(-db, da);
        assert(difference(da, db) == -db);
        assert(difference(-db, -da) == -db);
        lemma_hardly_any(da, -db);
        lemma_itself(-db);
    } else {
        lemma_lost(da, -db);
        assert(difference(da, db) == da);
        assert(difference(-db, -da) == da);
        lemma_itself(da);
        lemma_hardly_any(-db, da);
    }
}

/// A point next to a corner reaches no further than the box, but for one part in 2^51.
pub proof fn lemma_point_grazed(a: int, b: int, t: int, r: int)
    requires
        magnitude_of(t) <= pow2(406),
        -r <= a <= r,
        -r <= b <= r,
        r >= 0x40_0000_0000_0000,
    ensures
        0x8_0000_0000_0000 * (magnitude_of(met_at(a, b, t)) - r) <= r,
{
    let u = one() as int;
    let k = 0x20_0000_0000_0000int;
    let d = difference(b, a);
    lemma_one_is_large();
    lemma_sum_error(b, a);
    let p = product(t, d);
    lemma_product_error(t, d);
    let q = pow2(406) as int;
    lemma_abs_product(t, d, q, 3 * r);
    lemma2_to64();
    lemma2_to64_rest();
    lemma_pow2_adds(406, 64);
    lemma_pow2_strictly_increases(470, 1074);
    assert(0x400_0000_0000_0000 * (q * (3 * r)) <= u * r) by (nonlinear_arith)
        requires
            q * 0x1_0000_0000_0000_0000 <= u,
            r >= 0,
            q >= 0,
    ;
    let (m, v) = (magnitude_of(p), magnitude_of(t * d));
    lemma_abs_product(p, u, m, u);
    let e = magnitude_of(p * u - t * d);
    assert(k * e <= v + k * u);
    assert(m * u <= v + e);
    assert(0x20_0000_0000_0000 * m <= r + 2 * 0x20_0000_0000_0000) by (nonlinear_arith)
        requires
            m * u <= v + e,
            k * e <= v + k * u,
            k == 0x20_0000_0000_0000,
            0x400_0000_0000_0000 * v <= u * r,
            v >= 0,
            u > 0,
    ;
    lemma_sum_error(a, p);
}

} // verus!
