//! How far arithmetic is from the numbers it stands for.

use vstd::prelude::*;
use vstd::arithmetic::div_mod::lemma_fundamental_div_mod;
use vstd::arithmetic::power2::{
    lemma2_to64, lemma2_to64_rest, lemma_pow2_adds, lemma_pow2_pos, lemma_pow2_strictly_increases,
};
use crate::binary64::{
    difference, lemma_rounding_error, magnitude_of, one, product, round_signed, rounded,
    rounding_error, sum,
};
use crate::geometry::dot;

verus! {

/// The scalar product of two triples, not rounded.
pub open spec fn inner(a: Seq<int>, b: Seq<int>) -> int {
    a[0] * b[0] + a[1] * b[1] + a[2] * b[2]
}

/// A product is at most as large as its factors allow.
pub proof fn lemma_abs_product(a: int, b: int, x: int, y: int)
    requires
        magnitude_of(a) <= x,
        magnitude_of(b) <= y,
    ensures
        magnitude_of(a * b) <= x * y,
        magnitude_of(a * b) == magnitude_of(a) * magnitude_of(b),
{
    let (p, q) = (magnitude_of(a), magnitude_of(b));
    assert(magnitude_of(a * b) == p * q) by {
        if a < 0 {
            if b < 0 {
                assert(a * b == p * q) by (nonlinear_arith)
                    requires
                        p == -a,
                        q == -b,
                ;
            } else {
                assert(a * b == -(p * q)) by (nonlinear_arith)
                    requires
                        p == -a,
                        q == b,
                ;
            }
        } else {
            if b < 0 {
                assert(a * b == -(p * q)) by (nonlinear_arith)
                    requires
                        p == a,
                        q == -b,
                ;
            }
        }
        assert(p * q >= 0) by (nonlinear_arith)
            requires
                p >= 0,
                q >= 0,
        ;
    }
    assert(p * q <= x * y) by (nonlinear_arith)
        requires
            0 <= p <= x,
            0 <= q <= y,
    ;
}

/// A sum is off by at most one part in 2^53.
pub proof fn lemma_sum_error(a: int, b: int)
    ensures
        0x20_0000_0000_0000 * magnitude_of(sum(a, b) - (a + b)) <= magnitude_of(a + b),
        0x20_0000_0000_0000 * magnitude_of(difference(a, b) - (a - b)) <= magnitude_of(a - b),
{
    lemma2_to64_rest();
    rounding_error(magnitude_of(a + b) as nat);
    rounding_error(magnitude_of(a - b) as nat);
}

/// A rounded quotient is off by at most one part in 2^53 and one unit.
pub proof fn lemma_quotient_error(n: int, d: nat)
    requires
        d > 0,
    ensures
        0x20_0000_0000_0000 * magnitude_of(round_signed(n, d) * d - n) <= magnitude_of(n)
            + 0x20_0000_0000_0000 * d,
{
    lemma2_to64_rest();
    let a = magnitude_of(n) as nat;
    let r = rounded(a, d);
    let p = 0x20_0000_0000_0000int;
    if a < p * d {
        let (q, m) = (a / d, a % d);
        lemma_fundamental_div_mod(a as int, d as int);
        assert(q * d == d * q) by (nonlinear_arith);
        assert((q + 1) * d == d * q + d) by (nonlinear_arith);
        assert(magnitude_of(r * d - a) <= d);
    } else {
        lemma_rounding_error(a, d);
        assert(p * d >= 0);
    }
    if n < 0 {
        assert((-(r as int)) * d == -(r * d)) by (nonlinear_arith);
    }
}

/// A product is off by at most one part in 2^53 and one unit.
pub proof fn lemma_product_error(a: int, b: int)
    ensures
        0x20_0000_0000_0000 * magnitude_of(product(a, b) * one() - a * b) <= magnitude_of(a * b)
            + 0x20_0000_0000_0000 * one(),
{
    lemma_pow2_pos(1074);
    lemma_quotient_error(a * b, one());
}

/// Numbers are much larger than units.
pub proof fn lemma_one_is_large()
    ensures
        one() >= 0x8000_0000_0000_0000_0000_0000_0000_0000,
{
    lemma2_to64();
    lemma2_to64_rest();
    lemma_pow2_adds(64, 63);
    lemma_pow2_strictly_increases(127, 1074);
}

/// A product of numbers up to 1 and up to 8.
proof fn lemma_term_error(a: int, b: int)
    requires
        magnitude_of(a) <= one(),
        magnitude_of(b) <= 8 * one(),
    ensures
        0x2_0000_0000_0000 * magnitude_of(product(a, b) * one() - a * b) <= one() * one(),
        magnitude_of(product(a, b)) <= 9 * one(),
        magnitude_of(a * b) <= 8 * (one() * one()),
{
    let u = one() as int;
    lemma_one_is_large();
    lemma_abs_product(a, b, u, 8 * u);
    assert(u * (8 * u) == 8 * (u * u)) by (nonlinear_arith);
    lemma_product_error(a, b);
    let w = u * u;
    assert(w >= 0x8000_0000_0000_0000_0000_0000_0000_0000 * u) by (nonlinear_arith)
        requires
            w == u * u,
            u >= 0x8000_0000_0000_0000_0000_0000_0000_0000,
    ;
    let p = product(a, b);
    assert(magnitude_of(p * u) <= 9 * w);
    assert(magnitude_of(p) <= 9 * u) by (nonlinear_arith)
        requires
            -(9 * w) <= p * u <= 9 * w,
            w == u * u,
            u > 0,
            magnitude_of(p) == p || magnitude_of(p) == -p,
    ;
}

/// A sum of numbers up to 30, counted in units of units.
proof fn lemma_sum_scaled(a: int, b: int)
    requires
        magnitude_of(a + b) <= 30 * one(),
    ensures
        0x2_0000_0000_0000 * magnitude_of(sum(a, b) * one() - (a * one() + b * one())) <= 2 * (one()
            * one()),
        magnitude_of(sum(a, b)) <= 31 * one(),
{
    let u = one() as int;
    lemma_one_is_large();
    lemma_sum_error(a, b);
    let e = sum(a, b) - (a + b);
    assert(e * u == sum(a, b) * u - (a * u + b * u)) by (nonlinear_arith)
        requires
            e == sum(a, b) - (a + b),
    ;
    let p = 0x20_0000_0000_0000int;
    let m = magnitude_of(e);
    assert(p * m <= 30 * u);
    lemma_abs_product(e, u, m, u);
    assert(p * (m * u) <= 30 * (u * u)) by (nonlinear_arith)
        requires
            p * m <= 30 * u,
            u > 0,
    ;
}

/// A scalar product with factors up to 1 and up to 8 is off by at most 2^-46.
pub proof fn lemma_dot_error(a: Seq<int>, b: Seq<int>)
    requires
        forall|k: int| 0 <= k < 3 ==> magnitude_of(#[trigger] a[k]) <= one(),
        forall|k: int| 0 <= k < 3 ==> magnitude_of(#[trigger] b[k]) <= 8 * one(),
    ensures
        0x4000_0000_0000 * magnitude_of(dot(a, b) * one() - inner(a, b)) <= one() * one(),
{
    let u = one() as int;
    assert(magnitude_of(a[0]) <= u && magnitude_of(a[1]) <= u && magnitude_of(a[2]) <= u);
    assert(magnitude_of(b[0]) <= 8 * u && magnitude_of(b[1]) <= 8 * u && magnitude_of(b[2])
        <= 8 * u);
    lemma_term_error(a[0], b[0]);
    lemma_term_error(a[1], b[1]);
    lemma_term_error(a[2], b[2]);
    let (x, y, z) = (product(a[0], b[0]), product(a[1], b[1]), product(a[2], b[2]));
    lemma_sum_scaled(x, y);
    assert(magnitude_of(sum(x, y)) <= 19 * u) by {
        lemma_sum_error(x, y);
        lemma_one_is_large();
    }
    lemma_sum_scaled(sum(x, y), z);
}

} // verus!
