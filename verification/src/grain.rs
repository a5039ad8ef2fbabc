//! Numbers that are multiples of a power of two: scaling them by a power of two commutes with
//! arithmetic.

use vstd::prelude::*;
use vstd::arithmetic::div_mod::{lemma_fundamental_div_mod, lemma_fundamental_div_mod_converse};
use vstd::arithmetic::power2::{
    lemma2_to64, lemma_pow2_adds, lemma_pow2_pos, lemma_pow2_unfold, pow2,
};
use crate::binary64::{difference, one, product, quotient, round_signed, rounded, sum};
use crate::rounding::lemma_rounded_scale;

verus! {

/// A whole number of `2^k` units.
pub open spec fn grained(v: int, k: nat) -> bool {
    v % (pow2(k) as int) == 0
}

/// How many `2^k` units a number is.
pub open spec fn grains(v: int, k: nat) -> int {
    v / (pow2(k) as int)
}

pub proof fn lemma_grains(v: int, k: nat)
    requires
        grained(v, k),
    ensures
        v == grains(v, k) * pow2(k),
{
    lemma_pow2_pos(k);
    lemma_fundamental_div_mod(v, pow2(k) as int);
    let (g, p) = (grains(v, k), pow2(k) as int);
    assert(p * g == g * p) by (nonlinear_arith);
}

pub proof fn lemma_is_grained(n: int, k: nat)
    ensures
        grained(n * pow2(k), k),
        grains(n * pow2(k), k) == n,
{
    lemma_pow2_pos(k);
    lemma_fundamental_div_mod_converse(n * pow2(k), pow2(k) as int, n, 0);
}

/// Coarser numbers are multiples of a finer grain, too.
pub proof fn lemma_finer(v: int, k: nat, j: nat)
    requires
        grained(v, k),
        j <= k,
    ensures
        grained(v, j),
{
    lemma_grains(v, k);
    lemma_pow2_adds(j, (k - j) as nat);
    let (g, p, q) = (grains(v, k), pow2(j) as int, pow2((k - j) as nat) as int);
    assert(g * (p * q) == (g * q) * p) by (nonlinear_arith);
    lemma_is_grained(g * q, j);
}

/// The number with the other sign has the same grain.
pub proof fn lemma_grained_negated(v: int, k: nat)
    requires
        grained(v, k),
    ensures
        grained(-v, k),
{
    lemma_grains(v, k);
    let (g, p) = (grains(v, k), pow2(k) as int);
    assert(-(g * p) == (-g) * p) by (nonlinear_arith);
    lemma_is_grained(-g, k);
}

/// Sums that are not rounded keep the grain.
pub proof fn lemma_grained_added(a: int, b: int, k: nat)
    requires
        grained(a, k),
        grained(b, k),
    ensures
        grained(a + b, k),
{
    lemma_grains(a, k);
    lemma_grains(b, k);
    let (x, y, p) = (grains(a, k), grains(b, k), pow2(k) as int);
    assert(x * p + y * p == (x + y) * p) by (nonlinear_arith);
    lemma_is_grained(x + y, k);
}

proof fn lemma_rounded_doubled(n: nat)
    ensures
        rounded(2 * n, 1) == 2 * rounded(n, 1),
{
    let p = pow2(53);
    lemma_rounded_scale(n, 1, 2, 53);
    assert(n * 2 == 2 * n);
    assert(1 * 2 == 2);
    if 2 * n < p * 1 {
        assert(rounded(2 * n, 1) == 2 * n);
        assert(rounded(n, 1) == n);
    }
}

/// Rounding to units commutes with multiplication by a power of two.
pub proof fn lemma_scaled_rounding(n: int, s: nat)
    ensures
        round_signed(pow2(s) * n, 1) == pow2(s) * round_signed(n, 1),
    decreases s,
{
    if s == 0 {
        lemma2_to64();
        assert(1 * n == n);
        assert(1 * round_signed(n, 1) == round_signed(n, 1));
    } else {
        let r = (s - 1) as nat;
        let p = pow2(r) as int;
        lemma_scaled_rounding(n, r);
        lemma_pow2_unfold(s);
        lemma_pow2_pos(r);
        let m = p * n;
        assert((2 * p) * n == 2 * m) by (nonlinear_arith)
            requires
                m == p * n,
        ;
        let q = round_signed(n, 1);
        assert((2 * p) * q == 2 * (p * q)) by (nonlinear_arith);
        if m < 0 {
            lemma_rounded_doubled((-m) as nat);
        } else {
            lemma_rounded_doubled(m as nat);
        }
    }
}

/// Rounding to units keeps the grain.
pub proof fn lemma_grained_rounding(n: int, k: nat)
    requires
        grained(n, k),
    ensures
        grained(round_signed(n, 1), k),
{
    lemma_grains(n, k);
    let g = grains(n, k);
    lemma_scaled_rounding(g, k);
    let (p, q) = (pow2(k) as int, round_signed(g, 1));
    assert(g * p == p * g) by (nonlinear_arith);
    assert(p * q == q * p) by (nonlinear_arith);
    lemma_is_grained(q, k);
}

/// A sum scales with its terms.
pub proof fn lemma_scaled_sum(a: int, b: int, s: nat)
    ensures
        sum(pow2(s) * a, pow2(s) * b) == pow2(s) * sum(a, b),
        difference(pow2(s) * a, pow2(s) * b) == pow2(s) * difference(a, b),
{
    let p = pow2(s) as int;
    assert(p * a + p * b == p * (a + b)) by (nonlinear_arith);
    assert(p * a + (-(p * b)) == p * (a + (-b))) by (nonlinear_arith);
    lemma_scaled_rounding(a + b, s);
    lemma_scaled_rounding(a + (-b), s);
}

/// A sum keeps the grain.
pub proof fn lemma_grained_sum(a: int, b: int, k: nat)
    requires
        grained(a, k),
        grained(b, k),
    ensures
        grained(sum(a, b), k),
        grained(difference(a, b), k),
{
    lemma_grained_negated(b, k);
    lemma_grained_added(a, b, k);
    lemma_grained_added(a, -b, k);
    lemma_grained_rounding(a + b, k);
    lemma_grained_rounding(a + (-b), k);
}

/// A product of numbers that are not too fine is rounded only for its length.
pub proof fn lemma_product(a: int, b: int, p: nat, q: nat)
    requires
        grained(a, p),
        grained(b, q),
        p + q >= 1074,
    ensures
        ({
            let n = grains(a, p) * grains(b, q) * pow2((p + q - 1074) as nat);
            &&& a * b == n * one()
            &&& product(a, b) == round_signed(n, 1)
            &&& grained(n, (p + q - 1074) as nat)
            &&& grained(product(a, b), (p + q - 1074) as nat)
        }),
{
    lemma_grains(a, p);
    lemma_grains(b, q);
    let r = (p + q - 1074) as nat;
    lemma_pow2_adds(p, q);
    lemma_pow2_adds(r, 1074);
    let (x, y, u) = (grains(a, p), grains(b, q), one() as int);
    let (pp, pq, pr) = (pow2(p) as int, pow2(q) as int, pow2(r) as int);
    let n = x * y * pr;
    assert((x * pp) * (y * pq) == x * y * (pp * pq)) by (nonlinear_arith);
    assert(x * y * (pr * u) == n * u) by (nonlinear_arith)
        requires
            n == x * y * pr,
    ;
    lemma_pow2_pos(1074);
    lemma_by_one(n);
    lemma_is_grained(x * y, r);
    lemma_grained_rounding(n, r);
}

/// A whole number of ones over one is that many units.
proof fn lemma_by_one(n: int)
    ensures
        round_signed(n * one(), one()) == round_signed(n, 1),
{
    let u = one();
    lemma_pow2_pos(1074);
    assert(1 * u == u);
    if n < 0 {
        lemma_rounded_scale((-n) as nat, 1, u, 53);
        assert(-(n * u) == (-n) * u) by (nonlinear_arith);
        assert(n * u < 0) by (nonlinear_arith)
            requires
                n < 0,
                u > 0,
        ;
    } else {
        lemma_rounded_scale(n as nat, 1, u, 53);
        assert(n * u >= 0) by (nonlinear_arith)
            requires
                n >= 0,
                u > 0,
        ;
    }
}

/// A product scales with its factors.
pub proof fn lemma_scaled_product(a: int, b: int, p: nat, q: nat, s: nat)
    requires
        grained(a, p),
        grained(b, q),
        p + q >= 1074,
    ensures
        product(pow2(s) * a, b) == pow2(s) * product(a, b),
        product(a, pow2(s) * b) == pow2(s) * product(a, b),
{
    lemma_product(a, b, p, q);
    let n = grains(a, p) * grains(b, q) * pow2((p + q - 1074) as nat);
    let (k, u) = (pow2(s) as int, one() as int);
    assert((k * a) * b == k * (a * b)) by (nonlinear_arith);
    assert(a * (k * b) == k * (a * b)) by (nonlinear_arith);
    assert(k * (n * u) == (k * n) * u) by (nonlinear_arith);
    lemma_by_one(k * n);
    lemma_scaled_rounding(n, s);
}

/// A power of two divides a number that is coarse enough without a rest.
pub proof fn lemma_quotient(a: int, k: nat, s: nat)
    requires
        grained(a, k),
        s <= k,
    ensures
        pow2(s) * quotient(a, (pow2(s) * one()) as int) == round_signed(a, 1),
        grained(quotient(a, (pow2(s) * one()) as int), (k - s) as nat),
{
    let r = (k - s) as nat;
    lemma_grains(a, k);
    lemma_pow2_adds(s, r);
    lemma_pow2_pos(s);
    lemma_pow2_pos(1074);
    let (g, p, u) = (grains(a, k), pow2(s) as int, one() as int);
    let t = pow2(r) as int;
    let n = g * t;
    assert(g * (p * t) == p * n) by (nonlinear_arith)
        requires
            n == g * t,
    ;
    assert(a == p * n);
    assert((p * n) * u == n * (p * u)) by (nonlinear_arith);
    assert(p * u > 0) by (nonlinear_arith)
        requires
            p > 0,
            u > 0,
    ;
    let d = (p * u) as nat;
    assert(1 * d == d);
    if n < 0 {
        lemma_rounded_scale((-n) as nat, 1, d, 53);
        assert(-(n * d) == (-n) * d) by (nonlinear_arith);
        assert(n * d < 0) by (nonlinear_arith)
            requires
                n < 0,
                d > 0,
        ;
    } else {
        lemma_rounded_scale(n as nat, 1, d, 53);
        assert(n * d >= 0) by (nonlinear_arith)
            requires
                n >= 0,
                d > 0,
        ;
    }
    assert(quotient(a, d as int) == round_signed(n, 1));
    lemma_scaled_rounding(n, s);
    lemma_is_grained(g, r);
    lemma_grained_rounding(n, r);
}

} // verus!
