//! Rounding to a number of significant bits, ties to even, as binary floating-point formats do.
//!
//! Numbers are counted in units, the smallest positive number of the format: below `2^bits` units
//! every number of units is a number of the format, above that the spacing grows with the number.

use vstd::prelude::*;
use vstd::arithmetic::div_mod::{
    lemma_div_denominator, lemma_fundamental_div_mod, lemma_fundamental_div_mod_converse,
};
use vstd::arithmetic::mul::{lemma_mul_is_associative, lemma_mul_is_commutative};
use vstd::arithmetic::power2::{
    lemma2_to64, lemma2_to64_rest, lemma_pow2_adds, lemma_pow2_pos, lemma_pow2_strictly_increases,
    lemma_pow2_unfold, pow2,
};
use vstd::bits::{lemma_u128_shr_is_div, lemma_u64_shl_is_mul};
use vstd::std_specs::bits::u64_leading_zeros;

verus! {

/// The integer nearest to `n / d`; of two that are equally near, the even one.
pub open spec fn nearest(n: nat, d: nat) -> nat {
    let q = n / d;
    let r = n % d;
    if 2 * r < d || (2 * r == d && q % 2 == 0) {
        q
    } else {
        q + 1
    }
}

/// The number nearest to `n / d` units that has at most that many significant bits.
pub open spec fn rounded_to(n: nat, d: nat, bits: nat) -> nat
    decreases n / d,
{
    if d == 0 || n < pow2(bits) * d {
        nearest(n, d)
    } else {
        proof {
            lemma_pow2_pos(bits);
            lemma_halved(n, d, pow2(bits));
        }
        2 * rounded_to(n, 2 * d, bits)
    }
}

/// A dyadic quotient `n / d * 2^x` of units, rounded.
pub open spec fn rounded_dyadic(n: nat, d: nat, x: int, bits: nat) -> nat {
    if x >= 0 {
        rounded_to(n * pow2(x as nat), d, bits)
    } else {
        rounded_to(n, d * pow2((-x) as nat), bits)
    }
}

/// Doubling the divisor of a number that is not smaller makes the quotient smaller.
pub proof fn lemma_halved(n: nat, d: nat, p: nat)
    requires
        d > 0,
        p >= 1,
        n >= p * d,
    ensures
        n / (2 * d) < n / d,
{
    lemma_div_denominator(n as int, d as int, 2);
    assert(d * 2 == 2 * d);
    assert(n >= d) by (nonlinear_arith)
        requires
            n >= p * d,
            p >= 1,
    ;
    assert(n / d >= 1) by (nonlinear_arith)
        requires
            n >= d,
            d > 0,
    ;
}

/// A common factor changes nothing.
pub proof fn lemma_nearest_scale(n: nat, d: nat, c: nat)
    requires
        d > 0,
        c > 0,
    ensures
        d * c > 0,
        nearest(n * c, d * c) == nearest(n, d),
{
    let q = n / d;
    let r = n % d;
    lemma_fundamental_div_mod(n as int, d as int);
    assert(d * c > 0) by (nonlinear_arith)
        requires
            d > 0,
            c > 0,
    ;
    assert(n * c == (d * c) * q + r * c) by (nonlinear_arith)
        requires
            n == d * q + r,
    ;
    assert(0 <= r * c < d * c) by (nonlinear_arith)
        requires
            0 <= r < d,
            c > 0,
    ;
    assert((d * c) * q == q * (d * c)) by (nonlinear_arith);
    lemma_fundamental_div_mod_converse((n * c) as int, (d * c) as int, q as int, (r * c) as int);
    assert((2 * (r * c) < d * c) == (2 * r < d)) by (nonlinear_arith)
        requires
            c > 0,
    ;
    assert((2 * (r * c) == d * c) == (2 * r == d)) by (nonlinear_arith)
        requires
            c > 0,
    ;
}

/// A common factor changes nothing.
pub proof fn lemma_rounded_scale(n: nat, d: nat, c: nat, bits: nat)
    requires
        d > 0,
        c > 0,
    ensures
        rounded_to(n * c, d * c, bits) == rounded_to(n, d, bits),
    decreases n / d,
{
    lemma_nearest_scale(n, d, c);
    let p = pow2(bits);
    lemma_pow2_pos(bits);
    assert((n * c < p * (d * c)) == (n < p * d)) by (nonlinear_arith)
        requires
            c > 0,
    ;
    if n >= p * d {
        lemma_halved(n, d, p);
        lemma_rounded_scale(n, 2 * d, c, bits);
        assert(2 * (d * c) == (2 * d) * c) by (nonlinear_arith);
    }
}

/// Rounding in one step, when the size of the number is known: `j` is the exponent of the last bit
/// that is kept.
pub proof fn lemma_rounded_at(n: nat, d: nat, j: nat, bits: nat)
    requires
        d > 0,
        bits >= 1,
        n < pow2(bits) * (d * pow2(j)),
        j == 0 || n >= pow2((bits - 1) as nat) * (d * pow2(j)),
    ensures
        rounded_to(n, d, bits) == pow2(j) * nearest(n, d * pow2(j)),
    decreases j,
{
    lemma2_to64();
    if j == 0 {
        assert(d * pow2(0) == d);
    } else {
        let k = (j - 1) as nat;
        let top = pow2(bits);
        let half = pow2((bits - 1) as nat);
        lemma_pow2_unfold(bits);
        lemma_pow2_unfold(j);
        lemma_pow2_pos(k);
        assert(d * pow2(j) == (2 * d) * pow2(k)) by (nonlinear_arith)
            requires
                pow2(j) == 2 * pow2(k),
        ;
        assert(n >= top * d) by (nonlinear_arith)
            requires
                n >= half * ((2 * d) * pow2(k)),
                top == 2 * half,
                pow2(k) >= 1,
        ;
        lemma_rounded_at(n, 2 * d, k, bits);
        let x = nearest(n, d * pow2(j));
        assert(2 * (pow2(k) * x) == pow2(j) * x) by (nonlinear_arith)
            requires
                pow2(j) == 2 * pow2(k),
        ;
    }
}

/// Rounding a dyadic quotient in one step: the lowest `s` bits are rounded off.
pub proof fn lemma_dyadic_at(n: nat, d: nat, x: int, s: nat, bits: nat)
    requires
        d > 0,
        bits >= 1,
        x + s >= 0,
        n < pow2(bits) * (d * pow2(s)),
        x + s == 0 || n >= pow2((bits - 1) as nat) * (d * pow2(s)),
    ensures
        rounded_dyadic(n, d, x, bits) == pow2((x + s) as nat) * nearest(n, d * pow2(s)),
{
    let j = (x + s) as nat;
    let top = pow2(bits);
    let half = pow2((bits - 1) as nat);
    lemma_pow2_pos(s);
    assert(d * pow2(s) > 0) by (nonlinear_arith)
        requires
            d > 0,
            pow2(s) > 0,
    ;
    if x >= 0 {
        let p = pow2(x as nat);
        lemma_pow2_pos(x as nat);
        lemma_pow2_adds(s, x as nat);
        assert(d * pow2(j) == (d * pow2(s)) * p) by (nonlinear_arith)
            requires
                pow2(j) == pow2(s) * p,
        ;
        let ds = d * pow2(s);
        assert(n * p < top * (ds * p)) by (nonlinear_arith)
            requires
                n < top * ds,
                p > 0,
        ;
        if j > 0 {
            assert(n * p >= half * (ds * p)) by (nonlinear_arith)
                requires
                    n >= half * ds,
                    p > 0,
            ;
        }
        lemma_rounded_at(n * p, d, j, bits);
        lemma_nearest_scale(n, ds, p);
    } else {
        let m = (-x) as nat;
        let p = pow2(m);
        lemma_pow2_pos(m);
        lemma_pow2_adds(m, j);
        assert((d * p) * pow2(j) == d * pow2(s)) by (nonlinear_arith)
            requires
                pow2(s) == p * pow2(j),
        ;
        assert(d * p > 0) by (nonlinear_arith)
            requires
                d > 0,
                p > 0,
        ;
        lemma_rounded_at(n, d * p, j, bits);
    }
}

/// A dyadic quotient with both sides scaled.
pub proof fn lemma_dyadic_shift(n: nat, d: nat, x: int, g: nat, bits: nat)
    requires
        d > 0,
    ensures
        rounded_dyadic(n, d * pow2(g), x + g, bits) == rounded_dyadic(n, d, x, bits),
{
    lemma_pow2_pos(g);
    if x >= 0 {
        lemma_pow2_adds(x as nat, g);
        lemma_mul_is_associative(n as int, pow2(x as nat) as int, pow2(g) as int);
        lemma_rounded_scale(n * pow2(x as nat), d, pow2(g), bits);
    } else if x + g >= 0 {
        let y = (-x) as nat;
        let z = (x + g) as nat;
        lemma_pow2_adds(y, z);
        lemma_pow2_pos(y);
        lemma_pow2_pos(z);
        lemma_mul_is_associative(d as int, pow2(y) as int, pow2(z) as int);
        lemma_signs(d as int, pow2(y) as int);
        lemma_rounded_scale(n, d * pow2(y), pow2(z), bits);
    } else {
        let y = (-x) as nat;
        let z = (-x - g) as nat;
        lemma_pow2_adds(g, z);
        lemma_mul_is_associative(d as int, pow2(g) as int, pow2(z) as int);
    }
}

/// Zero rounds to zero.
pub proof fn lemma_rounded_zero(x: int, bits: nat)
    ensures
        rounded_dyadic(0, 1, x, bits) == 0,
{
    lemma_pow2_pos(bits);
    if x >= 0 {
        assert(0 * pow2(x as nat) == 0);
        assert(rounded_to(0, 1, bits) == nearest(0, 1));
    } else {
        let d = pow2((-x) as nat);
        lemma_pow2_pos((-x) as nat);
        lemma_signs(pow2(bits) as int, d as int);
        assert(1 * d == d);
        lemma_fundamental_div_mod_converse(0, d as int, 0, 0);
    }
}

/// What rounding keeps of `n * 2^x` units when `q` is `n` without its lowest `s` bits.
pub proof fn lemma_kept(n: nat, q: nat, low: nat, x: int, s: nat, bits: nat)
    requires
        bits >= 1,
        n == q * pow2(s) + low,
        low < pow2(s),
        q < pow2(bits),
        x + s >= 0,
        q >= pow2((bits - 1) as nat) || x + s == 0,
    ensures
        rounded_dyadic(n, 1, x, bits) == {
            let up = 2 * low > pow2(s) || (2 * low == pow2(s) && q % 2 == 1);
            (if up {
                q + 1
            } else {
                q
            }) * pow2((x + s) as nat)
        },
{
    let p = pow2(s);
    let top = pow2(bits);
    let half = pow2((bits - 1) as nat);
    assert(n < top * p) by (nonlinear_arith)
        requires
            n == q * p + low,
            low < p,
            q < top,
    ;
    if x + s > 0 {
        assert(n >= half * p) by (nonlinear_arith)
            requires
                n == q * p + low,
                q >= half,
        ;
    }
    assert(1 * p == p);
    lemma_dyadic_at(n, 1, x, s, bits);
    lemma_fundamental_div_mod_converse(n as int, p as int, q as int, low as int);
    let k = nearest(n, p);
    lemma_mul_is_commutative(k as int, pow2((x + s) as nat) as int);
}

/// A number of no more significant bits is its own rounding.
pub proof fn lemma_exact(m: nat, x: nat, bits: nat)
    requires
        bits >= 1,
        m < pow2(bits),
    ensures
        rounded_dyadic(m, 1, x as int, bits) == m * pow2(x),
    decreases x,
{
    lemma2_to64();
    lemma_pow2_pos(x);
    if x == 0 || m >= pow2((bits - 1) as nat) {
        assert(m * 1 == m);
        lemma_kept(m, m, 0, x as int, 0, bits);
    } else {
        lemma_pow2_unfold(bits);
        lemma_pow2_unfold(x);
        let p = pow2((x - 1) as nat);
        assert(m * (2 * p) == (2 * m) * p) by (nonlinear_arith);
        lemma_exact(2 * m, (x - 1) as nat, bits);
    }
}

/// A quotient of at least one unit does not round to zero.
pub proof fn lemma_rounded_positive(n: nat, d: nat, bits: nat)
    requires
        bits >= 1,
        0 < d <= n,
    ensures
        rounded_to(n, d, bits) > 0,
    decreases n / d,
{
    let p = pow2(bits);
    lemma_pow2_unfold(bits);
    lemma_pow2_pos((bits - 1) as nat);
    if n < p * d {
        assert(n / d >= 1) by (nonlinear_arith)
            requires
                n >= d,
                d > 0,
        ;
    } else {
        lemma_halved(n, d, p);
        assert(n >= 2 * d) by (nonlinear_arith)
            requires
                n >= p * d,
                p >= 2,
        ;
        lemma_rounded_positive(n, 2 * d, bits);
    }
}

proof fn lemma_nearest_monotonic(a: nat, b: nat, d: nat)
    requires
        d > 0,
        a <= b,
    ensures
        nearest(a, d) <= nearest(b, d),
{
    lemma_fundamental_div_mod(a as int, d as int);
    lemma_fundamental_div_mod(b as int, d as int);
    let (p, q) = (a / d, b / d);
    assert(p <= q) by (nonlinear_arith)
        requires
            d * p <= a,
            a <= b,
            b < d * q + d,
            d > 0,
    ;
    if p == q {
        assert(d * p == d * q);
    }
}

/// A larger number does not round to a smaller one.
pub proof fn rounding_is_monotonic(a: nat, b: nat, d: nat, bits: nat)
    requires
        bits >= 1,
        d > 0,
        a <= b,
    ensures
        rounded_to(a, d, bits) <= rounded_to(b, d, bits),
    decreases b / d,
{
    let p = pow2(bits);
    lemma_pow2_unfold(bits);
    lemma_pow2_pos((bits - 1) as nat);
    if b < p * d {
        lemma_nearest_monotonic(a, b, d);
    } else if a >= p * d {
        lemma_halved(b, d, p);
        rounding_is_monotonic(a, b, 2 * d, bits);
    } else {
        lemma_halved(b, d, p);
        let n = p * d;
        rounding_is_monotonic(n, b, 2 * d, bits);
        let half = pow2((bits - 1) as nat);
        assert(n == half * (2 * d) + 0) by (nonlinear_arith)
            requires
                n == p * d,
                p == 2 * half,
        ;
        assert(n < p * (2 * d)) by (nonlinear_arith)
            requires
                n == p * d,
                p > 0,
                d > 0,
        ;
        lemma_fundamental_div_mod_converse(n as int, (2 * d) as int, half as int, 0);
        lemma_nearest_monotonic(a, n, d);
        assert(n == p * d + 0);
        lemma_fundamental_div_mod_converse(n as int, d as int, p as int, 0);
    }
}

/// A larger divisor does not give a larger quotient.
pub proof fn rounding_is_antitonic(n: nat, a: nat, b: nat, bits: nat)
    requires
        bits >= 1,
        0 < a <= b,
    ensures
        rounded_to(n, b, bits) <= rounded_to(n, a, bits),
{
    lemma_rounded_scale(n, b, a, bits);
    lemma_rounded_scale(n, a, b, bits);
    assert(a * b == b * a) by (nonlinear_arith);
    assert(n * a <= n * b) by (nonlinear_arith)
        requires
            a <= b,
    ;
    assert(a * b > 0) by (nonlinear_arith)
        requires
            a > 0,
            b > 0,
    ;
    rounding_is_monotonic(n * a, n * b, a * b, bits);
}

/// Signs of products.
pub proof fn lemma_signs(x: int, y: int)
    requires
        x >= 0,
        y >= 0,
    ensures
        x * y >= 0,
        (-x) * y == -(x * y),
        x * (-y) == -(x * y),
        (-x) * (-y) == x * y,
        x * y == 0 <==> (x == 0 || y == 0),
{
    assert(x * y >= 0) by (nonlinear_arith)
        requires
            x >= 0,
            y >= 0,
    ;
    assert((-x) * y == -(x * y)) by (nonlinear_arith);
    assert(x * (-y) == -(x * y)) by (nonlinear_arith);
    assert((-x) * (-y) == x * y) by (nonlinear_arith);
    assert(x * y == 0 <==> (x == 0 || y == 0)) by (nonlinear_arith);
}

/// `2^k`.
pub fn power(k: u32) -> (r: u128)
    requires
        k <= 126,
    ensures
        r == pow2(k as nat),
        1 <= r <= 0x4000_0000_0000_0000_0000_0000_0000_0000,
        k <= 64 ==> r <= 0x1_0000_0000_0000_0000,
{
    proof {
        lemma2_to64();
        lemma2_to64_rest();
        lemma_pow2_pos(k as nat);
        lemma_pow2_adds(63, 63);
        if k < 126 {
            lemma_pow2_strictly_increases(k as nat, 126);
        }
        if k < 64 {
            lemma_pow2_strictly_increases(k as nat, 64);
        }
    }
    if k <= 63 {
        proof {
            if k < 63 {
                lemma_pow2_strictly_increases(k as nat, 63);
            }
            assert(1 * pow2(k as nat) == pow2(k as nat));
            lemma_u64_shl_is_mul(1, k as u64);
        }
        (1u64 << (k as u64)) as u128
    } else {
        let j: u32 = k - 63;
        proof {
            if j < 63 {
                lemma_pow2_strictly_increases(j as nat, 63);
            }
            assert(1 * pow2(j as nat) == pow2(j as nat));
            lemma_u64_shl_is_mul(1, j as u64);
            lemma_pow2_adds(63, j as nat);
        }
        0x8000_0000_0000_0000 * ((1u64 << (j as u64)) as u128)
    }
}

proof fn lemma_leading_zeros(i: u64)
    requires
        i > 0,
    ensures
        0 <= u64_leading_zeros(i) < 64,
        pow2((63 - u64_leading_zeros(i)) as nat) <= i < pow2((64 - u64_leading_zeros(i)) as nat),
    decreases i,
{
    reveal_with_fuel(u64_leading_zeros, 3);
    lemma2_to64();
    if i > 1 {
        lemma_leading_zeros(i / 2);
        let z = u64_leading_zeros(i / 2);
        lemma_pow2_unfold((64 - z) as nat);
        lemma_pow2_unfold((65 - z) as nat);
        if z == 0 {
            lemma2_to64_rest();
        }
    }
}

/// The number of bits of a number.
pub fn bit_length(m: u128) -> (r: u32)
    requires
        m > 0,
    ensures
        1 <= r <= 128,
        pow2((r - 1) as nat) <= m < pow2(r as nat),
{
    let hi: u64 = (m / 0x1_0000_0000_0000_0000) as u64;
    let lo: u64 = (m % 0x1_0000_0000_0000_0000) as u64;
    proof {
        lemma2_to64();
        lemma2_to64_rest();
    }
    if hi > 0 {
        proof {
            lemma_leading_zeros(hi);
            let k = (63 - u64_leading_zeros(hi)) as nat;
            lemma_pow2_adds(k, 64);
            lemma_pow2_adds(k + 1, 64);
        }
        128 - hi.leading_zeros()
    } else {
        proof {
            lemma_leading_zeros(lo);
        }
        64 - lo.leading_zeros()
    }
}

/// The number of at most that many bits, times a power of two of units, that is nearest to `m * 2^x`
/// units.
pub fn round_bits(m: u128, x: i128, bits: u32) -> (r: (u64, i128))
    requires
        2 <= bits <= 53,
        m < 0x4000_0000_0000_0000_0000_0000_0000_0000,
        -0x1000_0000_0000_0000_0000_0000_0000 <= x <= 0x1000_0000_0000_0000_0000_0000_0000,
    ensures
        r.0 < pow2(bits as nat),
        r.1 >= 0,
        r.0 >= pow2((bits - 1) as nat) || r.1 == 0,
        r.0 * pow2(r.1 as nat) == rounded_dyadic(m as nat, 1, x as int, bits as nat),
        r.1 <= x + 127 - bits || r.1 <= 1,
{
    proof {
        lemma2_to64();
        lemma2_to64_rest();
        lemma_pow2_pos(bits as nat);
        lemma_pow2_unfold(bits as nat);
        lemma_pow2_adds(63, 63);
    }
    if m == 0 {
        proof {
            lemma_rounded_zero(x as int, bits as nat);
            assert(0 * pow2(0) == 0);
        }
        return (0, 0);
    }
    let len = bit_length(m);
    proof {
        if len > 126 {
            lemma_pow2_strictly_increases(126, len as nat);
            if len > 127 {
                lemma_pow2_strictly_increases(126, (len - 1) as nat);
            }
        }
        if bits < 53 {
            lemma_pow2_strictly_increases(bits as nat, 53);
        }
    }
    let over: i128 = len as i128 - bits as i128;
    let s: i128 = if over > -x {
        over
    } else {
        -x
    };
    if s <= 0 {
        return round_up(m, x, bits, len);
    }
    if s > 126 {
        proof {
            lemma_pow2_strictly_increases(126, s as nat);
            if s > 127 {
                lemma_pow2_strictly_increases(127, s as nat);
            }
            lemma_pow2_unfold(127);
            assert(0 * pow2(s as nat) == 0);
            lemma_kept(m as nat, 0, m as nat, x as int, s as nat, bits as nat);
            assert(0 * pow2(0) == 0);
        }
        return (0, 0);
    }
    let p = power(s as u32);
    let q: u128 = m >> (s as u128);
    proof {
        lemma_u128_shr_is_div(m, s as u128);
        lemma_fundamental_div_mod(m as int, p as int);
        let w = m as int / p as int;
        assert(p * w == w * p) by (nonlinear_arith);
        assert(w <= m) by (nonlinear_arith)
            requires
                p * w <= m,
                p >= 1,
                w >= 0,
        ;
    }
    assert(q * p <= m);
    let low: u128 = m - q * p;
    let up = 2 * low > p || (2 * low == p && q % 2 == 1);
    proof {
        lemma_quotient_size(m as nat, q as nat, low as nat, s as nat, len as nat, bits as nat);
        lemma_kept(m as nat, q as nat, low as nat, x as int, s as nat, bits as nat);
    }
    let k: u128 = if up {
        q + 1
    } else {
        q
    };
    let y: i128 = x + s;
    let ghost u = pow2(y as nat);
    if k == power(bits) {
        proof {
            let half = pow2((bits - 1) as nat);
            lemma_pow2_unfold((y + 1) as nat);
            assert(half * (2 * u) == (2 * half) * u) by (nonlinear_arith);
        }
        return (power(bits - 1) as u64, y + 1);
    }
    (k as u64, y)
}

/// How large a number is without its lowest `s` bits.
proof fn lemma_quotient_size(m: nat, q: nat, low: nat, s: nat, len: nat, bits: nat)
    requires
        m == q * pow2(s) + low,
        low < pow2(s),
        len >= 1,
        bits >= 1,
        pow2((len - 1) as nat) <= m < pow2(len),
        s >= len - bits,
    ensures
        q < pow2(bits),
        s == len - bits ==> q >= pow2((bits - 1) as nat),
{
    let p = pow2(s);
    let top = pow2(bits);
    let half = pow2((bits - 1) as nat);
    lemma_pow2_pos(s);
    lemma_pow2_adds(bits, s);
    if len < bits + s {
        lemma_pow2_strictly_increases(len, bits + s);
    }
    assert(q < top) by (nonlinear_arith)
        requires
            q * p <= m,
            m < top * p,
    ;
    if s == len - bits {
        lemma_pow2_adds((bits - 1) as nat, s);
        assert(q >= half) by (nonlinear_arith)
            requires
                half * p <= q * p + low,
                low < p,
        ;
    }
}

/// Rounding a number of few bits: nothing is lost, and the bits move up as far as they can.
fn round_up(m: u128, x: i128, bits: u32, len: u32) -> (r: (u64, i128))
    requires
        2 <= bits <= 53,
        0 < m,
        1 <= len <= bits,
        pow2((len - 1) as nat) <= m < pow2(len as nat),
        0 <= x <= 0x1000_0000_0000_0000_0000_0000_0000,
    ensures
        r.0 < pow2(bits as nat),
        r.1 >= 0,
        r.0 >= pow2((bits - 1) as nat) || r.1 == 0,
        r.0 * pow2(r.1 as nat) == rounded_dyadic(m as nat, 1, x as int, bits as nat),
        r.1 <= x,
{
    let room: i128 = bits as i128 - len as i128;
    let k: u32 = if room < x {
        room as u32
    } else {
        x as u32
    };
    let p = power(k);
    proof {
        lemma2_to64();
        lemma2_to64_rest();
        lemma_pow2_adds(len as nat, k as nat);
        lemma_pow2_adds((len - 1) as nat, k as nat);
        if len + k < bits {
            lemma_pow2_strictly_increases((len + k) as nat, bits as nat);
        }
        if bits < 53 {
            lemma_pow2_strictly_increases(bits as nat, 53);
        }
        let big = pow2(len as nat);
        let small = pow2((len - 1) as nat);
        assert(small * p <= m * p < big * p) by (nonlinear_arith)
            requires
                small <= m < big,
                p > 0,
        ;
    }
    let q: u128 = m * p;
    proof {
        let y = (x - k) as nat;
        lemma_pow2_adds(k as nat, y);
        lemma_mul_is_associative(m as int, p as int, pow2(y) as int);
        lemma_exact(q as nat, y, bits as nat);
    }
    (q as u64, x - k as i128)
}

/// The number has no more bits than that.
pub open spec fn has_bits(v: nat, bits: nat) -> bool {
    exists|m: nat, x: nat| m < pow2(bits) && v == #[trigger] (m * pow2(x))
}

/// Rounding leaves no more bits than it should.
pub proof fn lemma_rounded_bits(n: nat, d: nat, bits: nat)
    requires
        d > 0,
        bits >= 1,
    ensures
        has_bits(rounded_to(n, d, bits), bits),
    decreases n / d,
{
    let p = pow2(bits);
    lemma_pow2_pos(bits);
    lemma2_to64();
    if n < p * d {
        let v = nearest(n, d);
        lemma_fundamental_div_mod(n as int, d as int);
        let q = n / d;
        assert(q < p) by (nonlinear_arith)
            requires
                n < p * d,
                d * q <= n,
                d > 0,
        ;
        if v < p {
            assert(v * 1 == v);
            assert(v == v * pow2(0));
        } else {
            assert(1 * p == p);
            assert(v == 1nat * pow2(bits));
            lemma_pow2_unfold(bits);
            lemma_pow2_pos((bits - 1) as nat);
        }
    } else {
        lemma_halved(n, d, p);
        lemma_rounded_bits(n, 2 * d, bits);
        let w = rounded_to(n, 2 * d, bits);
        let (m, x) = choose|m: nat, x: nat| m < pow2(bits) && w == #[trigger] (m * pow2(x));
        lemma_pow2_unfold(x + 1);
        let y = pow2(x);
        assert(2 * (m * y) == m * (2 * y)) by (nonlinear_arith);
        assert(2 * w == m * pow2(x + 1));
    }
}

/// Rounding twice is rounding once.
pub proof fn rounding_is_idempotent(n: nat, d: nat, bits: nat)
    requires
        d > 0,
        bits >= 1,
    ensures
        rounded_to(rounded_to(n, d, bits), 1, bits) == rounded_to(n, d, bits),
{
    lemma_rounded_bits(n, d, bits);
    let w = rounded_to(n, d, bits);
    let (m, x) = choose|m: nat, x: nat| m < pow2(bits) && w == #[trigger] (m * pow2(x));
    lemma_exact(m, x, bits);
}

} // verus!
