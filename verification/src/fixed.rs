//! Numbers in decimal notation with a fixed count of decimals.

use vstd::prelude::*;
use vstd::arithmetic::power2::{
    lemma2_to64, lemma2_to64_rest, lemma_pow2_adds, lemma_pow2_pos, lemma_pow2_strictly_increases,
    lemma_pow2_unfold, pow2,
};
use vstd::arithmetic::div_mod::lemma_fundamental_div_mod_converse;
use vstd::arithmetic::mul::lemma_mul_is_associative;
use crate::binary64::{magnitude_of, one, Float};
use crate::number::{decimal, digit_char, put_decimal};
use crate::rounding::{lemma_nearest_scale, nearest, power};

verus! {

/// The powers of ten.
pub open spec fn ten(k: nat) -> nat
    decreases k,
{
    if k == 0 {
        1
    } else {
        10 * ten((k - 1) as nat)
    }
}

/// The last `width` decimal digits of a number.
pub open spec fn padded(n: nat, width: nat) -> Seq<char>
    decreases width,
{
    if width == 0 {
        Seq::empty()
    } else {
        padded(n / 10, (width - 1) as nat).push(digit_char(n % 10))
    }
}

/// A count of the last decimal place, with the point where it belongs.
pub open spec fn pointed(n: nat, places: nat) -> Seq<char> {
    decimal(n / ten(places)) + seq!['.'] + padded(n % ten(places), places)
}

/// A number with that many decimals, the last one rounded to nearest, ties to even.
pub open spec fn fixed(v: int, places: nat) -> Seq<char> {
    let body = pointed(nearest(magnitude_of(v) as nat * ten(places), one()), places);
    if v < 0 {
        seq!['-'] + body
    } else {
        body
    }
}

/// A number with that many decimals and its sign in front, whatever it is.
pub open spec fn fixed_signed(f: Float, places: nat) -> Seq<char> {
    (if f.neg {
        seq!['-']
    } else {
        seq!['+']
    }) + pointed(nearest(f.magnitude() * ten(places), one()), places)
}

/// Appends the last `width` decimal digits of a number.
pub fn put_padded(out: &mut String, n: u64, width: u32)
    ensures
        final(out)@ == old(out)@ + padded(n as nat, width as nat),
    decreases width,
{
    if width > 0 {
        put_padded(out, n / 10, width - 1);
        let d: u8 = (n % 10) as u8;
        let ghost before = out@;
        out.push((48 + d) as char);
        assert(out@ =~= old(out)@ + padded(n as nat, width as nat));
    } else {
        assert(out@ =~= old(out)@ + padded(n as nat, 0));
    }
}

fn power_of_ten(k: u32) -> (r: u64)
    requires
        k <= 9,
    ensures
        r == ten(k as nat),
        1 <= r <= 1_000_000_000,
        k > 0 ==> r >= 10,
{
    let mut r: u64 = 1;
    assert(ten(9) == 1_000_000_000) by {
        reveal_with_fuel(ten, 10);
    }
    for i in 0..k
        invariant
            k <= 9,
            r == ten(i as nat),
            1 <= r,
            r <= 1_000_000_000,
            i > 0 ==> r >= 10,
            i < k ==> r <= 100_000_000,
    {
        proof {
            reveal_with_fuel(ten, 10);
        }
        r = 10 * r;
        proof {
            assert(i + 1 < 9 ==> ten((i + 1) as nat) <= 100_000_000);
        }
    }
    r
}

/// The number whose decimal digits these are, the last digit first.
spec fn digits_value(s: Seq<u8>) -> nat
    decreases s.len(),
{
    if s.len() == 0 {
        0
    } else {
        s[0] as nat + 10 * digits_value(s.drop_first())
    }
}

spec fn digits_ok(s: Seq<u8>) -> bool {
    forall|i: int| 0 <= i < s.len() ==> #[trigger] s[i] < 10
}

proof fn lemma_digits_push(s: Seq<u8>, d: u8)
    ensures
        digits_value(s.push(d)) == digits_value(s) + d * ten(s.len()),
    decreases s.len(),
{
    if s.len() == 0 {
        assert(s.push(d).drop_first() =~= s);
        assert(digits_value(s) == 0);
        assert(digits_value(s.push(d)) == d);
        assert(ten(0) == 1);
    } else {
        let t = s.drop_first();
        assert(s.push(d).drop_first() =~= t.push(d));
        lemma_digits_push(t, d);
        let p = ten(t.len());
        assert(10 * (d * p) == d * (10 * p)) by (nonlinear_arith);
    }
}

/// The digits of twice the number.
fn doubled(s: &Vec<u8>) -> (r: Vec<u8>)
    requires
        digits_ok(s@),
        s@.len() > 0,
        s@.len() > 1 ==> s@.last() != 0,
    ensures
        digits_ok(r@),
        s@.len() <= r@.len() <= s@.len() + 1,
        r@.len() > 1 ==> r@.last() != 0,
        digits_value(r@) == 2 * digits_value(s@),
{
    let mut r: Vec<u8> = Vec::new();
    let mut carry: u8 = 0;
    for i in 0..s.len()
        invariant
            digits_ok(s@),
            digits_ok(r@),
            r@.len() == i,
            carry <= 1,
            digits_value(r@) + carry * ten(i as nat) == 2 * digits_value(s@.take(i as int)),
            i > 0 ==> 10 * carry + r@[i - 1] >= 2 * s@[i - 1],
    {
        let t: u8 = 2 * s[i] + carry;
        proof {
            assert(s@.take(i + 1) =~= s@.take(i as int).push(s@[i as int]));
            lemma_digits_push(s@.take(i as int), s@[i as int]);
            lemma_digits_push(r@, t % 10);
            let p = ten(i as nat);
            let d = s@[i as int];
            let low = t % 10;
            let high = t / 10;
            let old_carry = carry;
            assert(low * p + high * (10 * p) == 2 * (d * p) + old_carry * p) by (nonlinear_arith)
                requires
                    low + 10 * high == 2 * d + old_carry,
            ;
        }
        r.push(t % 10);
        carry = t / 10;
    }
    assert(s@.take(s@.len() as int) =~= s@);
    if carry > 0 {
        proof {
            lemma_digits_push(r@, carry);
        }
        r.push(carry);
    }
    r
}

/// The digits of a number, the last one first.
fn digits_of(n: u64) -> (r: Vec<u8>)
    ensures
        digits_ok(r@),
        0 < r@.len() <= 20,
        r@.len() > 1 ==> r@.last() != 0,
        digits_value(r@) == n,
{
    let mut r: Vec<u8> = Vec::new();
    let mut rest: u64 = n;
    proof {
        assert(digits_value(r@) == 0);
        assert(ten(0) == 1);
        assert(rest * 1 == rest);
    }
    while rest >= 10
        invariant
            digits_ok(r@),
            digits_value(r@) + rest * ten(r@.len()) == n,
            r@.len() <= 19,
            r@.len() > 0 ==> rest > 0,
            rest * ten(r@.len()) <= n,
            n <= u64::MAX,
        decreases rest,
    {
        let d: u8 = (rest % 10) as u8;
        proof {
            let k = r@.len();
            let p = ten(k);
            lemma_digits_push(r@, d);
            let q = rest / 10;
            assert(rest * p == d * p + q * (10 * p)) by (nonlinear_arith)
                requires
                    rest == 10 * q + d,
            ;
            assert(q * (10 * p) >= 10 * p) by (nonlinear_arith)
                requires
                    q >= 1,
            ;
            if k >= 19 {
                assert(ten(19) == 10_000_000_000_000_000_000) by {
                    reveal_with_fuel(ten, 20);
                }
            }
        }
        r.push(d);
        rest = rest / 10;
    }
    proof {
        lemma_digits_push(r@, rest as u8);
    }
    r.push(rest as u8);
    r
}

proof fn lemma_digits_decimal(s: Seq<u8>)
    requires
        digits_ok(s),
        s.len() > 0,
        s.len() > 1 ==> s.last() != 0,
    ensures
        decimal(digits_value(s)) == s.reverse().map_values(|d: u8| digit_char(d as nat)),
        s.last() != 0 ==> digits_value(s) > 0,
    decreases s.len(),
{
    let t = s.drop_first();
    let n = digits_value(s);
    let shown = s.reverse().map_values(|d: u8| digit_char(d as nat));
    assert(s[0] < 10);
    if s.len() == 1 {
        assert(digits_value(t) == 0);
        assert(shown =~= decimal(n));
    } else {
        assert(t.last() == s.last());
        lemma_digits_decimal(t);
        assert(n / 10 == digits_value(t));
        assert(n % 10 == s[0]);
        assert(n >= 10);
        assert(shown =~= decimal(n));
    }
}

/// Appends `m * 2^e` in decimal notation.
fn put_shifted(out: &mut String, m: u64, e: u128)
    ensures
        final(out)@ == old(out)@ + decimal(m as nat * pow2(e as nat)),
{
    let mut s = digits_of(m);
    proof {
        lemma2_to64();
        assert(m * 1 == m);
    }
    let mut i: u128 = 0;
    while i < e
        invariant
            i <= e,
            digits_ok(s@),
            0 < s@.len(),
            s@.len() > 1 ==> s@.last() != 0,
            digits_value(s@) == m * pow2(i as nat),
        decreases e - i,
    {
        proof {
            lemma_pow2_unfold((i + 1) as nat);
            let p = pow2(i as nat);
            assert(2 * (m * p) == m * (2 * p)) by (nonlinear_arith);
        }
        s = doubled(&s);
        i = i + 1;
    }
    let ghost before = out@;
    let ghost shown = s@.reverse().map_values(|d: u8| digit_char(d as nat));
    proof {
        lemma_digits_decimal(s@);
    }
    let n = s.len();
    for i in 0..n
        invariant
            n == s@.len(),
            digits_ok(s@),
            shown == s@.reverse().map_values(|d: u8| digit_char(d as nat)),
            out@ == before + shown.take(i as int),
    {
        let d = s[n - 1 - i];
        assert(shown.take(i + 1) =~= shown.take(i as int).push(shown[i as int]));
        out.push((48 + d) as char);
        assert(out@ =~= before + shown.take(i + 1));
    }
    assert(shown.take(n as int) =~= shown);
}

/// The count of the last decimal place in a magnitude below one unit of 2^0 per bit.
proof fn lemma_places(m: nat, k: nat, t: nat)
    requires
        k <= 1074,
    ensures
        one() > 0,
        nearest((m * pow2((1074 - k) as nat)) * t, one()) == nearest(m * t, pow2(k)),
{
    let z = pow2((1074 - k) as nat);
    lemma_pow2_pos(1074);
    lemma_pow2_pos((1074 - k) as nat);
    lemma_pow2_pos(k);
    lemma_pow2_adds(k, (1074 - k) as nat);
    assert((m * z) * t == (m * t) * z) by (nonlinear_arith);
    lemma_nearest_scale(m * t, pow2(k), z);
}

/// Appends a magnitude with that many decimals.
fn put_magnitude(out: &mut String, f: Float, places: u32)
    requires
        f.wf(),
        1 <= places <= 9,
    ensures
        final(out)@ == old(out)@ + pointed(
            nearest(f.magnitude() * ten(places as nat), one()),
            places as nat,
        ),
{
    let ghost before = out@;
    let t = power_of_ten(places);
    if f.e >= 0 {
        let ghost v = f.m as nat * pow2(f.e as nat);
        put_shifted(out, f.m, f.e as u128);
        out.push('.');
        put_padded(out, 0, places);
        proof {
            lemma_pow2_pos(1074);
            lemma_pow2_adds(f.e as nat, 1074);
            lemma_mul_is_associative(f.m as int, pow2(f.e as nat) as int, one() as int);
            assert(f.magnitude() == v * one());
            let n = v * t as nat;
            assert((v * one()) * (t as nat) == n * one()) by (nonlinear_arith)
                requires
                    n == v * t as nat,
            ;
            lemma_fundamental_div_mod_converse((n * one()) as int, one() as int, n as int, 0);
            assert(nearest(n * one(), one()) == n);
            lemma_fundamental_div_mod_converse(n as int, t as int, v as int, 0);
            assert(out@ =~= before + pointed(n, places as nat));
        }
        return;
    }
    let k: i128 = -f.e;
    let fm: u128 = f.m as u128;
    let ft: u128 = t as u128;
    proof {
        lemma_places(f.m as nat, k as nat, t as nat);
    }
    assert(fm * ft <= 0x20_0000_0000_0000 * 1_000_000_000) by (nonlinear_arith)
        requires
            fm < 0x20_0000_0000_0000,
            ft <= 1_000_000_000,
    ;
    let a: u128 = fm * ft;
    let n: u128 = if k > 100 {
        proof {
            lemma2_to64();
            lemma2_to64_rest();
            lemma_pow2_adds(64, 36);
            lemma_pow2_strictly_increases(100, k as nat);
            lemma_fundamental_div_mod_converse(a as int, pow2(k as nat) as int, 0, a as int);
        }
        0
    } else {
        let p = power(k as u32);
        let q: u128 = a / p;
        let r: u128 = a % p;
        assert(q <= a) by (nonlinear_arith)
            requires
                q == a / p,
                p >= 1,
        ;
        proof {
            lemma2_to64();
            lemma2_to64_rest();
            lemma_pow2_adds(64, 36);
            if k < 100 {
                lemma_pow2_strictly_increases(k as nat, 100);
            }
        }
        if 2 * r < p || (2 * r == p && q % 2 == 0) {
            q
        } else {
            q + 1
        }
    };
    assert(n == nearest(f.magnitude() * ten(places as nat), one()));
    let w: u128 = n / ft;
    assert(w < 0x20_0000_0000_0001) by (nonlinear_arith)
        requires
            w == n / ft,
            n <= fm * ft + 1,
            ft >= 2,
            fm < 0x20_0000_0000_0000,
    ;
    put_decimal(out, w as u64);
    out.push('.');
    put_padded(out, (n % ft) as u64, places);
    assert(out@ =~= before + pointed(n as nat, places as nat));
}

/// Appends a number with that many decimals.
pub fn put_fixed(out: &mut String, f: Float, places: u32)
    requires
        f.wf(),
        1 <= places <= 9,
    ensures
        final(out)@ == old(out)@ + fixed(f.value(), places as nat),
{
    let ghost before = out@;
    proof {
        lemma_pow2_pos((f.e + 1074) as nat);
        assert(f.m > 0 ==> f.m * pow2((f.e + 1074) as nat) > 0) by (nonlinear_arith)
            requires
                pow2((f.e + 1074) as nat) > 0,
        ;
        assert(f.m == 0 ==> f.m * pow2((f.e + 1074) as nat) == 0);
    }
    if f.neg && f.m != 0 {
        out.push('-');
    }
    put_magnitude(out, f, places);
    assert(out@ =~= before + fixed(f.value(), places as nat));
}

/// Appends a number with that many decimals and its sign in front, whatever it is.
pub fn put_fixed_signed(out: &mut String, f: Float, places: u32)
    requires
        f.wf(),
        1 <= places <= 9,
    ensures
        final(out)@ == old(out)@ + fixed_signed(f, places as nat),
{
    let ghost before = out@;
    if f.neg {
        out.push('-');
    } else {
        out.push('+');
    }
    put_magnitude(out, f, places);
    assert(out@ =~= before + fixed_signed(f, places as nat));
}

/// A number with that many decimals.
pub fn fixed_string(f: Float, places: u32) -> (r: String)
    requires
        f.wf(),
        1 <= places <= 9,
    ensures
        r@ == fixed(f.value(), places as nat),
{
    let mut r = String::new();
    put_fixed(&mut r, f, places);
    assert(r@ =~= fixed(f.value(), places as nat));
    r
}

} // verus!
