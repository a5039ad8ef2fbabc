//! What numbers and rates in a text come to.

use vstd::prelude::*;
use vstd::arithmetic::power2::{lemma_pow2_pos, pow2};
use crate::accuracy::lemma_one_is_large;
use crate::binary64::{one, quotient, whole_numbers_are_exact};
use crate::decimals::{
    all_digits, digits_value, exponent, mantissa, real_number, scaled, scientific, unsigned,
    RealView,
};
use crate::fixed::ten;
use crate::number::{decimal, digit, digit_char, lemma_decimal_digits};
use crate::pacing::{lemma_bounds, lemma_finite_amount, lemma_near_over, lemma_ratio, near};
use crate::probe::rate_of;
use crate::text::{lemma_position, lemma_trimmed_already, position};

verus! {

/// The digits of a number are worth that number.
proof fn lemma_digits_value(n: nat)
    ensures
        digits_value(decimal(n)) == n,
        all_digits(decimal(n)),
    decreases n,
{
    lemma_decimal_digits(n);
    if n < 10 {
        let s = decimal(n);
        assert(s.drop_last() =~= Seq::<char>::empty());
        assert(digits_value(s.drop_last()) == 0);
        assert(s.last() == digit_char(n));
    } else {
        lemma_digits_value(n / 10);
        let s = decimal(n);
        assert(s.drop_last() =~= decimal(n / 10));
        assert(s.last() == digit_char(n % 10));
    }
}

/// A separator that is not there.
proof fn lemma_nowhere(s: Seq<char>, a: char, b: char)
    requires
        all_digits(s),
        !digit(a),
        !digit(b),
    ensures
        position(s, a, b) == s.len(),
{
    lemma_position(s, a, b);
    let p = position(s, a, b) as int;
    if p < s.len() {
        assert(digit(s[p]));
    }
}

/// A whole number in decimal notation is read as that number, exactly, up to 2^53.
pub proof fn whole_numbers_are_read_exactly(n: nat)
    requires
        n < 0x20_0000_0000_0000,
    ensures
        real_number(decimal(n)) == Some(RealView::Finite((n * one()) as int)),
{
    let t = decimal(n);
    lemma_decimal_digits(n);
    lemma_digits_value(n);
    assert(digit(t[0]));
    assert(unsigned(t) == t);
    lemma_nowhere(t, 'e', 'E');
    lemma_nowhere(t, '.', '.');
    let len = t.len() as int;
    assert(t.take(len) =~= t);
    assert(t.skip(len) =~= Seq::<char>::empty());
    assert(t.take(len) + Seq::<char>::empty() =~= t);
    assert(mantissa(t) == Some((t, 0nat)));
    assert(exponent(Seq::<char>::empty()) == Some(0int));
    assert(scientific(t) == Some((t, 0int)));
    assert(ten(0) == 1);
    assert(n * 1 == n);
    whole_numbers_are_exact(n);
    assert(scaled(n, 0) == n * one());
    lemma_bounds();
    lemma_pow2_pos(1074);
    let (u, p) = (one() as int, pow2(600) as int);
    let v = n * u;
    assert(0 <= v <= p * u) by (nonlinear_arith)
        requires
            v == n * u,
            0 <= n <= p,
            u > 0,
    ;
    lemma_finite_amount(v);
}

/// A frame rate is read as the fraction that it is written as, but for rounding, and a whole number as
/// itself. Without frames, or by no time, there is no rate.
pub proof fn rates_are_read_as_fractions(n: nat, d: nat)
    requires
        n < 0x20_0000_0000_0000,
        d < 0x20_0000_0000_0000,
    ensures
        n >= 1 ==> rate_of(decimal(n)) == Some(RealView::Finite((n * one()) as int)),
        n >= 1 && d >= 1 ==> (rate_of(decimal(n).push('/') + decimal(d)) matches Some(
            RealView::Finite(v),
        ) && v > 0 && near(v * d, (n * one()) as int, 2)),
        n == 0 ==> rate_of(decimal(n)) is None,
        n == 0 || d == 0 ==> rate_of(decimal(n).push('/') + decimal(d)) is None,
{
    let (a, b) = (decimal(n), decimal(d));
    lemma_decimal_digits(n);
    lemma_decimal_digits(d);
    lemma_digits_value(n);
    assert(digit(a[0]) && digit(a[a.len() - 1]));
    assert(digit(b[0]) && digit(b[b.len() - 1]));
    lemma_trimmed_already(a);
    lemma_trimmed_already(b);
    whole_numbers_are_read_exactly(n);
    whole_numbers_are_read_exactly(d);
    lemma_nowhere(a, '/', '/');
    let u = one() as int;
    lemma_one_is_large();
    let s = a.push('/') + b;
    assert(s[0] == a[0] && s[s.len() - 1] == b[b.len() - 1]);
    lemma_trimmed_already(s);
    let at = a.len() as int;
    lemma_position(s, '/', '/');
    let p = position(s, '/', '/') as int;
    assert(s[at] == '/');
    if p < at {
        assert(s[p] == a[p]);
        assert(digit(a[p]));
    }
    assert(p == at);
    assert(s.take(at) =~= a);
    assert(s.skip(at + 1) =~= b);
    assert(0 * one() == 0);
    if n >= 1 {
        assert(n * u > 0) by (nonlinear_arith)
            requires
                n >= 1,
                u > 0,
        ;
    }
    if n >= 1 && d >= 1 {
        let (nu, du) = ((n * one()) as int, (d * one()) as int);
        let c = 0x20_0000_0000_0000int;
        assert(u <= nu <= c * u && u <= du <= c * u) by (nonlinear_arith)
            requires
                nu == n * u,
                du == d * u,
                1 <= n <= c,
                1 <= d <= c,
                u > 0,
        ;
        lemma_bounds();
        lemma_ratio(nu, du, c, 1, c, 1);
        let v = quotient(nu, du);
        // the units of the denominator
        assert(v * du == (v * d) * u) by (nonlinear_arith)
            requires
                du == d * u,
        ;
        lemma_near_over(v * d, nu, u, 2);
    }
}

} // verus!
