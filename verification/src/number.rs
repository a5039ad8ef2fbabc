//! Decimal numbers as text.

use vstd::prelude::*;

verus! {

/// Why a text is no number.
#[derive(Clone, Copy, Debug, PartialEq, Eq, Structural)]
pub enum NumberFault {
    Empty,
    InvalidDigit,
    Overflow,
}

/// The character of a decimal digit.
pub open spec fn digit_char(d: nat) -> char {
    ((48 + d) as u8) as char
}

/// The decimal notation of a number, without leading zeros.
pub open spec fn decimal(n: nat) -> Seq<char>
    decreases n,
{
    if n < 10 {
        seq![digit_char(n)]
    } else {
        decimal(n / 10).push(digit_char(n % 10))
    }
}

/// True for the ASCII digits.
pub open spec fn digit(c: char) -> bool {
    '0' <= c <= '9'
}

/// The value of the digits in `s`, after the digits that made `acc`: the first character that is
/// no digit, or the first digit that takes the value over `max`, is the fault.
pub open spec fn scan_digits(s: Seq<char>, acc: nat, max: nat) -> Result<nat, NumberFault>
    decreases s.len(),
{
    if s.len() == 0 {
        Ok(acc)
    } else if !digit(s[0]) {
        Err(NumberFault::InvalidDigit)
    } else {
        let next = (acc * 10 + (s[0] as int - 48)) as nat;
        if next > max {
            Err(NumberFault::Overflow)
        } else {
            scan_digits(s.drop_first(), next, max)
        }
    }
}

/// The number that a text stands for: an optional plus sign, then digits, at most `max`.
pub open spec fn number(s: Seq<char>, max: nat) -> Result<nat, NumberFault> {
    if s.len() == 0 {
        Err(NumberFault::Empty)
    } else if s[0] == '+' && s.len() > 1 {
        scan_digits(s.drop_first(), 0, max)
    } else {
        scan_digits(s, 0, max)
    }
}

/// Reads an unsigned decimal number of at most `max`.
pub fn parse_number(s: &[char], max: u64) -> (r: Result<u64, NumberFault>)
    ensures
        match r {
            Ok(v) => number(s@, max as nat) == Ok::<nat, NumberFault>(v as nat),
            Err(e) => number(s@, max as nat) == Err::<nat, NumberFault>(e),
        },
        r matches Ok(v) ==> v <= max,
{
    if s.len() == 0 {
        return Err(NumberFault::Empty);
    }
    let mut i: usize = 0;
    assert(s@.skip(0) =~= s@);
    if s[0] == '+' && s.len() > 1 {
        i = 1;
        assert(s@.skip(1) =~= s@.drop_first());
    }
    let mut acc: u64 = 0;
    while i < s.len()
        invariant
            i <= s@.len(),
            acc <= max,
            number(s@, max as nat) == scan_digits(s@.skip(i as int), acc as nat, max as nat),
        decreases s@.len() - i,
    {
        let c = s[i];
        assert(s@.skip(i as int).drop_first() =~= s@.skip(i + 1));
        if !('0' <= c && c <= '9') {
            return Err(NumberFault::InvalidDigit);
        }
        let d: u64 = (c as u8 - 48) as u64;
        if acc > max / 10 || max - acc * 10 < d {
            assert(acc * 10 + d > max);
            return Err(NumberFault::Overflow);
        }
        acc = acc * 10 + d;
        i = i + 1;
    }
    Ok(acc)
}

/// Writes a number in decimal notation.
pub fn decimal_chars(n: u64) -> (r: Vec<char>)
    ensures
        r@ == decimal(n as nat),
    decreases n,
{
    let d: u8 = (n % 10) as u8;
    let c: char = (48 + d) as char;
    if n < 10 {
        let mut r: Vec<char> = Vec::new();
        r.push(c);
        assert(r@ =~= decimal(n as nat));
        r
    } else {
        let mut r = decimal_chars(n / 10);
        r.push(c);
        r
    }
}

/// Appends a number in decimal notation.
pub fn put_decimal(out: &mut String, n: u64)
    ensures
        final(out)@ == old(out)@ + decimal(n as nat),
{
    let v = decimal_chars(n);
    let ghost before = out@;
    for i in 0..v.len()
        invariant
            v@ == decimal(n as nat),
            out@ == before + v@.take(i as int),
    {
        assert(v@.take(i + 1) =~= v@.take(i as int).push(v@[i as int]));
        out.push(v[i]);
        assert(out@ =~= before + v@.take(i + 1));
    }
    assert(v@.take(v@.len() as int) =~= v@);
}

/// A number in decimal notation.
pub fn decimal_string(n: u64) -> (r: String)
    ensures
        r@ == decimal(n as nat),
{
    let mut r = String::new();
    put_decimal(&mut r, n);
    assert(r@ =~= decimal(n as nat));
    r
}

/// Reading digits after `acc` goes on where a shorter reading stopped.
proof fn lemma_scan_push(s: Seq<char>, c: char, acc: nat, max: nat)
    requires
        scan_digits(s, acc, max) is Ok,
        digit(c),
    ensures
        scan_digits(s.push(c), acc, max) == {
            let next = (scan_digits(s, acc, max)->Ok_0 * 10 + (c as int - 48)) as nat;
            if next > max {
                Err::<nat, NumberFault>(NumberFault::Overflow)
            } else {
                Ok::<nat, NumberFault>(next)
            }
        },
    decreases s.len(),
{
    if s.len() == 0 {
        reveal_with_fuel(scan_digits, 2);
        assert(s.push(c).drop_first() =~= s);
    } else {
        assert(s.push(c).drop_first() =~= s.drop_first().push(c));
        lemma_scan_push(
            s.drop_first(),
            c,
            (acc * 10 + (s[0] as int - 48)) as nat,
            max,
        );
    }
}

/// The digits of a number read back as the number.
proof fn lemma_scan_decimal(n: nat, max: nat)
    requires
        n <= max,
    ensures
        decimal(n).len() > 0,
        forall|i: int| 0 <= i < decimal(n).len() ==> digit(#[trigger] decimal(n)[i]),
        scan_digits(decimal(n), 0, max) == Ok::<nat, NumberFault>(n),
    decreases n,
{
    if n < 10 {
        let s = decimal(n);
        assert(s =~= seq![digit_char(n)]);
        assert(s.drop_first() =~= Seq::<char>::empty());
        assert(scan_digits(s.drop_first(), n, max) == Ok::<nat, NumberFault>(n));
    } else {
        lemma_scan_decimal(n / 10, max);
        lemma_scan_push(decimal(n / 10), digit_char(n % 10), 0, max);
    }
}

/// The decimal notation of a number is made of digits.
pub proof fn lemma_decimal_digits(n: nat)
    ensures
        decimal(n).len() > 0,
        forall|i: int| 0 <= i < decimal(n).len() ==> digit(#[trigger] decimal(n)[i]),
{
    lemma_scan_decimal(n, n);
}

/// A number printed in decimal notation is read back as the same number.
pub proof fn decimal_reads_back(n: nat, max: nat)
    requires
        n <= max,
    ensures
        number(decimal(n), max) == Ok::<nat, NumberFault>(n),
{
    lemma_scan_decimal(n, max);
    assert(digit(decimal(n)[0]));
}

} // verus!
