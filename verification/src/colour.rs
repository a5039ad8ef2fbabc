//! Fill colours: their notation, and their samples in the planes of a pixel format.

use vstd::prelude::*;
use vstd::slice::slice_subrange;
use vstd::arithmetic::power2::{lemma2_to64, lemma_pow2_strictly_increases, pow2};
use crate::binary64::{clamped, difference, fraction, half_away, one, product, quotient, sum, Float};
use crate::error::{Error, Fault};
use crate::number::{
    decimal, decimal_reads_back, digit, digit_char, lemma_decimal_digits, number, parse_number,
    NumberFault,
};
use crate::rounding::power;
use crate::text::{chars_of, lemma_trimmed_already, pieces, rows, split, trim, trimmed, white};

verus! {

/// A colour with 8 bits per component.
#[derive(Clone, Copy, Debug, PartialEq, Eq, Structural)]
pub struct Colour {
    pub r: u32,
    pub g: u32,
    pub b: u32,
    pub a: u32,
}

impl Colour {
    /// Every component has 8 bits.
    pub open spec fn wf(self) -> bool {
        self.r <= 255 && self.g <= 255 && self.b <= 255 && self.a <= 255
    }
}

/// The bytes of a character in UTF-8.
pub open spec fn char_bytes(c: char) -> nat {
    if (c as u32) < 0x80 {
        1
    } else if (c as u32) < 0x800 {
        2
    } else if (c as u32) < 0x10000 {
        3
    } else {
        4
    }
}

/// The bytes of a text in UTF-8.
pub open spec fn byte_len(s: Seq<char>) -> nat
    decreases s.len(),
{
    if s.len() == 0 {
        0
    } else {
        byte_len(s.drop_last()) + char_bytes(s.last())
    }
}

/// The value of a hexadecimal digit.
pub open spec fn hex_digit(c: char) -> Option<nat> {
    if '0' <= c <= '9' {
        Some((c as int - 48) as nat)
    } else if 'a' <= c <= 'f' {
        Some((c as int - 87) as nat)
    } else if 'A' <= c <= 'F' {
        Some((c as int - 55) as nat)
    } else {
        None
    }
}

/// The value of two hexadecimal digits.
pub open spec fn hex_pair(a: char, b: char) -> Option<nat> {
    match (hex_digit(a), hex_digit(b)) {
        (Some(x), Some(y)) => Some(16 * x + y),
        _ => None,
    }
}

/// The values of the pairs of characters in a text.
pub open spec fn hex_pairs(s: Seq<char>) -> Option<Seq<nat>>
    decreases s.len(),
{
    if s.len() < 2 {
        Some(Seq::empty())
    } else {
        match (hex_pairs(s.take(s.len() - 2)), hex_pair(s[s.len() - 2], s[s.len() - 1])) {
            (Some(front), Some(v)) => Some(front.push(v)),
            _ => None,
        }
    }
}

/// The numbers in some texts, white space around them ignored, or the first fault.
pub open spec fn numbers(v: Seq<Seq<char>>) -> Result<Seq<nat>, NumberFault>
    decreases v.len(),
{
    if v.len() == 0 {
        Ok(Seq::empty())
    } else {
        match numbers(v.drop_last()) {
            Ok(front) => match number(trim(v.last()), u32::MAX as nat) {
                Ok(n) => Ok(front.push(n)),
                Err(e) => Err(e),
            },
            Err(e) => Err(e),
        }
    }
}

/// The components in the notation of a colour: `#` and pairs of hexadecimal digits, or decimal
/// numbers between commas.
pub open spec fn components(s: Seq<char>) -> Result<Seq<nat>, Fault> {
    let t = trim(s);
    if t.len() > 0 && t[0] == '#' {
        let hex = t.skip(1);
        if byte_len(hex) != 6 && byte_len(hex) != 8 {
            Err(Fault::FillHexLength)
        } else if byte_len(hex) != hex.len() {
            Err(Fault::FillNumber(NumberFault::InvalidDigit))
        } else {
            match hex_pairs(hex) {
                Some(v) => Ok(v),
                None => Err(Fault::FillNumber(NumberFault::InvalidDigit)),
            }
        }
    } else {
        match numbers(pieces(t, ',')) {
            Ok(v) => Ok(v),
            Err(e) => Err(Fault::FillNumber(e)),
        }
    }
}

/// The colour of one to four components: gray, gray and alpha, RGB, or RGB and alpha.
pub open spec fn colour_of(v: Seq<nat>) -> Option<Colour> {
    if !(1 <= v.len() <= 4) || (exists|i: int| 0 <= i < v.len() && #[trigger] v[i] > 255) {
        None
    } else {
        let gray = v.len() <= 2;
        Some(
            Colour {
                r: v[0] as u32,
                g: if gray {
                    v[0] as u32
                } else {
                    v[1] as u32
                },
                b: if gray {
                    v[0] as u32
                } else {
                    v[2] as u32
                },
                a: if v.len() == 2 {
                    v[1] as u32
                } else if v.len() == 4 {
                    v[3] as u32
                } else {
                    0
                },
            },
        )
    }
}

/// The colour that a text stands for.
pub open spec fn parsed_colour(s: Seq<char>) -> Result<Colour, Fault> {
    match components(s) {
        Err(e) => Err(e),
        Ok(v) => match colour_of(v) {
            Some(c) => Ok(c),
            None => Err(Fault::FillComponents),
        },
    }
}

proof fn lemma_byte_len(s: Seq<char>)
    ensures
        s.len() <= byte_len(s) <= 4 * s.len(),
    decreases s.len(),
{
    if s.len() > 0 {
        lemma_byte_len(s.drop_last());
    }
}

fn hex_value(c: char) -> (r: Option<u32>)
    ensures
        match r {
            Some(v) => hex_digit(c) == Some(v as nat) && v < 16,
            None => hex_digit(c) is None,
        },
{
    if '0' <= c && c <= '9' {
        Some((c as u8 - 48) as u32)
    } else if 'a' <= c && c <= 'f' {
        Some((c as u8 - 87) as u32)
    } else if 'A' <= c && c <= 'F' {
        Some((c as u8 - 55) as u32)
    } else {
        None
    }
}

/// The values of integers.
pub open spec fn values(v: Seq<u32>) -> Seq<nat> {
    v.map_values(|x: u32| x as nat)
}

fn hex_components(hex: &[char]) -> (r: Option<Vec<u32>>)
    requires
        hex@.len() % 2 == 0,
    ensures
        match r {
            Some(v) => hex_pairs(hex@) == Some(values(v@)),
            None => hex_pairs(hex@) is None,
        },
{
    let mut v: Vec<u32> = Vec::new();
    let mut i: usize = 0;
    let ghost mut bad = false;
    assert(values(v@) =~= Seq::<nat>::empty());
    assert(hex@.take(0).len() == 0);
    let mut ok = true;
    while i < hex.len()
        invariant
            i <= hex@.len(),
            i % 2 == 0,
            hex@.len() % 2 == 0,
            ok ==> hex_pairs(hex@.take(i as int)) == Some(values(v@)),
            !ok ==> hex_pairs(hex@.take(i as int)) is None,
        decreases hex@.len() - i,
    {
        let a = hex[i];
        let b = hex[i + 1];
        let ghost front = values(v@);
        assert(hex@.take(i + 2).take(i as int) =~= hex@.take(i as int));
        match (hex_value(a), hex_value(b)) {
            (Some(x), Some(y)) => {
                v.push(16 * x + y);
                assert(values(v@) =~= front.push((16 * x + y) as nat));
            },
            _ => {
                ok = false;
            },
        }
        i = i + 2;
    }
    assert(hex@.take(hex@.len() as int) =~= hex@);
    if ok {
        Some(v)
    } else {
        None
    }
}

fn decimal_components(v: &Vec<Vec<char>>) -> (r: Result<Vec<u32>, NumberFault>)
    ensures
        match r {
            Ok(n) => numbers(rows(v@)) == Ok::<Seq<nat>, NumberFault>(values(n@)),
            Err(e) => numbers(rows(v@)) == Err::<Seq<nat>, NumberFault>(e),
        },
{
    let mut out: Vec<u32> = Vec::new();
    let mut fault: Option<NumberFault> = None;
    assert(values(out@) =~= Seq::<nat>::empty());
    for i in 0..v.len()
        invariant
            match fault {
                None => numbers(rows(v@).take(i as int)) == Ok::<Seq<nat>, NumberFault>(
                    values(out@),
                ),
                Some(e) => numbers(rows(v@).take(i as int)) == Err::<Seq<nat>, NumberFault>(e),
            },
    {
        let ghost front = values(out@);
        assert(rows(v@).take(i + 1).drop_last() =~= rows(v@).take(i as int));
        if fault.is_none() {
            match parse_number(trimmed(&v[i]), u32::MAX as u64) {
                Ok(n) => {
                    out.push(n as u32);
                    assert(values(out@) =~= front.push(n as nat));
                },
                Err(e) => {
                    fault = Some(e);
                },
            }
        }
    }
    assert(rows(v@).take(v@.len() as int) =~= rows(v@));
    match fault {
        None => Ok(out),
        Some(e) => Err(e),
    }
}

fn component_list(spec_text: &str) -> (r: Result<Vec<u32>, Fault>)
    ensures
        match r {
            Ok(v) => components(spec_text@) == Ok::<Seq<nat>, Fault>(values(v@)),
            Err(e) => components(spec_text@) == Err::<Seq<nat>, Fault>(e),
        },
{
    let text = chars_of(spec_text);
    let t = trimmed(&text);
    if t.len() > 0 && t[0] == '#' {
        let hex = slice_subrange(t, 1, t.len());
        assert(hex@ =~= t@.skip(1));
        proof {
            lemma_byte_len(hex@);
        }
        if hex.len() > 8 {
            return Err(Fault::FillHexLength);
        }
        let mut bytes: usize = 0;
        for i in 0..hex.len()
            invariant
                hex@.len() <= 8,
                bytes == byte_len(hex@.take(i as int)),
                bytes <= 4 * i,
        {
            assert(hex@.take(i + 1).drop_last() =~= hex@.take(i as int));
            let c = hex[i];
            bytes = bytes + if (c as u32) < 0x80 {
                1usize
            } else if (c as u32) < 0x800 {
                2usize
            } else if (c as u32) < 0x10000 {
                3usize
            } else {
                4usize
            };
        }
        assert(hex@.take(hex@.len() as int) =~= hex@);
        if bytes != 6 && bytes != 8 {
            return Err(Fault::FillHexLength);
        }
        if bytes != hex.len() {
            return Err(Fault::FillNumber(NumberFault::InvalidDigit));
        }
        match hex_components(hex) {
            Some(v) => Ok(v),
            None => Err(Fault::FillNumber(NumberFault::InvalidDigit)),
        }
    } else {
        match decimal_components(&split(t, ',')) {
            Ok(v) => Ok(v),
            Err(e) => Err(Fault::FillNumber(e)),
        }
    }
}

impl Colour {
    /// Reads a colour in the notation `#RRGGBB[AA]`, `R,G,B[,A]` or a gray value with or without
    /// alpha.
    pub fn parse(spec_text: &str) -> (r: Result<Colour, Error>)
        ensures
            match r {
                Ok(c) => parsed_colour(spec_text@) == Ok::<Colour, Fault>(c) && c.wf(),
                Err(e) => parsed_colour(spec_text@) == Err::<Colour, Fault>(e.fault) && e.says(
                    e.fault,
                    "ROT_FILL"@,
                    spec_text@,
                ),
            },
    {
        let v = match component_list(spec_text) {
            Ok(v) => v,
            Err(fault) => {
                return Err(Error::new(fault, "ROT_FILL", spec_text));
            },
        };
        let mut ok = 1 <= v.len() && v.len() <= 4;
        for i in 0..v.len()
            invariant
                ok == (1 <= v@.len() <= 4 && forall|j: int| 0 <= j < i ==> #[trigger] v@[j] <= 255),
        {
            if v[i] > 255 {
                ok = false;
            }
        }
        if !ok {
            proof {
                if 1 <= v@.len() <= 4 {
                    let j = choose|j: int| 0 <= j < v@.len() && v@[j] > 255;
                    assert(values(v@)[j] > 255);
                }
            }
            return Err(Error::new(Fault::FillComponents, "ROT_FILL", spec_text));
        }
        assert forall|i: int| 0 <= i < values(v@).len() implies #[trigger] values(v@)[i] <= 255 by {
            assert(v@[i] <= 255);
        }
        let n = v.len();
        let gray = n <= 2;
        Ok(
            Colour {
                r: v[0],
                g: if gray {
                    v[0]
                } else {
                    v[1]
                },
                b: if gray {
                    v[0]
                } else {
                    v[2]
                },
                a: if n == 2 {
                    v[1]
                } else if n == 4 {
                    v[3]
                } else {
                    0
                },
            },
        )
    }
}

/// The largest sample of that many bits.
pub open spec fn top(depth: nat) -> nat {
    (pow2(depth) - 1) as nat
}

/// A whole number as a binary64 number.
pub open spec fn whole(n: nat) -> int {
    (n * one()) as int
}

/// The sample nearest to a number, between zero and the largest sample.
pub open spec fn level(v: int, depth: nat) -> nat {
    clamped(half_away(v), 0, top(depth) as int) as nat
}

/// A component between 0 and 1.
pub open spec fn unit(c: u32) -> int {
    fraction(c as nat, 255) as int
}

/// The BT.709 luma of a colour, between 0 and 1.
pub open spec fn luma(c: Colour) -> int {
    sum(
        sum(
            product(fraction(2126, 10000) as int, unit(c.r)),
            product(fraction(7152, 10000) as int, unit(c.g)),
        ),
        product(fraction(722, 10000) as int, unit(c.b)),
    )
}

/// The BT.709 blue difference of a colour, between -1/2 and 1/2.
pub open spec fn blue_difference(c: Colour) -> int {
    quotient(difference(unit(c.b), luma(c)), fraction(18556, 10000) as int)
}

/// The BT.709 red difference of a colour, between -1/2 and 1/2.
pub open spec fn red_difference(c: Colour) -> int {
    quotient(difference(unit(c.r), luma(c)), fraction(15748, 10000) as int)
}

/// The luma sample: all levels in full range, 16 to 235 (in 8 bits) otherwise.
pub open spec fn luma_level(c: Colour, depth: nat, full_range: bool) -> nat {
    level(
        if full_range {
            product(luma(c), whole(top(depth)))
        } else {
            product(
                sum(whole(16), product(whole(219), luma(c))),
                whole(pow2((depth - 8) as nat)),
            )
        },
        depth,
    )
}

/// The sample of a colour difference: around the middle, 224 levels (in 8 bits) unless in full range.
pub open spec fn difference_level(d: int, depth: nat, full_range: bool) -> nat {
    level(
        if full_range {
            sum(whole(pow2((depth - 1) as nat)), product(d, whole(top(depth))))
        } else {
            product(sum(whole(128), product(whole(224), d)), whole(pow2((depth - 8) as nat)))
        },
        depth,
    )
}

/// The alpha sample.
pub open spec fn alpha_level(c: Colour, depth: nat) -> nat {
    level(product(unit(c.a), whole(top(depth))), depth)
}

/// The 8-bit component that a channel letter of a packed format stands for.
pub open spec fn channel(c: Colour, letter: char) -> nat {
    if letter == 'r' {
        c.r as nat
    } else if letter == 'g' {
        c.g as nat
    } else if letter == 'b' {
        c.b as nat
    } else if letter == 'a' {
        c.a as nat
    } else if letter == 'y' {
        ((299 * c.r + 587 * c.g + 114 * c.b + 500) / 1000) as nat
    } else {
        0
    }
}

/// The samples of a colour in the planes of a format.
#[derive(Clone, Copy, Debug, PartialEq, Eq, Structural)]
pub struct Samples {
    pub y: u32,
    pub cb: u32,
    pub cr: u32,
    pub a: u32,
}

impl Samples {
    /// The samples are those of the colour.
    pub open spec fn of(self, c: Colour, depth: nat, full_range: bool) -> bool {
        &&& self.y == luma_level(c, depth, full_range)
        &&& self.cb == difference_level(blue_difference(c), depth, full_range)
        &&& self.cr == difference_level(red_difference(c), depth, full_range)
        &&& self.a == alpha_level(c, depth)
    }
}

proof fn lemma_depth(depth: nat)
    requires
        8 <= depth <= 16,
    ensures
        255 <= top(depth) <= 65535,
        pow2(depth) == top(depth) + 1,
        1 <= pow2((depth - 8) as nat) <= 256,
        128 <= pow2((depth - 1) as nat) <= 32768,
{
    lemma2_to64();
    if depth < 16 {
        lemma_pow2_strictly_increases(depth, 16);
        lemma_pow2_strictly_increases((depth - 8) as nat, 8);
        lemma_pow2_strictly_increases((depth - 1) as nat, 15);
    }
    if depth > 8 {
        lemma_pow2_strictly_increases(8, depth);
        lemma_pow2_strictly_increases(0, (depth - 8) as nat);
        lemma_pow2_strictly_increases(7, (depth - 1) as nat);
    }
}

fn sample(v: Float, depth: u32) -> (r: u32)
    requires
        v.wf(),
        8 <= depth <= 16,
    ensures
        r == level(v.value(), depth as nat),
        r <= top(depth as nat),
{
    proof {
        lemma_depth(depth as nat);
    }
    let max: u64 = power(depth) as u64 - 1;
    let n = v.round_u64();
    if n > max {
        max as u32
    } else {
        n as u32
    }
}

fn difference_sample(d: Float, depth: u32, full_range: bool) -> (r: u32)
    requires
        d.wf(),
        d.e <= 0x1_0000,
        8 <= depth <= 16,
    ensures
        r == difference_level(d.value(), depth as nat, full_range),
        r <= top(depth as nat),
{
    proof {
        lemma_depth(depth as nat);
    }
    let v = if full_range {
        let mid = Float::from_int(power(depth - 1) as u64);
        mid.plus(d.times(Float::from_int(power(depth) as u64 - 1)))
    } else {
        let scale = Float::from_int(power(depth - 8) as u64);
        Float::from_int(128).plus(Float::from_int(224).times(d)).times(scale)
    };
    sample(v, depth)
}

impl Colour {
    /// The samples of the colour in the planes of a format of that depth.
    pub fn samples(self, depth: u32, full_range: bool) -> (r: Samples)
        requires
            self.wf(),
            8 <= depth <= 16,
        ensures
            r.of(self, depth as nat, full_range),
            r.y <= top(depth as nat),
            r.cb <= top(depth as nat),
            r.cr <= top(depth as nat),
            r.a <= top(depth as nat),
    {
        proof {
            lemma_depth(depth as nat);
        }
        let rf = Float::ratio(self.r as u64, 255);
        let gf = Float::ratio(self.g as u64, 255);
        let bf = Float::ratio(self.b as u64, 255);
        let red = Float::ratio(2126, 10000).times(rf);
        let green = Float::ratio(7152, 10000).times(gf);
        let blue = Float::ratio(722, 10000).times(bf);
        let yf = red.plus(green).plus(blue);
        let cb_scale = Float::ratio(18556, 10000);
        let cr_scale = Float::ratio(15748, 10000);
        let cbf = bf.minus(yf).over(cb_scale);
        let crf = rf.minus(yf).over(cr_scale);
        let max = Float::from_int(power(depth) as u64 - 1);
        let y = if full_range {
            yf.times(max)
        } else {
            let scale = Float::from_int(power(depth - 8) as u64);
            Float::from_int(16).plus(Float::from_int(219).times(yf)).times(scale)
        };
        let a = Float::ratio(self.a as u64, 255).times(max);
        Samples {
            y: sample(y, depth),
            cb: difference_sample(cbf, depth, full_range),
            cr: difference_sample(crf, depth, full_range),
            a: sample(a, depth),
        }
    }

    /// The 8-bit component that a channel letter of a packed format stands for.
    pub fn component(self, letter: char) -> (r: u32)
        requires
            self.wf(),
        ensures
            r == channel(self, letter),
            r <= 255,
    {
        if letter == 'r' {
            self.r
        } else if letter == 'g' {
            self.g
        } else if letter == 'b' {
            self.b
        } else if letter == 'a' {
            self.a
        } else if letter == 'y' {
            (299 * self.r + 587 * self.g + 114 * self.b + 500) / 1000
        } else {
            0
        }
    }
}

/// The character of a hexadecimal digit.
pub open spec fn hex_char(d: nat) -> char {
    if d < 10 {
        digit_char(d)
    } else {
        ((87 + d) as u8) as char
    }
}

/// Some components in hexadecimal notation, two digits each.
pub open spec fn hex_text(v: Seq<nat>) -> Seq<char>
    decreases v.len(),
{
    if v.len() == 0 {
        Seq::empty()
    } else {
        hex_text(v.drop_last()).push(hex_char(v.last() / 16)).push(hex_char(v.last() % 16))
    }
}

/// Some components in decimal notation, commas between them.
pub open spec fn decimal_text(v: Seq<nat>) -> Seq<char>
    decreases v.len(),
{
    if v.len() == 0 {
        Seq::empty()
    } else if v.len() == 1 {
        decimal(v[0])
    } else {
        decimal_text(v.drop_last()).push(',') + decimal(v.last())
    }
}

/// Every component has 8 bits.
pub open spec fn all_bytes(v: Seq<nat>) -> bool {
    forall|i: int| 0 <= i < v.len() ==> #[trigger] v[i] <= 255
}

/// Two digits are read back from the end of a hexadecimal text.
proof fn lemma_hex_reads_back(v: Seq<nat>)
    requires
        all_bytes(v),
    ensures
        hex_pairs(hex_text(v)) == Some(v),
        byte_len(hex_text(v)) == 2 * v.len(),
        hex_text(v).len() == 2 * v.len(),
        forall|i: int| 0 <= i < hex_text(v).len() ==> !white(#[trigger] hex_text(v)[i]),
    decreases v.len(),
{
    if v.len() == 0 {
        assert(v =~= Seq::empty());
    } else {
        let front = v.drop_last();
        let n = v[v.len() - 1];
        assert(all_bytes(front)) by {
            assert forall|i: int| 0 <= i < front.len() implies #[trigger] front[i] <= 255 by {
                assert(front[i] == v[i]);
            }
        }
        lemma_hex_reads_back(front);
        let t = hex_text(v);
        let (a, b) = (n / 16, n % 16);
        assert(t.take(t.len() - 2) =~= hex_text(front));
        assert(hex_digit(hex_char(a)) == Some(a));
        assert(hex_digit(hex_char(b)) == Some(b));
        assert(16 * a + b == n);
        assert(front.push(n) =~= v);
        let s = hex_text(front).push(hex_char(a));
        assert(t.drop_last() =~= s);
        assert(s.drop_last() =~= hex_text(front));
        assert(char_bytes(hex_char(a)) == 1 && char_bytes(hex_char(b)) == 1);
        assert(byte_len(s) == byte_len(s.drop_last()) + char_bytes(s.last()));
        assert(byte_len(t) == byte_len(t.drop_last()) + char_bytes(t.last()));
    }
}

/// A piece without the separator behind one stands alone.
pub proof fn lemma_last_piece(s: Seq<char>, c: char, t: Seq<char>)
    requires
        forall|i: int| 0 <= i < t.len() ==> #[trigger] t[i] != c,
    ensures
        pieces(s.push(c) + t, c) == pieces(s, c).push(t),
    decreases t.len(),
{
    let all = s.push(c) + t;
    if t.len() == 0 {
        assert(all =~= s.push(c));
        assert(all.drop_last() =~= s);
        assert(t =~= Seq::empty());
    } else {
        let u = t.drop_last();
        assert forall|i: int| 0 <= i < u.len() implies #[trigger] u[i] != c by {
            assert(u[i] == t[i]);
        }
        lemma_last_piece(s, c, u);
        assert(all.drop_last() =~= s.push(c) + u);
        assert(all.last() == t[t.len() - 1]);
        assert(u.push(t.last()) =~= t);
        let front = pieces(s, c).push(u);
        assert(front.update(front.len() - 1, front.last().push(all.last())) =~= pieces(s, c).push(t));
    }
}

/// A text without the separator is one piece.
pub proof fn lemma_one_piece(t: Seq<char>, c: char)
    requires
        forall|i: int| 0 <= i < t.len() ==> #[trigger] t[i] != c,
    ensures
        pieces(t, c) == seq![t],
    decreases t.len(),
{
    if t.len() == 0 {
        assert(t =~= Seq::empty());
    } else {
        let u = t.drop_last();
        assert forall|i: int| 0 <= i < u.len() implies #[trigger] u[i] != c by {
            assert(u[i] == t[i]);
        }
        lemma_one_piece(u, c);
        assert(u.push(t.last()) =~= t);
        assert(seq![u].update(0, u.push(t.last())) =~= seq![t]);
    }
}

/// The decimal notation of a component is a number that trimming leaves alone.
proof fn lemma_component_text(n: nat)
    requires
        n <= 255,
    ensures
        number(trim(decimal(n)), u32::MAX as nat) == Ok::<nat, NumberFault>(n),
        decimal(n).len() > 0,
        forall|i: int|
            0 <= i < decimal(n).len() ==> digit(#[trigger] decimal(n)[i]) && decimal(n)[i] != ',',
{
    decimal_reads_back(n, u32::MAX as nat);
    lemma_decimal_digits(n);
    assert(digit(decimal(n)[0]));
    assert(digit(decimal(n)[decimal(n).len() - 1]));
    lemma_trimmed_already(decimal(n));
}

/// The decimal notation of components is read back, and trimming leaves it alone.
proof fn lemma_decimal_text(v: Seq<nat>)
    requires
        v.len() > 0,
        all_bytes(v),
    ensures
        numbers(pieces(decimal_text(v), ',')) == Ok::<Seq<nat>, NumberFault>(v),
        decimal_text(v).len() > 0,
        digit(decimal_text(v)[0]),
        digit(decimal_text(v)[decimal_text(v).len() - 1]),
    decreases v.len(),
{
    let n = v[v.len() - 1];
    lemma_component_text(n);
    let t = decimal(n);
    assert(digit(t[0]) && digit(t[t.len() - 1]));
    if v.len() == 1 {
        lemma_one_piece(t, ',');
        reveal_with_fuel(numbers, 2);
        assert(seq![t].drop_last() =~= Seq::<Seq<char>>::empty());
        assert(Seq::<nat>::empty().push(n) =~= v);
    } else {
        let front = v.drop_last();
        assert(all_bytes(front)) by {
            assert forall|i: int| 0 <= i < front.len() implies #[trigger] front[i] <= 255 by {
                assert(front[i] == v[i]);
            }
        }
        lemma_decimal_text(front);
        lemma_last_piece(decimal_text(front), ',', t);
        let p = pieces(decimal_text(front), ',').push(t);
        assert(p.drop_last() =~= pieces(decimal_text(front), ','));
        assert(front.push(n) =~= v);
    }
}

/// The hexadecimal and the decimal notation of a colour stand for the same colour: `#RRGGBB` for
/// `R,G,B` and `#RRGGBBAA` for `R,G,B,A`.
pub proof fn notations_agree(v: Seq<nat>)
    requires
        v.len() == 3 || v.len() == 4,
        all_bytes(v),
    ensures
        colour_of(v) matches Some(c) && parsed_colour(seq!['#'] + hex_text(v)) == Ok::<
            Colour,
            Fault,
        >(c) && parsed_colour(decimal_text(v)) == Ok::<Colour, Fault>(c),
{
    lemma_hex_reads_back(v);
    lemma_decimal_text(v);
    let h = seq!['#'] + hex_text(v);
    assert(h[h.len() - 1] == hex_text(v)[hex_text(v).len() - 1]);
    lemma_trimmed_already(h);
    lemma_trimmed_already(decimal_text(v));
    assert(h.skip(1) =~= hex_text(v));
}

/// A single gray value stands for the colour with three such components.
pub proof fn gray_is_three_equal_components(n: nat)
    requires
        n <= 255,
    ensures
        parsed_colour(decimal_text(seq![n])) == parsed_colour(decimal_text(seq![n, n, n])),
        parsed_colour(decimal_text(seq![n])) is Ok,
{
    let (a, b) = (seq![n], seq![n, n, n]);
    assert(all_bytes(a) && all_bytes(b));
    lemma_decimal_text(a);
    lemma_decimal_text(b);
    lemma_trimmed_already(decimal_text(a));
    lemma_trimmed_already(decimal_text(b));
    assert(colour_of(a) is Some);
    assert(colour_of(b) is Some);
}

/// The components of a colour are red, green, blue and alpha, in that order; a gray value stands for
/// the first three, and a colour is transparent unless its alpha is given.
pub proof fn components_come_in_order(r: nat, g: nat, b: nat, a: nat)
    requires
        r <= 255,
        g <= 255,
        b <= 255,
        a <= 255,
    ensures
        parsed_colour(decimal_text(seq![r, g, b])) matches Ok(c) && c.r == r && c.g == g && c.b == b
            && c.a == 0,
        parsed_colour(decimal_text(seq![r, g, b, a])) matches Ok(c) && c.r == r && c.g == g && c.b
            == b && c.a == a,
        parsed_colour(seq!['#'] + hex_text(seq![r, g, b])) matches Ok(c) && c.r == r && c.g == g
            && c.b == b && c.a == 0,
        parsed_colour(seq!['#'] + hex_text(seq![r, g, b, a])) matches Ok(c) && c.r == r && c.g == g
            && c.b == b && c.a == a,
        parsed_colour(decimal_text(seq![r])) matches Ok(c) && c.r == r && c.g == r && c.b == r && c.a
            == 0,
{
    assert(all_bytes(seq![r, g, b]) && all_bytes(seq![r, g, b, a]) && all_bytes(seq![r]));
    notations_agree(seq![r, g, b]);
    notations_agree(seq![r, g, b, a]);
    lemma_decimal_text(seq![r]);
    lemma_trimmed_already(decimal_text(seq![r]));
}

} // verus!
