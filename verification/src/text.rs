//! Text as sequences of characters: the scanning, comparing and printing that the parsers and
//! the command builders share.

use vstd::prelude::*;
use vstd::slice::slice_subrange;

verus! {

/// `String::push` appends one character to the end of the string.
pub assume_specification[ String::push ](s: &mut String, c: char)
    ensures
        final(s)@ == old(s)@.push(c),
;

/// The characters with the Unicode `White_Space` property.
pub open spec fn white(c: char) -> bool {
    ||| '\u{9}' <= c <= '\u{d}'
    ||| c == ' '
    ||| c == '\u{85}'
    ||| c == '\u{a0}'
    ||| c == '\u{1680}'
    ||| '\u{2000}' <= c <= '\u{200a}'
    ||| c == '\u{2028}'
    ||| c == '\u{2029}'
    ||| c == '\u{202f}'
    ||| c == '\u{205f}'
    ||| c == '\u{3000}'
}

/// True for the characters with the Unicode `White_Space` property.
pub fn is_white(c: char) -> (r: bool)
    ensures
        r == white(c),
{
    ('\u{9}' <= c && c <= '\u{d}') || c == ' ' || c == '\u{85}' || c == '\u{a0}' || c
        == '\u{1680}' || ('\u{2000}' <= c && c <= '\u{200a}') || c == '\u{2028}' || c == '\u{2029}'
        || c == '\u{202f}' || c == '\u{205f}' || c == '\u{3000}'
}

/// The ASCII lower case of a character; every other character is kept.
pub open spec fn lower_char(c: char) -> char {
    if 'A' <= c <= 'Z' {
        ((c as u32 + 32) as u8) as char
    } else {
        c
    }
}

/// The ASCII lower case of a text, character by character.
pub open spec fn lower(s: Seq<char>) -> Seq<char> {
    s.map_values(|c: char| lower_char(c))
}

/// The text without the white space in front.
pub open spec fn trim_start(s: Seq<char>) -> Seq<char>
    decreases s.len(),
{
    if s.len() > 0 && white(s[0]) {
        trim_start(s.drop_first())
    } else {
        s
    }
}

/// The text without the white space at the end.
pub open spec fn trim_end(s: Seq<char>) -> Seq<char>
    decreases s.len(),
{
    if s.len() > 0 && white(s.last()) {
        trim_end(s.drop_last())
    } else {
        s
    }
}

/// The text without the white space on both sides.
pub open spec fn trim(s: Seq<char>) -> Seq<char> {
    trim_end(trim_start(s))
}

/// A text without white space at its ends is trimmed already.
pub proof fn lemma_trimmed_already(s: Seq<char>)
    requires
        s.len() > 0,
        !white(s[0]),
        !white(s[s.len() - 1]),
    ensures
        trim(s) == s,
{
}

/// A trimmed text begins with no white space, and trimming keeps a text only if that begins with
/// none.
pub proof fn lemma_trim_ends(s: Seq<char>)
    ensures
        trim(s).len() <= s.len(),
        trim(s).len() == s.len() ==> trim(s) == s && (s.len() > 0 ==> !white(s[0])),
{
    lemma_trim_start_shorter(s);
    lemma_trim_end_shorter(trim_start(s));
}

proof fn lemma_trim_start_shorter(s: Seq<char>)
    ensures
        trim_start(s).len() <= s.len(),
        s.len() > 0 && white(s[0]) ==> trim_start(s).len() < s.len(),
    decreases s.len(),
{
    if s.len() > 0 && white(s[0]) {
        lemma_trim_start_shorter(s.drop_first());
    }
}

proof fn lemma_trim_end_shorter(s: Seq<char>)
    ensures
        trim_end(s).len() <= s.len(),
        trim_end(s).len() == s.len() ==> trim_end(s) == s,
    decreases s.len(),
{
    if s.len() > 0 && white(s.last()) {
        lemma_trim_end_shorter(s.drop_last());
    }
}

/// The characters of a string.
pub fn chars_of(s: &str) -> (r: Vec<char>)
    ensures
        r@ == s@,
{
    let mut r: Vec<char> = Vec::new();
    for c in it: s.chars()
        invariant
            r@ == it.seq().take(it.index() as int),
            it.seq() == s@,
    {
        proof {
            assert(it.seq().take(it.index() as int + 1) =~= it.seq().take(it.index() as int).push(c));
        }
        r.push(c);
    }
    assert(s@.take(s@.len() as int) =~= s@);
    r
}

/// The string made of some characters.
pub fn string_of(s: &[char]) -> (r: String)
    ensures
        r@ == s@,
{
    let mut r = String::new();
    for i in 0..s.len()
        invariant
            r@ == s@.take(i as int),
    {
        assert(s@.take(i + 1) =~= s@.take(i as int).push(s@[i as int]));
        r.push(s[i]);
    }
    assert(s@.take(s@.len() as int) =~= s@);
    r
}

/// Compares characters with a string.
pub fn same(s: &[char], t: &str) -> (r: bool)
    ensures
        r == (s@ == t@),
{
    let u = chars_of(t);
    if s.len() != u.len() {
        return false;
    }
    for i in 0..s.len()
        invariant
            s@.len() == u@.len(),
            u@ == t@,
            forall|j: int| 0 <= j < i ==> s@[j] == u@[j],
    {
        if s[i] != u[i] {
            return false;
        }
    }
    assert(s@ =~= u@);
    true
}

/// The ASCII lower case of some characters.
pub fn to_lower(s: &[char]) -> (r: Vec<char>)
    ensures
        r@ == lower(s@),
{
    let mut r: Vec<char> = Vec::new();
    for i in 0..s.len()
        invariant
            r@.len() == i,
            forall|j: int| 0 <= j < i ==> r@[j] == lower_char(s@[j]),
    {
        let c = s[i];
        let d = if 'A' <= c && c <= 'Z' {
            (c as u8 + 32) as char
        } else {
            c
        };
        r.push(d);
    }
    assert(r@ =~= lower(s@));
    r
}

/// The characters without the white space on both sides.
pub fn trimmed(s: &[char]) -> (r: &[char])
    ensures
        r@ == trim(s@),
{
    let mut a: usize = 0;
    assert(s@.subrange(0, s@.len() as int) =~= s@);
    while a < s.len() && is_white(s[a])
        invariant
            a <= s@.len(),
            trim_start(s@) == trim_start(s@.subrange(a as int, s@.len() as int)),
        decreases s@.len() - a,
    {
        assert(s@.subrange(a as int, s@.len() as int).drop_first() =~= s@.subrange(
            a + 1,
            s@.len() as int,
        ));
        a = a + 1;
    }
    let mut b: usize = s.len();
    while b > a && is_white(s[b - 1])
        invariant
            a <= b <= s@.len(),
            trim(s@) == trim_end(s@.subrange(a as int, b as int)),
        decreases b,
    {
        assert(s@.subrange(a as int, b as int).drop_last() =~= s@.subrange(a as int, b - 1));
        b = b - 1;
    }
    slice_subrange(s, a, b)
}

/// The index of the first character that is `a` or `b`, or the length when there is none.
pub open spec fn position(s: Seq<char>, a: char, b: char) -> nat
    decreases s.len(),
{
    if s.len() == 0 || s[0] == a || s[0] == b {
        0
    } else {
        1 + position(s.drop_first(), a, b)
    }
}

/// What the position of a separator means: the separator is there, and nowhere before.
pub proof fn lemma_position(s: Seq<char>, a: char, b: char)
    ensures
        position(s, a, b) <= s.len(),
        position(s, a, b) < s.len() ==> {
            let c = s[position(s, a, b) as int];
            c == a || c == b
        },
        forall|i: int| 0 <= i < position(s, a, b) ==> s[i] != a && s[i] != b,
    decreases s.len(),
{
    if s.len() == 0 || s[0] == a || s[0] == b {
    } else {
        let t = s.drop_first();
        lemma_position(t, a, b);
        assert forall|i: int| 0 <= i < position(s, a, b) implies s[i] != a && s[i] != b by {
            if i > 0 {
                assert(s[i] == t[i - 1]);
            }
        }
    }
}

/// Finds the first character that is `a` or `b`.
pub fn find(s: &[char], a: char, b: char) -> (r: usize)
    ensures
        r == position(s@, a, b),
        r <= s@.len(),
{
    let mut i: usize = 0;
    assert(s@.skip(0) =~= s@);
    while i < s.len() && s[i] != a && s[i] != b
        invariant
            i <= s@.len(),
            position(s@, a, b) == i + position(s@.skip(i as int), a, b),
        decreases s@.len() - i,
    {
        assert(s@.skip(i as int).drop_first() =~= s@.skip(i + 1));
        i = i + 1;
    }
    i
}

/// The pieces of a text between the separators.
pub open spec fn pieces(s: Seq<char>, c: char) -> Seq<Seq<char>>
    decreases s.len(),
{
    if s.len() == 0 {
        seq![Seq::<char>::empty()]
    } else {
        let front = pieces(s.drop_last(), c);
        if s.last() == c {
            front.push(Seq::<char>::empty())
        } else {
            front.update(front.len() - 1, front.last().push(s.last()))
        }
    }
}

/// The texts of some strings.
pub open spec fn texts(v: Seq<String>) -> Seq<Seq<char>> {
    v.map_values(|s: String| s@)
}

/// The texts of some character vectors.
pub open spec fn rows(v: Seq<Vec<char>>) -> Seq<Seq<char>> {
    v.map_values(|s: Vec<char>| s@)
}

/// Splits a text at every separator.
pub fn split(s: &[char], c: char) -> (r: Vec<Vec<char>>)
    ensures
        rows(r@) == pieces(s@, c),
        r@.len() >= 1,
{
    let mut r: Vec<Vec<char>> = Vec::new();
    let mut cur: Vec<char> = Vec::new();
    assert(rows(r@).push(cur@) =~= pieces(s@.take(0), c));
    for i in 0..s.len()
        invariant
            rows(r@).push(cur@) == pieces(s@.take(i as int), c),
    {
        let ghost front = rows(r@).push(cur@);
        assert(s@.take(i + 1).drop_last() =~= s@.take(i as int));
        let x = s[i];
        if x == c {
            let ghost done = cur@;
            r.push(cur);
            cur = Vec::new();
            assert(rows(r@) =~= front);
        } else {
            let ghost done = cur@;
            cur.push(x);
            assert(rows(r@).push(cur@) =~= front.update(front.len() - 1, done.push(x)));
        }
    }
    assert(s@.take(s@.len() as int) =~= s@);
    let ghost front = rows(r@).push(cur@);
    r.push(cur);
    assert(rows(r@) =~= front);
    r
}

/// The texts with a separator between neighbours.
pub open spec fn joined(v: Seq<Seq<char>>, sep: Seq<char>) -> Seq<char>
    decreases v.len(),
{
    if v.len() == 0 {
        Seq::<char>::empty()
    } else if v.len() == 1 {
        v[0]
    } else {
        joined(v.drop_last(), sep) + sep + v.last()
    }
}

/// Joins strings with a separator between neighbours.
pub fn join(v: &[String], sep: &str) -> (r: String)
    ensures
        r@ == joined(texts(v@), sep@),
{
    let mut r = String::new();
    for i in 0..v.len()
        invariant
            r@ == joined(texts(v@).take(i as int), sep@),
    {
        proof {
            assert(texts(v@).take(i + 1).drop_last() =~= texts(v@).take(i as int));
        }
        if i > 0 {
            r.append(sep);
        }
        r.append(v[i].as_str());
        proof {
            if i == 0 {
                assert(r@ =~= texts(v@)[0]);
            }
        }
    }
    assert(texts(v@).take(v@.len() as int) =~= texts(v@));
    r
}

/// True when the text begins with the prefix.
pub open spec fn starts(s: Seq<char>, p: Seq<char>) -> bool {
    p.len() <= s.len() && s.take(p.len() as int) == p
}

/// True when the text ends with the suffix.
pub open spec fn ends(s: Seq<char>, p: Seq<char>) -> bool {
    p.len() <= s.len() && s.skip(s.len() - p.len()) == p
}

/// Tests for a prefix.
pub fn starts_with(s: &[char], p: &str) -> (r: bool)
    ensures
        r == starts(s@, p@),
{
    let n = chars_of(p).len();
    if n > s.len() {
        return false;
    }
    let head = slice_subrange(s, 0, n);
    assert(head@ =~= s@.take(p@.len() as int));
    same(head, p)
}

/// Tests for a suffix.
pub fn ends_with(s: &[char], p: &str) -> (r: bool)
    ensures
        r == ends(s@, p@),
{
    let n = chars_of(p).len();
    if n > s.len() {
        return false;
    }
    let tail = slice_subrange(s, s.len() - n, s.len());
    assert(tail@ =~= s@.skip(s@.len() - p@.len()));
    same(tail, p)
}

/// The part after a prefix, for a text that begins with it.
pub fn strip_prefix<'a>(s: &'a [char], p: &str) -> (r: Option<&'a [char]>)
    ensures
        match r {
            Some(t) => starts(s@, p@) && t@ == s@.skip(p@.len() as int),
            None => !starts(s@, p@),
        },
{
    if starts_with(s, p) {
        let n = chars_of(p).len();
        let t = slice_subrange(s, n, s.len());
        assert(t@ =~= s@.skip(p@.len() as int));
        Some(t)
    } else {
        None
    }
}

/// True when the needle occurs somewhere in the text.
pub open spec fn occurs(s: Seq<char>, p: Seq<char>) -> bool {
    exists|i: int| 0 <= i <= s.len() - p.len() && #[trigger] s.subrange(i, i + p.len()) == p
}

/// Tests for a needle anywhere in the text.
pub fn contains_text(s: &[char], p: &str) -> (r: bool)
    ensures
        r == occurs(s@, p@),
{
    let n = chars_of(p).len();
    if n > s.len() {
        return false;
    }
    let mut i: usize = 0;
    while n <= s.len() - i
        invariant
            n == p@.len(),
            i <= s@.len(),
            forall|j: int| 0 <= j < i ==> #[trigger] s@.subrange(j, j + n) != p@,
        decreases s@.len() - i,
    {
        if same(slice_subrange(s, i, i + n), p) {
            return true;
        }
        if i == s.len() {
            return false;
        }
        i = i + 1;
    }
    false
}

/// Compares a string with a literal, ignoring the case of ASCII letters.
pub fn same_ignoring_case(s: &str, t: &str) -> (r: bool)
    ensures
        r == (lower(s@) == lower(t@)),
{
    let a = to_lower(&chars_of(s));
    let b = string_of(&to_lower(&chars_of(t)));
    same(&a, b.as_str())
}

/// Appends a copy of some strings.
pub fn extend(out: &mut Vec<String>, v: &[String])
    ensures
        texts(final(out)@) == texts(old(out)@) + texts(v@),
{
    let ghost before = out@;
    for i in 0..v.len()
        invariant
            out@.len() == before.len() + i,
            forall|j: int| 0 <= j < before.len() ==> out@[j]@ == before[j]@,
            forall|j: int| 0 <= j < i ==> out@[before.len() + j]@ == v@[j]@,
    {
        out.push(v[i].clone());
    }
    assert(texts(out@) =~= texts(before) + texts(v@));
}

/// Appends a copy of one text.
pub fn put(out: &mut Vec<String>, s: &str)
    ensures
        texts(final(out)@) == texts(old(out)@).push(s@),
{
    let ghost before = out@;
    out.push(s.to_owned());
    assert(texts(out@) =~= texts(before).push(s@));
}

} // verus!
