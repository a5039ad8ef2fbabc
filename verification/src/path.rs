//! File names in paths.

use vstd::prelude::*;
use vstd::slice::slice_subrange;
use crate::text::{chars_of, lower, pieces, rows, same, split, string_of, to_lower};

verus! {

/// The last one of some path components that is neither empty nor `.`; empty when there is none.
pub open spec fn last_name(parts: Seq<Seq<char>>) -> Seq<char>
    decreases parts.len(),
{
    if parts.len() == 0 {
        Seq::empty()
    } else if parts.last().len() == 0 || parts.last() == "."@ {
        last_name(parts.drop_last())
    } else {
        parts.last()
    }
}

/// The name of the file that a path leads to.
pub open spec fn file_name(path: Seq<char>) -> Seq<char> {
    last_name(pieces(path, '/'))
}

/// The part of a name after its last dot, for a dot with something in front of it.
pub open spec fn after_dot(name: Seq<char>, n: int) -> Seq<char>
    decreases n,
{
    if n <= 1 {
        Seq::empty()
    } else if name[n - 1] == '.' {
        name.skip(n)
    } else {
        after_dot(name, n - 1)
    }
}

/// The extension of the file that a path leads to, in lower case; empty when it has none.
pub open spec fn extension(path: Seq<char>) -> Seq<char> {
    let name = file_name(path);
    if name == ".."@ {
        Seq::empty()
    } else {
        lower(after_dot(name, name.len() as int))
    }
}

/// The extension of the file that a path leads to, in lower case.
pub fn lower_extension(path: &str) -> (r: String)
    ensures
        r@ == extension(path@),
{
    let parts = split(&chars_of(path), '/');
    let mut i: usize = parts.len();
    assert(rows(parts@).take(i as int) =~= rows(parts@));
    while i > 0 && (parts[i - 1].len() == 0 || same(&parts[i - 1], "."))
        invariant
            i <= parts@.len(),
            file_name(path@) == last_name(rows(parts@).take(i as int)),
        decreases i,
    {
        assert(rows(parts@).take(i as int).drop_last() =~= rows(parts@).take(i - 1));
        assert(rows(parts@).take(i as int).last() == parts@[i - 1]@);
        i = i - 1;
    }
    if i == 0 {
        let r = String::new();
        assert(r@ =~= extension(path@));
        return r;
    }
    let name = &parts[i - 1];
    assert(rows(parts@).take(i as int).last() == name@);
    if same(name, "..") {
        let r = String::new();
        assert(r@ =~= extension(path@));
        return r;
    }
    let mut n: usize = name.len();
    while n > 1 && name[n - 1] != '.'
        invariant
            n <= name@.len(),
            after_dot(name@, name@.len() as int) == after_dot(name@, n as int),
        decreases n,
    {
        n = n - 1;
    }
    if n <= 1 {
        let r = String::new();
        assert(r@ =~= extension(path@));
        return r;
    }
    let tail = slice_subrange(name.as_slice(), n, name.len());
    assert(tail@ =~= name@.skip(n as int));
    string_of(&to_lower(tail))
}

} // verus!
