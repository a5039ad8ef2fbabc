//! Settings from environment variables, shell-like argument lists, and text for people.

use vstd::prelude::*;
use vstd::slice::slice_subrange;
use vstd::arithmetic::power2::lemma_pow2_pos;
use crate::reals::{divide, real_quotient, to_whole, whole_real};
use crate::binary64::{clamped, fraction, half_away, one, quotient, Float};
use crate::decimals::{parse_real, real_number, Real, RealView};
use crate::error::{Error, Fault};
use crate::fixed::{fixed, padded, put_fixed, put_padded};
use crate::number::{decimal, number, parse_number, put_decimal};
use crate::shortest::{put_shortest, shown};
use crate::text::{
    chars_of, find, is_white, join, joined, lower, position, same, same_ignoring_case, string_of,
    texts, to_lower, trim, trimmed, white,
};

verus! {

/// The environment variables of a process.
#[derive(Clone, Debug)]
pub struct Env {
    pub vars: Vec<(String, String)>,
}

/// The value of the first variable of that name.
pub open spec fn lookup(vars: Seq<(String, String)>, name: Seq<char>) -> Option<Seq<char>>
    decreases vars.len(),
{
    if vars.len() == 0 {
        None
    } else if vars[0].0@ == name {
        Some(vars[0].1@)
    } else {
        lookup(vars.drop_first(), name)
    }
}

/// A fault, the setting it is in, and the text it is about.
pub struct Issue {
    pub fault: Fault,
    pub name: Seq<char>,
    pub text: Seq<char>,
}

impl Error {
    /// The error reports this issue.
    pub open spec fn reports(self, i: Issue) -> bool {
        self.says(i.fault, i.name, i.text)
    }
}

impl Env {
    /// The value of a variable that is set to something.
    pub open spec fn setting(self, name: Seq<char>) -> Option<Seq<char>> {
        match lookup(self.vars@, name) {
            Some(v) => if v.len() > 0 {
                Some(v)
            } else {
                None
            },
            None => None,
        }
    }

    /// The value of a variable, or a default.
    pub open spec fn setting_or(self, name: Seq<char>, default: Seq<char>) -> Seq<char> {
        match self.setting(name) {
            Some(v) => v,
            None => default,
        }
    }

    /// A switch.
    pub open spec fn switch(self, name: Seq<char>, default: bool) -> Result<bool, Issue> {
        match self.setting(name) {
            None => Ok(default),
            Some(v) => {
                let t = lower(v);
                if t == "1"@ || t == "true"@ || t == "yes"@ || t == "on"@ || t == "y"@ {
                    Ok(true)
                } else if t == "0"@ || t == "false"@ || t == "no"@ || t == "off"@ || t == "n"@ {
                    Ok(false)
                } else {
                    Err(Issue { fault: Fault::BadBool, name, text: v })
                }
            },
        }
    }

    /// A count.
    pub open spec fn count(self, name: Seq<char>) -> Result<Option<usize>, Issue> {
        match self.setting(name) {
            None => Ok(None),
            Some(v) => match number(v, usize::MAX as nat) {
                Ok(n) => Ok(Some(n as usize)),
                Err(e) => Err(Issue { fault: Fault::BadNumber(e), name, text: v }),
            },
        }
    }

    /// A list of arguments.
    pub open spec fn arguments(self, name: Seq<char>, default: Seq<Seq<char>>) -> Result<
        Seq<Seq<char>>,
        Issue,
    > {
        match self.setting(name) {
            None => Ok(default),
            Some(v) => if lower(v) == lower("none"@) {
                Ok(Seq::empty())
            } else {
                match words(v) {
                    Ok(w) => Ok(w),
                    Err(fault) => Err(Issue { fault, name, text: v }),
                }
            },
        }
    }
}

/// The value of an environment variable, unless it is unset or empty.
pub fn env_str(env: &Env, name: &str) -> (r: Option<String>)
    ensures
        match r {
            Some(v) => env.setting(name@) == Some(v@),
            None => env.setting(name@) is None,
        },
{
    let mut i: usize = 0;
    assert(env.vars@.skip(0) =~= env.vars@);
    let wanted = chars_of(name);
    while i < env.vars.len()
        invariant
            i <= env.vars@.len(),
            wanted@ == name@,
            lookup(env.vars@, name@) == lookup(env.vars@.skip(i as int), name@),
        decreases env.vars@.len() - i,
    {
        assert(env.vars@.skip(i as int).drop_first() =~= env.vars@.skip(i + 1));
        if same(&wanted, env.vars[i].0.as_str()) {
            let v = env.vars[i].1.clone();
            if chars_of(v.as_str()).len() > 0 {
                return Some(v);
            }
            return None;
        }
        i = i + 1;
    }
    None
}

/// The value of an environment variable, or a default.
pub fn env_or(env: &Env, name: &str, default: &str) -> (r: String)
    ensures
        r@ == env.setting_or(name@, default@),
{
    match env_str(env, name) {
        Some(v) => v,
        None => default.to_owned(),
    }
}

/// A boolean environment variable.
pub fn env_bool(env: &Env, name: &str, default: bool) -> (r: Result<bool, Error>)
    ensures
        match r {
            Ok(b) => env.switch(name@, default) == Ok::<bool, Issue>(b),
            Err(e) => env.switch(name@, default) matches Err(i) && e.reports(i),
        },
{
    match env_str(env, name) {
        None => Ok(default),
        Some(v) => {
            let t = to_lower(&chars_of(v.as_str()));
            if same(&t, "1") || same(&t, "true") || same(&t, "yes") || same(&t, "on") || same(
                &t,
                "y",
            ) {
                Ok(true)
            } else if same(&t, "0") || same(&t, "false") || same(&t, "no") || same(&t, "off")
                || same(&t, "n") {
                Ok(false)
            } else {
                Err(Error::new(Fault::BadBool, name, v.as_str()))
            }
        },
    }
}

/// A numeric environment variable.
pub fn env_parse(env: &Env, name: &str) -> (r: Result<Option<usize>, Error>)
    ensures
        match r {
            Ok(n) => env.count(name@) == Ok::<Option<usize>, Issue>(n),
            Err(e) => env.count(name@) matches Err(i) && e.reports(i),
        },
{
    match env_str(env, name) {
        None => Ok(None),
        Some(v) => match parse_number(&chars_of(v.as_str()), usize::MAX as u64) {
            Ok(n) => Ok(Some(n as usize)),
            Err(e) => Err(Error::new(Fault::BadNumber(e), name, v.as_str())),
        },
    }
}

/// The texts of some string slices.
pub open spec fn str_texts(v: Seq<&str>) -> Seq<Seq<char>> {
    v.map_values(|s: &str| s@)
}

/// Copies of some string slices.
pub fn owned_all(v: &[&str]) -> (r: Vec<String>)
    ensures
        texts(r@) == str_texts(v@),
{
    let mut r: Vec<String> = Vec::new();
    for i in 0..v.len()
        invariant
            r@.len() == i,
            forall|j: int| 0 <= j < i ==> (#[trigger] r@[j])@ == v@[j]@,
    {
        r.push(v[i].to_owned());
    }
    assert(texts(r@) =~= str_texts(v@));
    r
}

/// An environment variable holding a shell-like argument list (unset or empty: the default, "none":
/// no arguments).
pub fn env_args(env: &Env, name: &str, default: &[&str]) -> (r: Result<Vec<String>, Error>)
    ensures
        match r {
            Ok(v) => env.arguments(name@, str_texts(default@)) == Ok::<Seq<Seq<char>>, Issue>(
                texts(v@),
            ),
            Err(e) => env.arguments(name@, str_texts(default@)) matches Err(i) && e.reports(i),
        },
{
    match env_str(env, name) {
        None => Ok(owned_all(default)),
        Some(v) => if same_ignoring_case(v.as_str(), "none") {
            let r: Vec<String> = Vec::new();
            assert(texts(r@) =~= Seq::empty());
            Ok(r)
        } else {
            match split_args(v.as_str()) {
                Ok(w) => Ok(w),
                Err(e) => Err(Error::new(e.fault, name, v.as_str())),
            }
        },
    }
}

/// Where a scan of a shell-like text stands.
#[derive(Clone, Copy, Debug, PartialEq, Eq, Structural)]
pub enum Quoting {
    /// Outside quotes.
    Plain,
    /// After a backslash outside quotes.
    Escape,
    /// Inside single quotes.
    Single,
    /// Inside double quotes.
    Double,
    /// After a backslash inside double quotes.
    DoubleEscape,
}

/// A scan of a shell-like text: the words so far, the word at hand and whether there is one.
pub struct Scan {
    pub words: Seq<Seq<char>>,
    pub cur: Seq<char>,
    pub have: bool,
    pub quoting: Quoting,
}

impl Scan {
    /// The scan before the first character.
    pub open spec fn start() -> Scan {
        Scan { words: Seq::empty(), cur: Seq::empty(), have: false, quoting: Quoting::Plain }
    }

    /// The scan with one more character in the word at hand.
    pub open spec fn take(self, c: char, quoting: Quoting) -> Scan {
        Scan { cur: self.cur.push(c), have: true, quoting, ..self }
    }

    /// The scan after one more character, by the rules of a POSIX shell: a backslash takes the
    /// meaning from the character behind it, and continues the line before a newline.
    pub open spec fn step(self, c: char) -> Scan {
        match self.quoting {
            Quoting::Plain => if c == '\'' {
                Scan { have: true, quoting: Quoting::Single, ..self }
            } else if c == '"' {
                Scan { have: true, quoting: Quoting::Double, ..self }
            } else if c == '\\' {
                Scan { quoting: Quoting::Escape, ..self }
            } else if white(c) {
                if self.have {
                    Scan {
                        words: self.words.push(self.cur),
                        cur: Seq::empty(),
                        have: false,
                        quoting: Quoting::Plain,
                    }
                } else {
                    self
                }
            } else {
                self.take(c, Quoting::Plain)
            },
            Quoting::Escape => if c == '\n' {
                Scan { quoting: Quoting::Plain, ..self }
            } else {
                self.take(c, Quoting::Plain)
            },
            Quoting::Single => if c == '\'' {
                Scan { quoting: Quoting::Plain, ..self }
            } else {
                self.take(c, Quoting::Single)
            },
            Quoting::Double => if c == '"' {
                Scan { quoting: Quoting::Plain, ..self }
            } else if c == '\\' {
                Scan { quoting: Quoting::DoubleEscape, ..self }
            } else {
                self.take(c, Quoting::Double)
            },
            Quoting::DoubleEscape => if c == '\n' {
                Scan { quoting: Quoting::Double, ..self }
            } else if escapable(c) {
                self.take(c, Quoting::Double)
            } else {
                self.take('\\', Quoting::Double).take(c, Quoting::Double)
            },
        }
    }

    /// The scan after a whole text.
    pub open spec fn run(self, s: Seq<char>) -> Scan
        decreases s.len(),
    {
        if s.len() == 0 {
            self
        } else {
            self.run(s.drop_last()).step(s.last())
        }
    }

    /// The words at the end of the text, or the fault that the text ends in.
    pub open spec fn finish(self) -> Result<Seq<Seq<char>>, Fault> {
        match self.quoting {
            Quoting::Plain => if self.have {
                Ok(self.words.push(self.cur))
            } else {
                Ok(self.words)
            },
            Quoting::Single => Err(Fault::UnterminatedSingleQuote),
            Quoting::Double => Err(Fault::UnterminatedDoubleQuote),
            Quoting::Escape | Quoting::DoubleEscape => Err(Fault::TrailingBackslash),
        }
    }
}

/// The characters that stand for themselves behind a backslash inside double quotes.
pub open spec fn escapable(c: char) -> bool {
    c == '"' || c == '\\' || c == '$' || c == '`'
}

/// The arguments in a shell-like text.
pub open spec fn words(s: Seq<char>) -> Result<Seq<Seq<char>>, Fault> {
    Scan::start().run(s).finish()
}

/// Split a string into arguments the way a POSIX shell would (quotes, backslashes).
pub fn split_args(s: &str) -> (r: Result<Vec<String>, Error>)
    ensures
        match r {
            Ok(v) => words(s@) == Ok::<Seq<Seq<char>>, Fault>(texts(v@)),
            Err(e) => words(s@) == Err::<Seq<Seq<char>>, Fault>(e.fault) && e.says(
                e.fault,
                ""@,
                s@,
            ),
        },
{
    let text = chars_of(s);
    let mut out: Vec<String> = Vec::new();
    let mut cur: Vec<char> = Vec::new();
    let mut have = false;
    let mut quoting = Quoting::Plain;
    assert(texts(out@) =~= Seq::empty());
    for i in 0..text.len()
        invariant
            (Scan { words: texts(out@), cur: cur@, have, quoting }) == Scan::start().run(
                text@.take(i as int),
            ),
    {
        let c = text[i];
        let ghost before = Scan { words: texts(out@), cur: cur@, have, quoting };
        assert(text@.take(i + 1).drop_last() =~= text@.take(i as int));
        match quoting {
            Quoting::Plain => {
                if c == '\'' {
                    have = true;
                    quoting = Quoting::Single;
                } else if c == '"' {
                    have = true;
                    quoting = Quoting::Double;
                } else if c == '\\' {
                    quoting = Quoting::Escape;
                } else if is_white(c) {
                    if have {
                        out.push(string_of(&cur));
                        cur = Vec::new();
                        have = false;
                        assert(texts(out@) =~= before.words.push(before.cur));
                    }
                } else {
                    have = true;
                    cur.push(c);
                }
            },
            Quoting::Escape => {
                if c != '\n' {
                    have = true;
                    cur.push(c);
                }
                quoting = Quoting::Plain;
            },
            Quoting::Single => {
                if c == '\'' {
                    quoting = Quoting::Plain;
                } else {
                    have = true;
                    cur.push(c);
                }
            },
            Quoting::Double => {
                if c == '"' {
                    quoting = Quoting::Plain;
                } else if c == '\\' {
                    quoting = Quoting::DoubleEscape;
                } else {
                    have = true;
                    cur.push(c);
                }
            },
            Quoting::DoubleEscape => {
                if c != '\n' {
                    have = true;
                    if !(c == '"' || c == '\\' || c == '$' || c == '`') {
                        cur.push('\\');
                    }
                    cur.push(c);
                }
                quoting = Quoting::Double;
            },
        }
    }
    assert(text@.take(text@.len() as int) =~= text@);
    match quoting {
        Quoting::Plain => {
            if have {
                let ghost front = texts(out@);
                out.push(string_of(&cur));
                assert(texts(out@) =~= front.push(cur@));
            }
            Ok(out)
        },
        Quoting::Single => Err(Error::new(Fault::UnterminatedSingleQuote, "", s)),
        Quoting::Double => Err(Error::new(Fault::UnterminatedDoubleQuote, "", s)),
        Quoting::Escape => Err(Error::new(Fault::TrailingBackslash, "", s)),
        Quoting::DoubleEscape => Err(Error::new(Fault::TrailingBackslash, "", s)),
    }
}

/// The characters that a shell word may hold without quotes.
pub open spec fn bare(c: char) -> bool {
    ||| 'a' <= c <= 'z'
    ||| 'A' <= c <= 'Z'
    ||| '0' <= c <= '9'
    ||| c == '-'
    ||| c == '_'
    ||| c == '.'
    ||| c == '/'
    ||| c == ':'
    ||| c == '='
    ||| c == '+'
    ||| c == ','
    ||| c == '@'
    ||| c == '%'
}

/// A text as it stands between single quotes: every single quote leaves the quotes, stands behind a
/// backslash and enters them again.
pub open spec fn escaped(s: Seq<char>) -> Seq<char>
    decreases s.len(),
{
    if s.len() == 0 {
        Seq::empty()
    } else if s.last() == '\'' {
        escaped(s.drop_last()) + seq!['\'', '\\', '\'', '\'']
    } else {
        escaped(s.drop_last()).push(s.last())
    }
}

/// One argument as a shell word.
pub open spec fn quoted(s: Seq<char>) -> Seq<char> {
    if s.len() > 0 && (forall|i: int| 0 <= i < s.len() ==> bare(#[trigger] s[i])) {
        s
    } else {
        seq!['\''] + escaped(s) + seq!['\'']
    }
}

/// The arguments as one line of a shell.
pub open spec fn shell_line(args: Seq<Seq<char>>) -> Seq<char> {
    joined(args.map_values(|a: Seq<char>| quoted(a)), " "@)
}

fn is_bare(c: char) -> (r: bool)
    ensures
        r == bare(c),
{
    ('a' <= c && c <= 'z') || ('A' <= c && c <= 'Z') || ('0' <= c && c <= '9') || c == '-' || c
        == '_' || c == '.' || c == '/' || c == ':' || c == '=' || c == '+' || c == ',' || c == '@'
        || c == '%'
}

/// One argument as a shell word.
fn quote(a: &str) -> (r: String)
    ensures
        r@ == quoted(a@),
{
    let s = chars_of(a);
    let mut plain = s.len() > 0;
    for i in 0..s.len()
        invariant
            s@ == a@,
            plain == (s@.len() > 0 && forall|j: int| 0 <= j < i ==> bare(#[trigger] s@[j])),
    {
        if !is_bare(s[i]) {
            plain = false;
        }
    }
    if plain {
        return a.to_owned();
    }
    let mut r = String::new();
    r.push('\'');
    assert(r@ =~= seq!['\''] + escaped(s@.take(0)));
    for i in 0..s.len()
        invariant
            r@ == seq!['\''] + escaped(s@.take(i as int)),
    {
        let ghost front = r@;
        assert(s@.take(i + 1).drop_last() =~= s@.take(i as int));
        if s[i] == '\'' {
            r.push('\'');
            r.push('\\');
            r.push('\'');
            r.push('\'');
        } else {
            r.push(s[i]);
        }
        assert(r@ =~= seq!['\''] + escaped(s@.take(i + 1)));
    }
    r.push('\'');
    assert(s@.take(s@.len() as int) =~= s@);
    assert(r@ =~= quoted(a@));
    r
}

/// The arguments as one line that a shell splits into the same arguments.
pub fn shell_join(args: &[String]) -> (r: String)
    ensures
        r@ == shell_line(texts(args@)),
{
    let mut v: Vec<String> = Vec::new();
    for i in 0..args.len()
        invariant
            v@.len() == i,
            forall|j: int| 0 <= j < i ==> #[trigger] v@[j]@ == quoted(args@[j]@),
    {
        v.push(quote(args[i].as_str()));
    }
    assert(texts(v@) =~= texts(args@).map_values(|a: Seq<char>| quoted(a)));
    join(&v, " ")
}

/// A scan of two texts in a row.
proof fn lemma_run_concat(st: Scan, a: Seq<char>, b: Seq<char>)
    ensures
        st.run(a + b) == st.run(a).run(b),
    decreases b.len(),
{
    if b.len() == 0 {
        assert(a + b =~= a);
    } else {
        assert((a + b).drop_last() =~= a + b.drop_last());
        lemma_run_concat(st, a, b.drop_last());
    }
}

proof fn lemma_run_one(st: Scan, c: char)
    ensures
        st.run(seq![c]) == st.step(c),
{
    assert(seq![c].drop_last() =~= Seq::<char>::empty());
    reveal_with_fuel(Scan::run, 2);
}

/// A bare text outside quotes goes into the word at hand as it is.
proof fn lemma_run_bare(st: Scan, s: Seq<char>)
    requires
        st.quoting == Quoting::Plain,
        forall|i: int| 0 <= i < s.len() ==> bare(#[trigger] s[i]),
    ensures
        st.run(s) == (Scan { cur: st.cur + s, have: st.have || s.len() > 0, ..st }),
    decreases s.len(),
{
    if s.len() == 0 {
        assert(st.cur + s =~= st.cur);
    } else {
        lemma_run_bare(st, s.drop_last());
        assert(bare(s[s.len() - 1]));
        assert((st.cur + s.drop_last()).push(s.last()) =~= st.cur + s);
    }
}

/// Inside single quotes an escaped text goes into the word at hand as the text it was.
proof fn lemma_run_escaped(st: Scan, s: Seq<char>)
    requires
        st.quoting == Quoting::Single,
        st.have,
    ensures
        st.run(escaped(s)) == (Scan { cur: st.cur + s, ..st }),
    decreases s.len(),
{
    if s.len() == 0 {
        assert(st.cur + s =~= st.cur);
    } else {
        let front = s.drop_last();
        lemma_run_escaped(st, front);
        let mid = st.run(escaped(front));
        if s.last() == '\'' {
            let four = seq!['\'', '\\', '\'', '\''];
            lemma_run_concat(st, escaped(front), four);
            assert(four.drop_last() =~= seq!['\'', '\\', '\'']);
            assert(seq!['\'', '\\', '\''].drop_last() =~= seq!['\'', '\\']);
            assert(seq!['\'', '\\'].drop_last() =~= seq!['\'']);
            lemma_run_one(mid, '\'');
            assert(mid.run(seq!['\'', '\\']) == mid.run(seq!['\'']).step('\\'));
            assert(mid.run(seq!['\'', '\\', '\'']) == mid.run(seq!['\'', '\\']).step('\''));
            assert(mid.run(four) == mid.run(seq!['\'', '\\', '\'']).step('\''));
        } else {
            assert(escaped(front).push(s.last()).drop_last() =~= escaped(front));
        }
        assert((st.cur + front).push(s.last()) =~= st.cur + s);
    }
}

/// A quoted argument, scanned where a word may begin, is that argument as the word at hand.
proof fn lemma_run_quoted(st: Scan, s: Seq<char>)
    requires
        st.quoting == Quoting::Plain,
        st.cur.len() == 0,
        !st.have,
    ensures
        st.run(quoted(s)) == (Scan { cur: s, have: true, ..st }),
{
    if s.len() > 0 && (forall|i: int| 0 <= i < s.len() ==> bare(#[trigger] s[i])) {
        lemma_run_bare(st, s);
        assert(st.cur + s =~= s);
    } else {
        let q = seq!['\''];
        lemma_run_concat(st, q + escaped(s), q);
        lemma_run_concat(st, q, escaped(s));
        lemma_run_one(st, '\'');
        let open = st.run(q);
        lemma_run_escaped(open, s);
        lemma_run_one(open.run(escaped(s)), '\'');
        assert(st.cur + s =~= s);
    }
}

proof fn lemma_run_line(args: Seq<Seq<char>>)
    requires
        args.len() > 0,
    ensures
        Scan::start().run(shell_line(args)) == (Scan {
            words: args.drop_last(),
            cur: args.last(),
            have: true,
            quoting: Quoting::Plain,
        }),
    decreases args.len(),
{
    let st = Scan::start();
    let q = args.map_values(|a: Seq<char>| quoted(a));
    if args.len() == 1 {
        lemma_run_quoted(st, args[0]);
        assert(args.drop_last() =~= Seq::<Seq<char>>::empty());
    } else {
        let front = args.drop_last();
        lemma_run_line(front);
        assert(q.drop_last() =~= front.map_values(|a: Seq<char>| quoted(a)));
        reveal_strlit(" ");
        assert(" "@ =~= seq![' ']);
        let mid = st.run(shell_line(front));
        lemma_run_concat(st, shell_line(front) + " "@, q.last());
        lemma_run_concat(st, shell_line(front), " "@);
        lemma_run_one(mid, ' ');
        assert(front.drop_last().push(front.last()) =~= front);
        lemma_run_quoted(mid.step(' '), args.last());
    }
}

/// Splitting what `shell_join` wrote gives back the arguments, whatever they hold.
pub proof fn split_undoes_join(args: Seq<Seq<char>>)
    ensures
        words(shell_line(args)) == Ok::<Seq<Seq<char>>, Fault>(args),
{
    if args.len() == 0 {
        assert(args =~= Seq::<Seq<char>>::empty());
        assert(args.map_values(|a: Seq<char>| quoted(a)) =~= Seq::<Seq<char>>::empty());
    } else {
        lemma_run_line(args);
        assert(args.drop_last().push(args.last()) =~= args);
    }
}

/// The two numbers of a frame rate that is written as a fraction of integers.
pub open spec fn ratio_of(rate: Seq<char>) -> Option<(nat, nat)> {
    let at = position(rate, '/', '/') as int;
    if at < rate.len() {
        match (
            number(trim(rate.take(at)), u64::MAX as nat),
            number(trim(rate.skip(at + 1)), u64::MAX as nat),
        ) {
            (Ok(n), Ok(d)) => Some((n, d)),
            _ => None,
        }
    } else {
        None
    }
}

/// A number in its shortest notation.
pub open spec fn shown_real(x: RealView) -> Seq<char> {
    match x {
        RealView::Finite(v) => shown(v),
        RealView::NegativeZero => "-0"@,
        RealView::Infinite(neg) => if neg {
            "-inf"@
        } else {
            "inf"@
        },
        RealView::Undefined => "NaN"@,
    }
}

/// A frame rate divided by `n`. A fraction of integers stays one; a text that is no number stays as
/// it is.
pub open spec fn divided(rate: Seq<char>, n: nat) -> Seq<char> {
    if n <= 1 {
        rate
    } else {
        match ratio_of(rate) {
            Some((num, den)) => decimal(num) + "/"@ + decimal(den * n),
            None => match real_number(trim(rate)) {
                Some(x) => shown_real(real_quotient(x, whole_real(n))),
                None => rate,
            },
        }
    }
}

/// Reads a frame rate that is written as a fraction of integers.
pub fn rate_ratio(rate: &str) -> (r: Option<(u64, u64)>)
    ensures
        match r {
            Some((n, d)) => ratio_of(rate@) == Some((n as nat, d as nat)),
            None => ratio_of(rate@) is None,
        },
{
    let s = chars_of(rate);
    let at = find(&s, '/', '/');
    if at >= s.len() {
        return None;
    }
    let left = slice_subrange(&s, 0, at);
    let right = slice_subrange(&s, at + 1, s.len());
    assert(left@ =~= rate@.take(at as int));
    assert(right@ =~= rate@.skip(at + 1));
    match (parse_number(trimmed(left), u64::MAX), parse_number(trimmed(right), u64::MAX)) {
        (Ok(n), Ok(d)) => Some((n, d)),
        _ => None,
    }
}

fn show_real(x: Real) -> (r: String)
    requires
        x.wf(),
    ensures
        r@ == shown_real(x@),
{
    match x {
        Real::Finite(v) => {
            proof {
                v.lemma_nonzero();
            }
            if v.neg && v.m == 0 {
                return "-0".to_owned();
            }
            let mut r = String::new();
            put_shortest(&mut r, v);
            r
        },
        Real::Infinite(neg) => if neg {
            "-inf".to_owned()
        } else {
            "inf".to_owned()
        },
        Real::Undefined => "NaN".to_owned(),
    }
}

/// Divides a frame rate given as "num/den" or a decimal by `n`.
pub fn rate_div(rate: &str, n: usize) -> (r: String)
    requires
        ratio_of(rate@) matches Some((num, den)) ==> den * n <= u64::MAX,
    ensures
        r@ == divided(rate@, n as nat),
{
    if n <= 1 {
        return rate.to_owned();
    }
    match rate_ratio(rate) {
        Some((num, den)) => {
            let mut r = String::new();
            put_decimal(&mut r, num);
            assert(r@ =~= decimal(num as nat));
            r.append("/");
            put_decimal(&mut r, den * n as u64);
            r
        },
        None => {
            let c = chars_of(rate);
            let t = trimmed(&c);
            match parse_real(t) {
                Some(x) => show_real(divide(x, to_whole(n as u64))),
                None => rate.to_owned(),
            }
        },
    }
}

/// Whole seconds in words.
pub open spec fn duration_text(s: nat) -> Seq<char> {
    if s >= 3600 {
        decimal(s / 3600) + "h"@ + padded((s % 3600) / 60, 2) + "m"@ + padded(s % 60, 2) + "s"@
    } else if s >= 60 {
        decimal(s / 60) + "m"@ + padded(s % 60, 2) + "s"@
    } else {
        decimal(s) + "s"@
    }
}

/// A duration, to the nearest second.
pub open spec fn seconds_of(secs: int) -> nat {
    clamped(half_away(secs), 0, u64::MAX as int) as nat
}

/// Appends a duration.
pub fn put_dur(out: &mut String, secs: Float)
    requires
        secs.wf(),
    ensures
        final(out)@ == old(out)@ + duration_text(seconds_of(secs.value())),
{
    put_whole_dur(out, secs.round_u64());
}

fn put_whole_dur(out: &mut String, s: u64)
    ensures
        final(out)@ == old(out)@ + duration_text(s as nat),
{
    let ghost before = out@;
    if s >= 3600 {
        put_decimal(out, s / 3600);
        out.append("h");
        put_padded(out, (s % 3600) / 60, 2);
        out.append("m");
        put_padded(out, s % 60, 2);
        out.append("s");
    } else if s >= 60 {
        put_decimal(out, s / 60);
        out.append("m");
        put_padded(out, s % 60, 2);
        out.append("s");
    } else {
        put_decimal(out, s);
        out.append("s");
    }
    assert(out@ =~= before + duration_text(s as nat));
}

/// A duration as it can be written, to the nearest second; what is no number lasts no time.
pub open spec fn real_seconds(secs: RealView) -> nat {
    match secs {
        RealView::Finite(v) => seconds_of(v),
        RealView::NegativeZero => seconds_of(0),
        RealView::Infinite(neg) => if neg {
            0
        } else {
            u64::MAX as nat
        },
        RealView::Undefined => 0,
    }
}

/// Appends a duration as it can be written.
pub fn put_real_dur(out: &mut String, secs: Real)
    requires
        secs.wf(),
    ensures
        final(out)@ == old(out)@ + duration_text(real_seconds(secs@)),
{
    match secs {
        Real::Finite(x) => put_whole_dur(out, x.round_u64()),
        Real::Infinite(false) => put_whole_dur(out, u64::MAX),
        _ => put_whole_dur(out, 0),
    }
}

/// A duration in words.
pub fn fmt_dur(secs: Real) -> (r: String)
    requires
        secs.wf(),
    ensures
        r@ == duration_text(real_seconds(secs@)),
{
    let mut r = String::new();
    put_real_dur(&mut r, secs);
    assert(r@ =~= duration_text(real_seconds(secs@)));
    r
}

/// The name of a power of 1024 bytes.
pub open spec fn unit_name(i: nat) -> Seq<char> {
    if i == 0 {
        "B"@
    } else if i == 1 {
        "KiB"@
    } else if i == 2 {
        "MiB"@
    } else if i == 3 {
        "GiB"@
    } else if i == 4 {
        "TiB"@
    } else {
        "PiB"@
    }
}

/// 1024 as a binary64 number.
pub open spec fn kilo() -> int {
    (1024 * one()) as int
}

/// A number in the largest unit, from the `i`th on, of which there is at least one.
pub open spec fn in_units(v: int, i: nat) -> Seq<char>
    decreases 5 - i,
{
    if v >= kilo() && i < 5 {
        in_units(quotient(v, kilo()), i + 1)
    } else {
        fixed(v, 2) + " "@ + unit_name(i)
    }
}

/// A number of bytes in words.
pub open spec fn bytes_text(b: nat) -> Seq<char> {
    let v = fraction(b, 1) as int;
    if v >= kilo() {
        in_units(v, 0)
    } else {
        decimal(b) + " B"@
    }
}

/// A number of bytes in words.
pub fn fmt_bytes(b: u64) -> (r: String)
    ensures
        r@ == bytes_text(b as nat),
{
    let mut v = Float::from_u64(b);
    let step = Float::from_int(1024);
    let mut i: u32 = 0;
    proof {
        vstd::arithmetic::power2::lemma_pow2_pos(1074);
        assert(step.m != 0) by {
            assert(0 * vstd::arithmetic::power2::pow2((step.e + 1074) as nat) == 0);
        }
    }
    if v.less(step) {
        let mut r = String::new();
        put_decimal(&mut r, b);
        assert(r@ =~= decimal(b as nat));
        r.append(" B");
        return r;
    }
    while i < 5 && !v.less(step)
        invariant
            i <= 5,
            v.wf(),
            v.e <= 76 + 2000 * i,
            step.wf(),
            step.m != 0,
            step.e <= 76,
            step.value() == kilo(),
            i > 0 || v.value() >= kilo(),
            in_units(fraction(b as nat, 1) as int, 0) == in_units(v.value(), i as nat),
        decreases 5 - i,
    {
        v = v.over(step);
        i = i + 1;
    }
    let mut r = String::new();
    put_fixed(&mut r, v, 2);
    assert(r@ =~= fixed(v.value(), 2));
    r.append(" ");
    let unit = if i == 0 {
        "B"
    } else if i == 1 {
        "KiB"
    } else if i == 2 {
        "MiB"
    } else if i == 3 {
        "GiB"
    } else if i == 4 {
        "TiB"
    } else {
        "PiB"
    };
    r.append(unit);
    r
}

} // verus!
