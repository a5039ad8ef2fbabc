//! Progress lines: when one is due and what it says. The caller has the clock and prints.

use vstd::prelude::*;
use crate::binary64::{fraction, one, product, quotient, sum, Float};
use crate::fixed::{fixed, put_fixed};
use crate::number::{decimal, put_decimal};
use crate::pacing::{
    lemma_bounds, lemma_duration, lemma_near_back, lemma_near_both, lemma_near_over,
    lemma_near_product, lemma_near_quotient, lemma_near_times, lemma_near_whole, near, ordinary,
    parts,
};
use crate::util::{duration_text, put_dur, seconds_of};

verus! {

/// Time since the start, in seconds and nanoseconds.
#[derive(Clone, Copy, Debug, PartialEq, Eq, Structural)]
pub struct Elapsed {
    pub secs: u64,
    pub nanos: u32,
}

impl Elapsed {
    /// The time in nanoseconds.
    pub open spec fn nanoseconds(self) -> int {
        self.secs * 1_000_000_000 + self.nanos
    }

    /// The time in seconds, as a binary64 number.
    pub open spec fn seconds(self) -> int {
        sum(
            fraction(self.secs as nat, 1) as int,
            quotient(fraction(self.nanos as nat, 1) as int, (1_000_000_000 * one()) as int),
        )
    }

    /// The time in seconds, as a binary64 number.
    pub fn as_seconds(self) -> (r: Float)
        ensures
            r.wf(),
            r.value() == self.seconds(),
            r.e <= 3000,
    {
        let billion = Float::from_int(1_000_000_000);
        proof {
            vstd::arithmetic::power2::lemma_pow2_pos(1074);
            assert(0 * vstd::arithmetic::power2::pow2((billion.e + 1074) as nat) == 0);
        }
        Float::from_u64(self.secs).plus(Float::from_u64(self.nanos as u64).over(billion))
    }
}

/// The progress of a count of frames. A line is due every two seconds, and at the end.
#[derive(Clone, Debug)]
pub struct Progress {
    total: Option<u64>,
    last: Option<Elapsed>,
    quiet: bool,
    label: &'static str,
}

/// The state of a progress display as a value.
pub struct ProgressView {
    pub total: Option<u64>,
    pub last: Option<Elapsed>,
    pub quiet: bool,
    pub label: Seq<char>,
}

impl View for Progress {
    type V = ProgressView;

    closed spec fn view(&self) -> ProgressView {
        ProgressView {
            total: self.total,
            last: self.last,
            quiet: self.quiet,
            label: self.label@,
        }
    }
}

/// The frames per second so far, once there is time to divide by.
pub open spec fn rate_text(done: nat, el: int) -> Seq<char> {
    if el > 0 {
        ", "@ + fixed(quotient(fraction(done, 1) as int, el), 1) + " frames/s"@
    } else {
        Seq::empty()
    }
}

/// The share that is done, in percent.
pub open spec fn percent(done: nat, total: nat) -> int {
    if total > 0 {
        quotient(
            product((100 * one()) as int, fraction(done, 1) as int),
            fraction(total, 1) as int,
        )
    } else {
        (100 * one()) as int
    }
}

/// The time left, at the pace so far.
pub open spec fn eta_text(done: nat, total: nat, el: int) -> Seq<char> {
    if 0 < done < total {
        ", ETA "@ + duration_text(
            seconds_of(
                quotient(
                    product(el, fraction((total - done) as nat, 1) as int),
                    fraction(done, 1) as int,
                ),
            ),
        )
    } else {
        Seq::empty()
    }
}

impl ProgressView {
    /// A line is due.
    pub open spec fn due(self, done: u64, now: Elapsed) -> bool {
        !self.quiet && ((self.total matches Some(t) && done >= t) || !(self.last matches Some(l)
            && now.nanoseconds() - l.nanoseconds() < 2_000_000_000))
    }

    /// What a line says.
    pub open spec fn line(self, done: u64, now: Elapsed) -> Seq<char> {
        let el = now.seconds();
        let n = done as nat;
        match self.total {
            Some(total) => "\r"@ + self.label + ": "@ + decimal(n) + "/"@ + decimal(total as nat)
                + " ("@ + fixed(percent(n, total as nat), 1) + "%), "@ + duration_text(
                seconds_of(el),
            ) + " elapsed"@ + rate_text(n, el) + eta_text(n, total as nat, el) + "   "@,
            None => "\r"@ + self.label + ": "@ + decimal(n) + " frames, "@ + duration_text(
                seconds_of(el),
            ) + " elapsed"@ + rate_text(n, el) + "   "@,
        }
    }
}

fn put_rate(out: &mut String, done: u64, el: Float)
    requires
        el.wf(),
        el.e <= 3000,
    ensures
        final(out)@ == old(out)@ + rate_text(done as nat, el.value()),
{
    let ghost before = out@;
    if el.is_positive() {
        let rate = Float::from_u64(done).over(el);
        out.append(", ");
        put_fixed(out, rate, 1);
        out.append(" frames/s");
    }
    assert(out@ =~= before + rate_text(done as nat, el.value()));
}

fn put_eta(out: &mut String, done: u64, total: u64, el: Float)
    requires
        el.wf(),
        el.e <= 3000,
    ensures
        final(out)@ == old(out)@ + eta_text(done as nat, total as nat, el.value()),
{
    let ghost before = out@;
    if done > 0 && done < total {
        let left = el.times(Float::from_u64(total - done)).over(Float::from_u64(done));
        out.append(", ETA ");
        put_dur(out, left);
    }
    assert(out@ =~= before + eta_text(done as nat, total as nat, el.value()));
}

impl Progress {
    /// The progress of nothing yet.
    pub fn new(label: &'static str, total: Option<u64>, quiet: bool) -> (r: Progress)
        ensures
            r@ == (ProgressView { total, last: None, quiet, label: label@ }),
    {
        Progress { total, last: None, quiet, label }
    }

    /// The count at which all is done, where it is known.
    pub fn total(&self) -> (r: Option<u64>)
        ensures
            r == self@.total,
    {
        self.total
    }

    fn text(&self, done: u64, now: Elapsed) -> (r: String)
        ensures
            r@ == self@.line(done, now),
    {
        let el = now.as_seconds();
        let mut r = "\r".to_owned();
        r.append(self.label);
        r.append(": ");
        put_decimal(&mut r, done);
        match self.total {
            Some(total) => {
                let pct = if total > 0 {
                    Float::from_int(100).times(Float::from_u64(done)).over(Float::from_u64(total))
                } else {
                    Float::from_int(100)
                };
                r.append("/");
                put_decimal(&mut r, total);
                r.append(" (");
                put_fixed(&mut r, pct, 1);
                r.append("%), ");
                put_dur(&mut r, el);
                r.append(" elapsed");
                put_rate(&mut r, done, el);
                put_eta(&mut r, done, total, el);
            },
            None => {
                r.append(" frames, ");
                put_dur(&mut r, el);
                r.append(" elapsed");
                put_rate(&mut r, done, el);
            },
        }
        r.append("   ");
        r
    }

    /// Notes the count at a time: the line to print, when one is due.
    pub fn update(&mut self, done: u64, now: Elapsed) -> (r: Option<String>)
        ensures
            final(self)@ == if old(self)@.due(done, now) {
                ProgressView { last: Some(now), ..old(self)@ }
            } else {
                old(self)@
            },
            match r {
                Some(line) => old(self)@.due(done, now) && line@ == old(self)@.line(done, now),
                None => !old(self)@.due(done, now),
            },
    {
        if self.quiet {
            return None;
        }
        let finished = match self.total {
            Some(t) => done >= t,
            None => false,
        };
        let recent = match self.last {
            Some(l) => {
                let a: u128 = now.secs as u128 * 1_000_000_000 + now.nanos as u128;
                let b: u128 = l.secs as u128 * 1_000_000_000 + l.nanos as u128;
                a < b + 2_000_000_000
            },
            None => false,
        };
        if !finished && recent {
            return None;
        }
        self.last = Some(now);
        Some(self.text(done, now))
    }

    /// Notes that all is done: the last line to print, with the line break behind it.
    pub fn finish(&mut self, done: u64, now: Elapsed) -> (r: Option<String>)
        ensures
            old(self)@.quiet ==> r is None && final(self)@ == old(self)@,
            !old(self)@.quiet ==> {
                &&& final(self)@ == (ProgressView {
                    total: Some(done),
                    last: Some(now),
                    ..old(self)@
                })
                &&& r matches Some(line) && line@ == (ProgressView {
                    total: Some(done),
                    last: None,
                    ..old(self)@
                }).line(done, now) + "\n"@
            },
    {
        if self.quiet {
            return None;
        }
        self.last = None;
        self.total = Some(done);
        match self.update(done, now) {
            Some(mut line) => {
                line.append("\n");
                Some(line)
            },
            None => None,
        }
    }
}

/// The share that is done is a hundred times what is done, divided by all of it, but for rounding.
pub proof fn the_share_is_done_of_all(done: nat, total: nat)
    requires
        1 <= done <= u64::MAX,
        1 <= total <= u64::MAX,
    ensures
        near(percent(done, total) * total, (100 * done) * one() as int, 10),
{
    let u = one() as int;
    lemma_bounds();
    lemma_near_whole(done);
    lemma_near_whole(total);
    let (d, t) = (fraction(done, 1) as int, fraction(total, 1) as int);
    let (du, tu) = (done * u, total * u);
    lemma_count_size(done, u);
    lemma_count_size(total, u);
    let h = 100 * u;
    assert(h * d >= parts() * u) by (nonlinear_arith)
        requires
            h == 100 * u,
            2 * d >= u,
            u >= parts(),
            u > 0,
    ;
    lemma_near_product(h, d);
    let a = product(h, d);
    lemma_near_times(d, du, h, 1);
    let hd = (100 * done) * u;
    assert(d * h == h * d && du * h == hd * u && hd >= 0) by (nonlinear_arith)
        requires
            h == 100 * u,
            du == done * u,
            hd == (100 * done) * u,
            u > 0,
    ;
    assert(hd * u >= 0) by (nonlinear_arith)
        requires
            hd >= 0,
            u > 0,
    ;
    lemma_near_both(a * u, h * d, hd * u, 2, 1);
    lemma_near_over(a, hd, u, 4);
    assert(hd >= 100 * u) by (nonlinear_arith)
        requires
            hd == (100 * done) * u,
            done >= 1,
            u > 0,
    ;
    assert(parts() * t <= a * u) by (nonlinear_arith)
        requires
            t <= 0x2_0000_0000_0000_0000 * u,
            a >= u,
            u >= parts() * 0x2_0000_0000_0000_0000,
            u > 0,
    {
        assert(parts() * t <= (parts() * 0x2_0000_0000_0000_0000) * u);
        assert((parts() * 0x2_0000_0000_0000_0000) * u <= u * u);
        assert(a * u >= u * u);
    }
    lemma_near_quotient(a, t);
    let p = quotient(a, t);
    // p * t is a * u, which is hd * u; t is total * u
    lemma_near_times(a, hd, u, 4);
    lemma_near_both(p * t, a * u, hd * u, 2, 4);
    lemma_near_times(t, tu, p, 1);
    assert(t * p == p * t && tu * p == (p * total) * u) by (nonlinear_arith)
        requires
            tu == total * u,
    ;
    assert((p * total) * u >= 0) by (nonlinear_arith)
        requires
            p > 0,
            total >= 1,
            u > 0,
    ;
    lemma_near_back(p * t, (p * total) * u, 1);
    lemma_near_both((p * total) * u, p * t, hd * u, 2, 7);
    lemma_near_over(p * total, hd, u, 10);
}

proof fn lemma_count_size(n: nat, u: int)
    requires
        1 <= n <= u64::MAX,
        u > 0,
    ensures
        u <= n * u <= 0x1_0000_0000_0000_0000 * u,
{
    assert(u <= n * u <= 0x1_0000_0000_0000_0000 * u) by (nonlinear_arith)
        requires
            1 <= n <= 0x1_0000_0000_0000_0000,
            u > 0,
    ;
}

/// The pace is what is done, divided by the time that it took, but for rounding.
pub proof fn the_pace_is_what_is_done_in_time(done: nat, el: int)
    requires
        1 <= done <= u64::MAX,
        ordinary(el),
    ensures
        exists|v: int| #[trigger]
            near(v * el, ((done * one()) * one()) as int, 4) && rate_text(done, el) == ", "@ + fixed(
                v,
                1,
            ) + " frames/s"@,
{
    lemma_duration(done, el);
    let v = quotient(fraction(done, 1) as int, el);
    assert(near(v * el, ((done * one()) * one()) as int, 4));
    let p = vstd::arithmetic::power2::pow2(100) as int;
    let u = one() as int;
    lemma_bounds();
    assert(el > 0) by (nonlinear_arith)
        requires
            u <= p * el,
            u > 0,
            p > 0,
    ;
}

/// The time left is to the time so far as what is left is to what is done, but for rounding; nothing
/// is said of it before anything, and after all of it, is done.
pub proof fn the_time_left_goes_by_the_pace(done: nat, total: nat, el: int)
    requires
        total <= u64::MAX,
        ordinary(el),
    ensures
        done == 0 || done >= total ==> eta_text(done, total, el).len() == 0,
        0 < done < total ==> exists|v: int| #[trigger]
            near(v * done, el * (total - done), 12) && eta_text(done, total, el) == ", ETA "@
                + duration_text(seconds_of(v)),
{
    if 0 < done < total {
        let u = one() as int;
        let p = vstd::arithmetic::power2::pow2(100) as int;
        let rest = (total - done) as nat;
        lemma_bounds();
        assert(el > 0) by (nonlinear_arith)
            requires
                u <= p * el,
                u > 0,
                p > 0,
        ;
        lemma_near_whole(done);
        lemma_near_whole(rest);
        lemma_count_size(done, u);
        lemma_count_size(rest, u);
        let (d, r) = (fraction(done, 1) as int, fraction(rest, 1) as int);
        let (du, ru) = (done * u, rest * u);
        assert(el * r >= parts() * u) by (nonlinear_arith)
            requires
                2 * r >= u,
                u <= p * el,
                u >= 2 * (parts() * p),
                el > 0,
                p > 0,
                u > 0,
        {
            assert(el * (2 * r) >= el * u);
            assert(el * u >= el * (2 * (parts() * p)));
            assert(el * (2 * (parts() * p)) == 2 * (parts() * (p * el)));
        }
        lemma_near_product(el, r);
        let a = product(el, r);
        let x = el * rest;
        lemma_near_times(r, ru, el, 1);
        assert(r * el == el * r && ru * el == x * u && x >= el) by (nonlinear_arith)
            requires
                ru == rest * u,
                x == el * rest,
                rest >= 1,
                el > 0,
        ;
        assert(x * u >= 0) by (nonlinear_arith)
            requires
                x >= 0,
                u > 0,
        ;
        lemma_near_both(a * u, el * r, x * u, 2, 1);
        lemma_near_over(a, x, u, 4);
        assert(parts() * d <= a * u) by (nonlinear_arith)
            requires
                0 < d <= 0x2_0000_0000_0000_0000 * u,
                2 * a >= el,
                u <= p * el,
                u >= 2 * ((parts() * 0x2_0000_0000_0000_0000) * p),
                p > 0,
                u > 0,
                a > 0,
        {
            let c = parts() * 0x2_0000_0000_0000_0000;
            assert(parts() * d <= c * u);
            assert(u <= p * (2 * a));
            assert(2 * (c * p) <= p * (2 * a));
            assert(c <= a);
            assert(c * u <= a * u);
        }
        lemma_near_quotient(a, d);
        let v = quotient(a, d);
        lemma_near_times(a, x, u, 4);
        lemma_near_both(v * d, a * u, x * u, 2, 4);
        lemma_near_times(d, du, v, 1);
        assert(d * v == v * d && du * v == (v * done) * u) by (nonlinear_arith)
            requires
                du == done * u,
        ;
        assert((v * done) * u >= 0) by (nonlinear_arith)
            requires
                v > 0,
                done >= 1,
                u > 0,
        ;
        lemma_near_back(v * d, (v * done) * u, 1);
        lemma_near_both((v * done) * u, v * d, x * u, 2, 7);
        lemma_near_over(v * done, x, u, 10);
        assert(12 * x >= 10 * x);
        assert(near(v * done, el * (total - done), 12));
    }
}

} // verus!
