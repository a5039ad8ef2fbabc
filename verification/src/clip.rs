//! Shrinking the input volume before rotating: a center crop in width and height, a time window at
//! the start, in the middle or at the end, or every Nth frame.

use vstd::prelude::*;
use crate::config::{Anchor, Clip};
use crate::error::{Error, Fault};
use crate::number::{decimal, put_decimal};

verus! {

/// What is kept of the input.
#[derive(Clone, Debug, PartialEq, Eq)]
pub struct ClipPlan {
    pub w: usize,
    pub h: usize,
    /// Estimated frame count after clipping.
    pub frames: Option<usize>,
    pub nth: usize,
    pub crop: Option<(usize, usize)>,
    /// First input frame to keep.
    pub start: usize,
    /// Exact frame count when time is clipped.
    pub take: Option<usize>,
    pub desc: String,
}

/// A clip plan as a value.
#[verifier::ext_equal]
pub struct PlanView {
    pub w: nat,
    pub h: nat,
    pub frames: Option<nat>,
    pub nth: nat,
    pub crop: Option<(nat, nat)>,
    pub start: nat,
    pub take: Option<nat>,
    pub desc: Seq<char>,
}

impl PlanView {
    /// The plan keeps a part of `total` frames of `w` by `h` pixels.
    pub open spec fn inside(self, w: nat, h: nat, total: Option<nat>) -> bool {
        &&& self.w <= w && self.h <= h
        &&& self.crop matches Some((cw, ch)) ==> cw == self.w && ch == self.h
        &&& self.crop is None ==> self.w == w && self.h == h
        &&& (total is Some <==> self.frames is Some)
        &&& total matches Some(d) ==> self.frames->Some_0 <= d
        &&& self.take matches Some(n) ==> total is Some && self.frames == Some(n) && self.start + n
            <= total->Some_0
        &&& self.take is None ==> self.start == 0
        &&& self.nth >= 1
    }
}

/// A count as a value.
pub open spec fn count(n: Option<usize>) -> Option<nat> {
    match n {
        Some(n) => Some(n as nat),
        None => None,
    }
}

impl View for ClipPlan {
    type V = PlanView;

    open spec fn view(&self) -> PlanView {
        PlanView {
            w: self.w as nat,
            h: self.h as nat,
            frames: count(self.frames),
            nth: self.nth as nat,
            crop: match self.crop {
                Some((w, h)) => Some((w as nat, h as nat)),
                None => None,
            },
            start: self.start as nat,
            take: count(self.take),
            desc: self.desc@,
        }
    }
}

pub open spec fn smaller(a: nat, b: nat) -> nat {
    if a <= b {
        a
    } else {
        b
    }
}

pub open spec fn larger(a: nat, b: nat) -> nat {
    if a >= b {
        a
    } else {
        b
    }
}

/// The smallest of three sizes.
pub open spec fn smallest(a: nat, b: nat, c: nat) -> nat {
    smaller(smaller(a, b), c)
}

/// The middle one of three sizes.
pub open spec fn median(a: nat, b: nat, c: nat) -> nat {
    larger(smaller(a, b), smaller(larger(a, b), c))
}

/// The quotient rounded up.
pub open spec fn rounded_up(a: nat, b: nat) -> nat {
    ((a + b - 1) / b as int) as nat
}

/// A size, made even by leaving out one pixel unless that would leave none.
pub open spec fn evened(v: nat, even: bool) -> nat {
    if even && v % 2 == 1 && v > 1 {
        (v - 1) as nat
    } else {
        v
    }
}

/// The name of a time anchor.
pub open spec fn anchor_name(a: Anchor) -> Seq<char> {
    match a {
        Anchor::Start => "start"@,
        Anchor::Middle => "middle"@,
        Anchor::End => "end"@,
    }
}

/// The first frame of a window of `kept` frames out of `total`.
pub open spec fn window_start(a: Anchor, total: nat, kept: nat) -> nat {
    match a {
        Anchor::Start => 0,
        Anchor::Middle => ((total - kept) / 2) as nat,
        Anchor::End => (total - kept) as nat,
    }
}

/// The plan for a volume whose sides are limited to `side`; with `even`, width and height are made
/// even.
pub open spec fn side_plan(
    name: Seq<char>,
    anchor: Anchor,
    side: nat,
    w: nat,
    h: nat,
    d: nat,
    even: bool,
) -> PlanView {
    let cw = evened(smaller(w, side), even);
    let ch = evened(smaller(h, side), even);
    let cd = smaller(d, side);
    let start = window_start(anchor, d, cd);
    PlanView {
        w: cw,
        h: ch,
        frames: Some(cd),
        nth: 1,
        crop: if cw != w || ch != h {
            Some((cw, ch))
        } else {
            None
        },
        start,
        take: if cd < d {
            Some(cd)
        } else {
            None
        },
        desc: name + ":"@ + anchor_name(anchor) + " (side "@ + decimal(side) + "): "@ + decimal(w)
            + "x"@ + decimal(h) + "x"@ + decimal(d) + " -> "@ + decimal(cw) + "x"@ + decimal(ch)
            + "x"@ + decimal(cd) + ", frames "@ + decimal(start) + ".."@ + decimal(start + cd),
    }
}

/// What is kept of `total` frames of `w` by `h` pixels.
pub open spec fn planned(clip: Clip, w: nat, h: nat, total: Option<nat>, even: bool) -> Result<
    PlanView,
    Fault,
> {
    match clip {
        Clip::Whole => Ok(
            PlanView {
                w,
                h,
                frames: total,
                nth: 1,
                crop: None,
                start: 0,
                take: None,
                desc: "none"@,
            },
        ),
        Clip::Min(anchor) => match total {
            None => Err(Fault::ClipNeedsFrameCount),
            Some(d) => Ok(side_plan("min"@, anchor, smallest(w, h, d), w, h, d, false)),
        },
        Clip::Middle(anchor) => match total {
            None => Err(Fault::ClipNeedsFrameCount),
            Some(d) => Ok(side_plan("middle"@, anchor, median(w, h, d), w, h, d, even)),
        },
        Clip::Nth(n) => match (n, total) {
            (None, None) => Err(Fault::NthNeedsCount),
            _ => {
                let n = match n {
                    Some(n) => n as nat,
                    None => larger(rounded_up(total->Some_0, larger(w, h)), 1),
                };
                Ok(
                    PlanView {
                        w,
                        h,
                        frames: match total {
                            Some(d) => Some(rounded_up(d, n)),
                            None => None,
                        },
                        nth: n,
                        crop: None,
                        start: 0,
                        take: None,
                        desc: "nth (every "@ + decimal(n) + ". frame)"@,
                    },
                )
            },
        },
    }
}

fn min2(a: usize, b: usize) -> (r: usize)
    ensures
        r == smaller(a as nat, b as nat),
{
    if a <= b {
        a
    } else {
        b
    }
}

fn max2(a: usize, b: usize) -> (r: usize)
    ensures
        r == larger(a as nat, b as nat),
{
    if a >= b {
        a
    } else {
        b
    }
}

fn make_even(v: usize, even: bool) -> (r: usize)
    ensures
        r == evened(v as nat, even),
{
    if even && v % 2 == 1 && v > 1 {
        v - 1
    } else {
        v
    }
}

fn div_up(a: usize, b: usize) -> (r: usize)
    requires
        b > 0,
    ensures
        r == rounded_up(a as nat, b as nat),
        r <= a,
{
    let q = a / b;
    let m = a % b;
    proof {
        vstd::arithmetic::div_mod::lemma_fundamental_div_mod(a as int, b as int);
        assert(q <= a) by (nonlinear_arith)
            requires
                a == b * q + m,
                b > 0,
                m >= 0,
        ;
        if m == 0 {
            assert(a + b - 1 == q * b + (b - 1)) by (nonlinear_arith)
                requires
                    a == b * q,
            ;
            vstd::arithmetic::div_mod::lemma_fundamental_div_mod_converse(
                a + b - 1,
                b as int,
                q as int,
                b - 1,
            );
        } else {
            assert(a + b - 1 == (q + 1) * b + (m - 1)) by (nonlinear_arith)
                requires
                    a == b * q + m,
            ;
            vstd::arithmetic::div_mod::lemma_fundamental_div_mod_converse(
                a + b - 1,
                b as int,
                q + 1,
                m - 1,
            );
            assert(q < a) by (nonlinear_arith)
                requires
                    a == b * q + m,
                    b > 0,
                    m > 0,
            ;
        }
    }
    if m == 0 {
        q
    } else {
        q + 1
    }
}

fn limit_sides(
    name: &str,
    anchor: Anchor,
    side: usize,
    w: usize,
    h: usize,
    d: usize,
    even: bool,
) -> (r: ClipPlan)
    ensures
        r@ == side_plan(name@, anchor, side as nat, w as nat, h as nat, d as nat, even),
{
    let cw = make_even(min2(w, side), even);
    let ch = make_even(min2(h, side), even);
    let cd = min2(d, side);
    let (start, at) = match anchor {
        Anchor::Start => (0usize, "start"),
        Anchor::Middle => ((d - cd) / 2, "middle"),
        Anchor::End => (d - cd, "end"),
    };
    let mut desc = name.to_owned();
    desc.append(":");
    desc.append(at);
    desc.append(" (side ");
    put_decimal(&mut desc, side as u64);
    desc.append("): ");
    put_decimal(&mut desc, w as u64);
    desc.append("x");
    put_decimal(&mut desc, h as u64);
    desc.append("x");
    put_decimal(&mut desc, d as u64);
    desc.append(" -> ");
    put_decimal(&mut desc, cw as u64);
    desc.append("x");
    put_decimal(&mut desc, ch as u64);
    desc.append("x");
    put_decimal(&mut desc, cd as u64);
    desc.append(", frames ");
    put_decimal(&mut desc, start as u64);
    desc.append("..");
    put_decimal(&mut desc, (start + cd) as u64);
    ClipPlan {
        w: cw,
        h: ch,
        frames: Some(cd),
        nth: 1,
        crop: if cw != w || ch != h {
            Some((cw, ch))
        } else {
            None
        },
        start,
        take: if cd < d {
            Some(cd)
        } else {
            None
        },
        desc,
    }
}

/// Decides what is kept of the input volume.
pub fn plan(clip: Clip, w: usize, h: usize, total: Option<usize>, even: bool) -> (r: Result<
    ClipPlan,
    Error,
>)
    requires
        clip != Clip::Nth(Some(0)),
        clip == Clip::Nth(None) && total is Some ==> w > 0 || h > 0,
    ensures
        match r {
            Ok(p) => planned(clip, w as nat, h as nat, count(total), even) == Ok::<PlanView, Fault>(
                p@,
            ),
            Err(e) => planned(clip, w as nat, h as nat, count(total), even) == Err::<
                PlanView,
                Fault,
            >(e.fault) && e.says(
                e.fault,
                "ROT_CLIP"@,
                match clip {
                    Clip::Min(_) => "min"@,
                    Clip::Middle(_) => "middle"@,
                    _ => "nth"@,
                },
            ),
        },
{
    match clip {
        Clip::Whole => Ok(
            ClipPlan {
                w,
                h,
                frames: total,
                nth: 1,
                crop: None,
                start: 0,
                take: None,
                desc: "none".to_owned(),
            },
        ),
        Clip::Min(anchor) => match total {
            None => Err(Error::new(Fault::ClipNeedsFrameCount, "ROT_CLIP", "min")),
            Some(d) => {
                let side = min2(min2(w, h), d);
                Ok(limit_sides("min", anchor, side, w, h, d, false))
            },
        },
        Clip::Middle(anchor) => match total {
            None => Err(Error::new(Fault::ClipNeedsFrameCount, "ROT_CLIP", "middle")),
            Some(d) => {
                let side = max2(min2(w, h), min2(max2(w, h), d));
                Ok(limit_sides("middle", anchor, side, w, h, d, even))
            },
        },
        Clip::Nth(n) => {
            let n: usize = match n {
                Some(n) => n,
                None => match total {
                    Some(d) => max2(div_up(d, max2(w, h)), 1),
                    None => {
                        return Err(Error::new(Fault::NthNeedsCount, "ROT_CLIP", "nth"));
                    },
                },
            };
            let mut desc = "nth (every ".to_owned();
            put_decimal(&mut desc, n as u64);
            desc.append(". frame)");
            Ok(
                ClipPlan {
                    w,
                    h,
                    frames: match total {
                        Some(d) => Some(div_up(d, n)),
                        None => None,
                    },
                    nth: n,
                    crop: None,
                    start: 0,
                    take: None,
                    desc,
                },
            )
        },
    }
}

/// Clipping never enlarges the volume: the clipped frame lies in the input frame, and the time
/// window, where there is one, lies in the input and holds as many frames as the plan says.
pub proof fn clip_stays_inside(clip: Clip, w: nat, h: nat, total: Option<nat>, even: bool)
    requires
        clip != Clip::Nth(Some(0)),
        w > 0 || h > 0,
    ensures
        planned(clip, w, h, total, even) matches Ok(p) ==> p.inside(w, h, total),
{
    if let Clip::Nth(n) = clip {
        if let Some(d) = total {
            let k = match n {
                Some(n) => n as nat,
                None => larger(rounded_up(d, larger(w, h)), 1),
            };
            lemma_rounded_up_small(d, k);
        }
    }
    if let Some(d) = total {
        if let Clip::Min(anchor) = clip {
            lemma_side_plan_inside("min"@, anchor, smallest(w, h, d), w, h, d, false);
        }
        if let Clip::Middle(anchor) = clip {
            lemma_side_plan_inside("middle"@, anchor, median(w, h, d), w, h, d, even);
        }
    }
}

proof fn lemma_side_plan_inside(
    name: Seq<char>,
    anchor: Anchor,
    side: nat,
    w: nat,
    h: nat,
    d: nat,
    even: bool,
)
    ensures
        side_plan(name, anchor, side, w, h, d, even).inside(w, h, Some(d)),
{
}

proof fn lemma_rounded_up_small(a: nat, b: nat)
    requires
        b > 0,
    ensures
        rounded_up(a, b) <= a,
        rounded_up(a, b) * b >= a,
        a > 0 ==> (rounded_up(a, b) - 1) * b < a,
{
    let q = (a + b - 1) / (b as int);
    vstd::arithmetic::div_mod::lemma_fundamental_div_mod(a + b - 1, b as int);
    let m = (a + b - 1) % (b as int);
    assert(q * b == b * q) by (nonlinear_arith);
    assert((q - 1) * b == b * q - b) by (nonlinear_arith);
    assert(q >= 0) by (nonlinear_arith)
        requires
            a + b - 1 == b * q + m,
            m < b,
            b > 0,
            a >= 0,
    ;
    assert(q <= a) by (nonlinear_arith)
        requires
            a + b - 1 == b * q + m,
            m >= 0,
            b > 0,
            a >= 0,
    ;
}

/// A cube is left by `min`: every side is the smallest of width, height and frame count, whatever
/// is asked of the sides of the output.
pub proof fn min_leaves_a_cube(anchor: Anchor, w: nat, h: nat, d: nat, even: bool)
    ensures
        planned(Clip::Min(anchor), w, h, Some(d), even) matches Ok(p) && {
            let side = smallest(w, h, d);
            &&& side <= w && side <= h && side <= d
            &&& side == w || side == h || side == d
            &&& p.frames == Some(side)
            &&& p.w == side
            &&& p.h == side
        },
{
}

/// No side is longer than the middle value of width, height and frame count after `middle`: at least
/// two of the three sides are cut to it or were no longer.
pub proof fn middle_limits_every_side(anchor: Anchor, w: nat, h: nat, d: nat, even: bool)
    ensures
        planned(Clip::Middle(anchor), w, h, Some(d), even) matches Ok(p) && {
            let side = median(w, h, d);
            &&& side == w || side == h || side == d
            &&& p.w <= side && p.h <= side && p.frames->Some_0 <= side
            &&& p.frames == Some(smaller(d, side))
        },
{
}

/// With `nth` and no count, the frame count drops to at most the larger side of the frame, by the
/// smallest step that does so.
pub proof fn nth_makes_time_no_longer_than_the_frame(w: nat, h: nat, d: nat, even: bool)
    requires
        w > 0 || h > 0,
    ensures
        planned(Clip::Nth(None), w, h, Some(d), even) matches Ok(p) && {
            &&& p.frames->Some_0 <= larger(w, h)
            &&& p.nth > 1 ==> (p.nth - 1) * larger(w, h) < d
        },
{
    let s = larger(w, h);
    let n = rounded_up(d, s);
    lemma_rounded_up_small(d, s);
    let k = larger(n, 1);
    lemma_rounded_up_small(d, k);
    let f = rounded_up(d, k);
    if d > 0 {
        assert(f <= s) by (nonlinear_arith)
            requires
                (f - 1) * k < d,
                n * s >= d,
                k >= n,
                k >= 1,
                s >= 1,
        ;
    }
}

/// `side` is the smallest of three sizes.
pub open spec fn is_smallest(side: nat, w: nat, h: nat, d: nat) -> bool {
    &&& side == w || side == h || side == d
    &&& side <= w && side <= h && side <= d
}

/// `side` is the middle one of three sizes: two of them are no longer, and two are no shorter.
pub open spec fn is_middle(side: nat, w: nat, h: nat, d: nat) -> bool {
    &&& (w <= side && h <= side) || (w <= side && d <= side) || (h <= side && d <= side)
    &&& (w >= side && h >= side) || (w >= side && d >= side) || (h >= side && d >= side)
}

/// `kept` is what a limit leaves of a side: the whole side where it is no longer than the limit, else
/// the limit. Only where the result must be even, and is odd and not 1, one pixel less is kept.
pub open spec fn cut_to(kept: nat, old_side: nat, limit: nat, even: bool) -> bool {
    let most = if old_side <= limit {
        old_side
    } else {
        limit
    };
    &&& kept == most || (even && most > 1 && most % 2 == 1 && kept + 1 == most)
    &&& even && most > 1 ==> kept % 2 == 0
}

proof fn lemma_cut_to(old_side: nat, limit: nat, even: bool)
    ensures
        cut_to(evened(smaller(old_side, limit), even), old_side, limit, even),
{
}

proof fn lemma_the_middle(side: nat, w: nat, h: nat, d: nat)
    requires
        is_middle(side, w, h, d),
    ensures
        side == median(w, h, d),
{
}

proof fn lemma_medians(w: nat, h: nat, d: nat)
    ensures
        median(w, h, d) == median(h, w, d),
        smallest(w, h, d) == smallest(h, w, d),
{
}

proof fn lemma_anchored(name: Seq<char>, anchor: Anchor, side: nat, w: nat, h: nat, d: nat, even: bool)
    ensures
        anchored(side_plan(name, anchor, side, w, h, d, even), anchor, d),
{
}

/// The time window of a plan lies where its anchor says: as many frames before it as after it (or one
/// less) in the middle, none before it at the start, none after it at the end.
pub open spec fn anchored(p: PlanView, anchor: Anchor, d: nat) -> bool {
    &&& p.frames matches Some(n) && {
        &&& p.start + n <= d
        &&& match anchor {
            Anchor::Start => p.start == 0,
            Anchor::Middle => p.start <= d - n - p.start <= p.start + 1,
            Anchor::End => p.start + n == d,
        }
        &&& p.take == if n < d {
            Some(n)
        } else {
            None
        }
    }
}

/// `min` cuts each side to the smallest of width, height and frame count, and no further; the time
/// window lies where the anchor says.
pub proof fn min_cuts_each_side_to_the_limit(
    anchor: Anchor,
    side: nat,
    w: nat,
    h: nat,
    d: nat,
    even: bool,
)
    requires
        is_smallest(side, w, h, d),
    ensures
        planned(Clip::Min(anchor), w, h, Some(d), even) matches Ok(p) && {
            &&& cut_to(p.w, w, side, false)
            &&& cut_to(p.h, h, side, false)
            &&& p.frames == Some(side)
            &&& anchored(p, anchor, d)
            &&& p.nth == 1
            &&& p.crop == if p.w == w && p.h == h {
                None
            } else {
                Some((p.w, p.h))
            }
        },
{
    lemma_cut_to(w, side, false);
    lemma_cut_to(h, side, false);
    lemma_anchored("min"@, anchor, side, w, h, d, false);
}

/// `middle` cuts each side to the middle value of width, height and frame count, and no further: a
/// side that is no longer, and even, is kept as it is, whatever the other sides are. The time window
/// lies where the anchor says.
pub proof fn middle_cuts_each_side_to_the_limit(
    anchor: Anchor,
    side: nat,
    w: nat,
    h: nat,
    d: nat,
    even: bool,
)
    requires
        is_middle(side, w, h, d),
    ensures
        planned(Clip::Middle(anchor), w, h, Some(d), even) matches Ok(p) && {
            &&& cut_to(p.w, w, side, even)
            &&& cut_to(p.h, h, side, even)
            &&& p.frames == Some(
                if d <= side {
                    d
                } else {
                    side
                },
            )
            &&& anchored(p, anchor, d)
            &&& p.nth == 1
            &&& p.crop == if p.w == w && p.h == h {
                None
            } else {
                Some((p.w, p.h))
            }
        },
{
    lemma_the_middle(side, w, h, d);
    lemma_cut_to(w, side, even);
    lemma_cut_to(h, side, even);
    lemma_anchored("middle"@, anchor, side, w, h, d, even);
}

/// Width and height are treated alike: a volume that lies on its side is clipped to the same sides,
/// swapped, and to the same frames.
pub proof fn clipping_treats_width_and_height_alike(
    clip: Clip,
    w: nat,
    h: nat,
    total: Option<nat>,
    even: bool,
)
    ensures
        match (planned(clip, w, h, total, even), planned(clip, h, w, total, even)) {
            (Ok(p), Ok(q)) => {
                &&& p.w == q.h && p.h == q.w
                &&& p.frames == q.frames && p.nth == q.nth
                &&& p.start == q.start && p.take == q.take
                &&& match (p.crop, q.crop) {
                    (Some(a), Some(b)) => a.0 == b.1 && a.1 == b.0,
                    (None, None) => true,
                    _ => false,
                }
            },
            (Err(a), Err(b)) => a == b,
            _ => false,
        },
{
    match clip {
        Clip::Whole => {},
        Clip::Min(_) | Clip::Middle(_) => {
            if let Some(d) = total {
                lemma_medians(w, h, d);
            }
        },
        Clip::Nth(_) => {
            assert(larger(w, h) == larger(h, w));
        },
    }
}

/// Without clipping nothing is left out, and every Nth frame leaves out frames only: all of a frame is
/// kept, from the first one on, and there are as many as steps of `n` frames reach.
pub proof fn steps_keep_whole_frames(n: usize, w: nat, h: nat, total: Option<nat>, even: bool)
    requires
        n > 0,
    ensures
        planned(Clip::Whole, w, h, total, even) matches Ok(p) && {
            &&& p.w == w && p.h == h && p.crop is None
            &&& p.start == 0 && p.take is None && p.nth == 1 && p.frames == total
        },
        planned(Clip::Nth(Some(n)), w, h, total, even) matches Ok(p) && {
            &&& p.w == w && p.h == h && p.crop is None
            &&& p.start == 0 && p.take is None && p.nth == n
            &&& match (total, p.frames) {
                (Some(d), Some(k)) => k * n >= d && (d > 0 ==> (k - 1) * n < d) && (d == 0 ==> k
                    == 0),
                (None, None) => true,
                _ => false,
            }
        },
{
    if let Some(d) = total {
        lemma_rounded_up_small(d, n as nat);
    }
}

/// `nth` without a count takes the smallest step that makes the frame count no longer than the larger
/// of width and height, and keeps whole frames from the first one on.
pub proof fn nth_takes_the_smallest_step(w: nat, h: nat, d: nat, even: bool)
    requires
        w > 0 || h > 0,
    ensures
        planned(Clip::Nth(None), w, h, Some(d), even) matches Ok(p) && {
            &&& p.w == w && p.h == h && p.crop is None && p.start == 0 && p.take is None
            &&& p.nth >= 1
            &&& p.nth * w >= d || p.nth * h >= d
            &&& p.nth > 1 ==> (p.nth - 1) * w < d && (p.nth - 1) * h < d
            &&& p.frames matches Some(k) && k * p.nth >= d && (d > 0 ==> (k - 1) * p.nth < d)
        },
{
    let s = larger(w, h);
    let n = rounded_up(d, s);
    lemma_rounded_up_small(d, s);
    let k = larger(n, 1);
    lemma_rounded_up_small(d, k);
    assert(k * s >= n * s) by (nonlinear_arith)
        requires
            k >= n,
            s >= 0,
    ;
    if k > 1 {
        let m = k - 1;
        assert(m * w <= m * s && m * h <= m * s) by (nonlinear_arith)
            requires
                w <= s,
                h <= s,
                m >= 0,
        ;
        assert(d > 0) by {
            if d == 0 {
                assert(n <= 0);
            }
        }
    }
}

/// What can be clipped when the frame count is not known: the whole video and every `n`th frame, but
/// neither what depends on the count nor a step that is not given.
pub proof fn clipping_by_size_needs_the_frame_count(anchor: Anchor, w: nat, h: nat, even: bool)
    ensures
        planned(Clip::Min(anchor), w, h, None, even) == Err::<PlanView, Fault>(
            Fault::ClipNeedsFrameCount,
        ),
        planned(Clip::Middle(anchor), w, h, None, even) == Err::<PlanView, Fault>(
            Fault::ClipNeedsFrameCount,
        ),
        planned(Clip::Nth(None), w, h, None, even) == Err::<PlanView, Fault>(Fault::NthNeedsCount),
        planned(Clip::Whole, w, h, None, even) is Ok,
        forall|n: usize| planned(Clip::Nth(Some(n)), w, h, None, even) is Ok,
{
}

} // verus!
