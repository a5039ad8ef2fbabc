//! How the audio is made to last as long as the rotated video.

use vstd::prelude::*;
use vstd::arithmetic::power2::{
    lemma2_to64, lemma2_to64_rest, lemma_pow2_pos, lemma_pow2_strictly_increases, lemma_pow2_unfold,
    pow2,
};
use crate::binary64::{
    difference, fraction, halves_are_exact, magnitude_of, one, product, quotient, small_fractions,
    sum, whole_numbers_are_exact, Float,
};
use crate::clip::count;
use crate::config::{text_of, AudioMode, Config};
use crate::decimals::{limit, Real, RealView};
use crate::fixed::{fixed, put_fixed};
use crate::number::{decimal, put_decimal};
use crate::reals::{
    counted, divide, fixed_real, is_above_zero, lemma_whole_real, multiply, positive,
    put_fixed_real, real_count, real_product, real_quotient, to_whole, whole_real,
};
use crate::rounding::{
    lemma_exact, lemma_rounded_scale, lemma_rounded_zero, rounding_is_idempotent,
    rounding_is_monotonic,
};
use crate::text::{join, joined, put, texts};
use crate::track::{half, two};

verus! {

/// The filters that make the audio fit.
#[derive(Clone, Debug)]
pub struct AudioPlan {
    pub reversed: bool,
    /// Speed factor: >1 plays faster (shorter), <1 slower (longer).
    pub speed: Real,
    pub new_duration: Option<Real>,
    pub filter: String,
}

/// One billionth.
pub open spec fn billionth() -> int {
    fraction(1, 1_000_000_000) as int
}

/// The frames that go in and come out, and the source frames per volume frame.
pub struct Timing {
    pub in_frames: Option<nat>,
    pub in_fps: RealView,
    pub nth: nat,
    pub out_frames: Option<nat>,
    pub out_fps: RealView,
}

impl Timing {
    /// The duration of the output, when both frame counts are known.
    pub open spec fn duration(self) -> Option<RealView> {
        match (self.in_frames, self.out_frames) {
            (Some(_), Some(o)) => Some(real_quotient(whole_real(o), self.out_fps)),
            _ => None,
        }
    }

    /// How much faster the audio must play. With unknown counts (streaming) the frame count is
    /// unchanged, so only the rates matter.
    pub open spec fn speed(self) -> RealView {
        match (self.in_frames, self.duration()) {
            (Some(i), Some(new)) => {
                let old = real_quotient(
                    real_product(whole_real(i), whole_real(self.nth)),
                    self.in_fps,
                );
                if positive(new) {
                    real_quotient(old, new)
                } else {
                    RealView::Finite(one() as int)
                }
            },
            _ => real_quotient(real_product(whole_real(self.nth), self.out_fps), self.in_fps),
        }
    }
}

/// A speed that needs a stage of 2.
pub open spec fn too_fast(t: int) -> bool {
    t > 0 && (t > sum(two(), billionth()) || magnitude_of(difference(t, two())) <= billionth())
}

/// A speed that needs a stage of 0.5.
pub open spec fn too_slow(t: int) -> bool {
    0 < t < one() && (t < difference(half(), billionth()) || magnitude_of(difference(t, half()))
        <= billionth())
}

/// How many stages of 2 a speed needs.
pub open spec fn fast_stages(t: int) -> nat
    decreases t,
{
    if too_fast(t) {
        1 + fast_stages(t / 2)
    } else {
        0
    }
}

/// What is left of a speed after the stages of 2.
pub open spec fn after_fast(t: int) -> int
    decreases t,
{
    if too_fast(t) {
        after_fast(t / 2)
    } else {
        t
    }
}

/// How many stages of 0.5 a speed needs.
pub open spec fn slow_stages(t: int) -> nat
    decreases 2 * one() - t,
{
    if too_slow(t) {
        1 + slow_stages(2 * t)
    } else {
        0
    }
}

/// What is left of a speed after the stages of 0.5.
pub open spec fn after_slow(t: int) -> int
    decreases 2 * one() - t,
{
    if too_slow(t) {
        after_slow(2 * t)
    } else {
        t
    }
}

/// The same text some times.
pub open spec fn repeated(s: Seq<char>, n: nat) -> Seq<Seq<char>> {
    Seq::new(n, |i: int| s)
}

/// The tempo filters of a speed: stages of 2 and 0.5, which the filter takes, and what is left.
pub open spec fn tempo_chain(speed: int) -> Seq<Seq<char>> {
    let mid = after_fast(speed);
    let rest = after_slow(mid);
    repeated("atempo=2.0"@, fast_stages(speed)) + repeated("atempo=0.5"@, slow_stages(mid)) + (
    if magnitude_of(difference(rest, one() as int)) > billionth() {
        seq!["atempo="@ + fixed(rest, 9)]
    } else {
        Seq::empty()
    })
}

/// The sample rate, at least 1.
pub open spec fn known_rate(sample_rate: nat) -> nat {
    if sample_rate < 1 {
        1
    } else {
        sample_rate
    }
}

/// The sample rate at which the audio plays with a speed.
pub open spec fn new_rate(sample_rate: nat, speed: RealView) -> nat {
    let n = real_count(
        RealView::Finite((known_rate(sample_rate) * one()) as int),
        speed,
        u64::MAX as int,
    ) as nat;
    if n < 1 {
        1
    } else {
        n
    }
}

/// A speed that is not 1, but for a billionth.
pub open spec fn changes(speed: RealView) -> bool {
    match speed {
        RealView::Finite(_) | RealView::NegativeZero => magnitude_of(
            difference(speed.amount(), one() as int),
        ) > billionth(),
        RealView::Infinite(_) => true,
        RealView::Undefined => false,
    }
}

/// Stages of 2 and 0.5 lead to such a speed: it is positive and finite, or no number at all.
pub open spec fn reachable(speed: RealView) -> bool {
    match speed {
        RealView::Finite(v) => v > 0,
        RealView::NegativeZero | RealView::Infinite(_) => false,
        RealView::Undefined => true,
    }
}

/// Tells whether stages of 2 and 0.5 lead to a speed.
pub fn can_reach(speed: Real) -> (r: bool)
    requires
        speed.wf(),
    ensures
        r == reachable(speed@),
{
    match speed {
        Real::Finite(v) => v.is_positive(),
        Real::Infinite(_) => false,
        Real::Undefined => true,
    }
}

/// The filters that change the speed.
pub open spec fn speed_chain(mode: AudioMode, speed: RealView, sample_rate: nat) -> Seq<Seq<char>> {
    if changes(speed) {
        match mode {
            AudioMode::Tempo => tempo_chain(
                match speed {
                    RealView::Finite(v) => v,
                    _ => 0,
                },
            ),
            AudioMode::Rate => seq![
                "asetrate="@ + decimal(new_rate(sample_rate, speed)),
                "aresample="@ + decimal(known_rate(sample_rate)),
            ],
            AudioMode::Keep => Seq::empty(),
        }
    } else {
        Seq::empty()
    }
}

/// The filters that make the audio fit.
pub open spec fn audio_chain(
    reversed: bool,
    mode: AudioMode,
    t: Timing,
    sample_rate: nat,
    more: Option<Seq<char>>,
) -> Seq<Seq<char>> {
    (if reversed {
        seq!["areverse"@]
    } else {
        Seq::empty()
    }) + speed_chain(mode, t.speed(), sample_rate) + (match t.duration() {
        Some(d) => seq!["atrim=duration="@ + fixed_real(d, 6)],
        None => Seq::empty(),
    }) + seq!["asetpts=PTS-STARTPTS"@] + (match more {
        Some(x) => seq![x],
        None => Seq::empty(),
    })
}

/// Halving a number of full precision above the smallest exponent is exact.
proof fn lemma_halving(t: Float)
    requires
        t.wf(),
        t.e > -1074,
        !t.neg,
    ensures
        quotient(t.value(), two()) == t.value() / 2,
        2 * (t.value() / 2) == t.value(),
{
    let k = (t.e + 1073) as nat;
    let m = t.m as nat;
    let h = m * pow2(k);
    let u = one();
    lemma_pow2_pos(1074);
    lemma_pow2_pos(k);
    lemma_pow2_unfold(k + 1);
    assert(m * (2 * pow2(k)) == 2 * (m * pow2(k))) by (nonlinear_arith);
    assert(t.value() == 2 * h);
    assert((2 * h) * u == h * (2 * u)) by (nonlinear_arith);
    lemma_rounded_scale(h, 1, 2 * u, 53);
    assert(1 * (2 * u) == 2 * u);
    lemma2_to64();
    lemma2_to64_rest();
    lemma_exact(m, k, 53);
    assert(h * (2 * u) >= 0);
}

/// Doubling is exact.
proof fn lemma_doubling(t: Float)
    requires
        t.wf(),
        !t.neg,
    ensures
        product(t.value(), two()) == 2 * t.value(),
{
    let k = (t.e + 1074) as nat;
    let m = t.m as nat;
    let v = m * pow2(k);
    let u = one();
    lemma_pow2_pos(1074);
    lemma_pow2_unfold(k + 1);
    assert(v * (2 * u) == (2 * v) * u) by (nonlinear_arith);
    lemma_rounded_scale(2 * v, 1, u, 53);
    assert(1 * u == u);
    assert(m * (2 * pow2(k)) == 2 * (m * pow2(k))) by (nonlinear_arith);
    lemma2_to64();
    lemma2_to64_rest();
    lemma_exact(m, k + 1, 53);
    assert(v * (2 * u) >= 0);
}

/// A number of at least one has bits to spare below the point.
proof fn lemma_large(t: Float)
    requires
        t.wf(),
        t.value() >= one(),
    ensures
        t.e > -1074,
        !t.neg,
{
    lemma_pow2_pos(1074);
    lemma_pow2_pos((t.e + 1074) as nat);
    if t.neg {
        assert(t.m * pow2((t.e + 1074) as nat) >= 0);
    }
    if t.e == -1074 {
        lemma2_to64();
        lemma2_to64_rest();
        lemma_pow2_strictly_increases(64, 1074);
        assert(t.m * 1 == t.m);
    }
}

/// A speed that needs a stage of 2 is at least one.
proof fn lemma_too_fast(t: int)
    requires
        too_fast(t),
    ensures
        t >= one(),
{
    let u = one();
    let c = fraction(1, 1_000_000_000);
    small_fractions(1_000_000_000);
    whole_numbers_are_exact(1);
    whole_numbers_are_exact(2);
    assert(1 * u == u);
    if t < u {
        rounding_is_monotonic(u, (2 * u - t) as nat, 1, 53);
        rounding_is_monotonic(2 * u, 2 * u + c, 1, 53);
    }
}

/// How much faster the audio must play.
pub fn audio_speed(
    in_frames: Option<usize>,
    in_fps: Real,
    nth: usize,
    out_frames: Option<usize>,
    out_fps: Real,
) -> (r: (Real, Option<Real>))
    requires
        in_fps.wf(),
        out_fps.wf(),
    ensures
        r.0.wf(),
        r.0@ == timing(in_frames, in_fps, nth, out_frames, out_fps).speed(),
        match r.1 {
            Some(d) => timing(in_frames, in_fps, nth, out_frames, out_fps).duration() == Some(d@)
                && d.wf(),
            None => timing(in_frames, in_fps, nth, out_frames, out_fps).duration() is None,
        },
{
    match (in_frames, out_frames) {
        (Some(i), Some(o)) => {
            let source = multiply(to_whole(i as u64), to_whole(nth as u64));
            let old_dur = divide(source, in_fps);
            let new_dur = divide(to_whole(o as u64), out_fps);
            let speed = if is_above_zero(new_dur) {
                divide(old_dur, new_dur)
            } else {
                Real::Finite(Float::from_int(1))
            };
            assert(1 * one() == one());
            (speed, Some(new_dur))
        },
        _ => (divide(multiply(to_whole(nth as u64), out_fps), in_fps), None),
    }
}

/// The timing of a plan.
pub open spec fn timing(
    in_frames: Option<usize>,
    in_fps: Real,
    nth: usize,
    out_frames: Option<usize>,
    out_fps: Real,
) -> Timing {
    Timing {
        in_frames: count(in_frames),
        in_fps: in_fps@,
        nth: nth as nat,
        out_frames: count(out_frames),
        out_fps: out_fps@,
    }
}

fn is_too_fast(t: Float) -> (r: bool)
    requires
        t.wf(),
        t.e <= 0x20_0000,
    ensures
        r == too_fast(t.value()),
{
    let two_f = Float::from_int(2);
    let c = Float::ratio(1, 1_000_000_000);
    t.is_positive() && (two_f.plus(c).less(t) || !c.less(t.minus(two_f).abs()))
}

fn is_too_slow(t: Float) -> (r: bool)
    requires
        t.wf(),
        t.e <= 0x20_0000,
    ensures
        r == too_slow(t.value()),
{
    let h = Float::ratio(1, 2);
    let c = Float::ratio(1, 1_000_000_000);
    assert(1 * one() == one());
    t.is_positive() && t.less(Float::from_int(1)) && (t.less(h.minus(c)) || !c.less(
        t.minus(h).abs(),
    ))
}

fn put_tempo(chain: &mut Vec<String>, speed: Float)
    requires
        speed.wf(),
        speed.e <= 0x10_0000,
        speed.value() > 0,
    ensures
        texts(final(chain)@) == texts(old(chain)@) + tempo_chain(speed.value()),
{
    let ghost before = texts(chain@);
    let ghost v = speed.value();
    let two_f = Float::from_int(2);
    proof {
        lemma_pow2_pos(1074);
        two_f.lemma_nonzero();
    }
    let mut t = speed;
    let ghost mut n: nat = 0;
    assert(before =~= before + repeated("atempo=2.0"@, 0));
    while is_too_fast(t)
        invariant
            t.wf(),
            t.e <= 0x10_0000,
            t.value() > 0,
            two_f.wf() && two_f.e <= 76 && two_f.m != 0 && two_f.value() == two(),
            texts(chain@) == before + repeated("atempo=2.0"@, n),
            fast_stages(v) == n + fast_stages(t.value()),
            after_fast(v) == after_fast(t.value()),
        decreases t.value(),
    {
        proof {
            lemma_too_fast(t.value());
            lemma_large(t);
            lemma_halving(t);
            lemma_pow2_pos(1074);
        }
        let ghost old_t = t;
        put(chain, "atempo=2.0");
        t = t.over(two_f);
        proof {
            assert(repeated("atempo=2.0"@, n).push("atempo=2.0"@) =~= repeated(
                "atempo=2.0"@,
                n + 1,
            ));
            assert(texts(chain@) =~= before + repeated("atempo=2.0"@, n + 1));
            n = n + 1;
            lemma_smaller(t, old_t);
        }
    }
    let ghost mid = t.value();
    let ghost front = texts(chain@);
    let ghost mut k: nat = 0;
    assert(front =~= front + repeated("atempo=0.5"@, 0));
    while is_too_slow(t)
        invariant
            t.wf(),
            t.e <= 0x10_0000,
            t.value() > 0,
            two_f.wf() && two_f.e <= 76 && two_f.m != 0 && two_f.value() == two(),
            texts(chain@) == front + repeated("atempo=0.5"@, k),
            slow_stages(mid) == k + slow_stages(t.value()),
            after_slow(mid) == after_slow(t.value()),
        decreases 2 * one() - t.value(),
    {
        proof {
            t.lemma_nonzero();
            lemma_sign(t);
            lemma_doubling(t);
        }
        put(chain, "atempo=0.5");
        t = t.times(two_f);
        proof {
            assert(repeated("atempo=0.5"@, k).push("atempo=0.5"@) =~= repeated(
                "atempo=0.5"@,
                k + 1,
            ));
            assert(texts(chain@) =~= front + repeated("atempo=0.5"@, k + 1));
            k = k + 1;
            lemma_two_at_most(t);
        }
    }
    let ghost most = texts(chain@);
    let u = Float::from_int(1);
    assert(1 * one() == one());
    if Float::ratio(1, 1_000_000_000).less(t.minus(u).abs()) {
        let mut last = "atempo=".to_owned();
        put_fixed(&mut last, t, 9);
        put(chain, last.as_str());
        assert(texts(chain@) =~= most + seq!["atempo="@ + fixed(t.value(), 9)]);
    } else {
        assert(texts(chain@) =~= most + Seq::<Seq<char>>::empty());
    }
    assert(texts(chain@) =~= before + tempo_chain(v));
}

/// A smaller number has no larger exponent.
proof fn lemma_smaller(a: Float, b: Float)
    requires
        a.wf(),
        b.wf(),
        0 <= a.value() <= b.value(),
    ensures
        a.e <= b.e,
{
    a.lemma_larger_exponent(b);
}

/// A positive number has no sign.
proof fn lemma_sign(t: Float)
    requires
        t.value() > 0,
    ensures
        !t.neg,
{
    lemma_pow2_pos((t.e + 1074) as nat);
    let p = pow2((t.e + 1074) as nat);
    assert(t.m * p >= 0) by (nonlinear_arith)
        requires
            p > 0,
    ;
}

/// A number of at most two has a small exponent.
proof fn lemma_two_at_most(t: Float)
    requires
        t.wf(),
        0 < t.value() <= 2 * one(),
    ensures
        t.e <= 1,
{
    lemma_sign(t);
    if t.e > 1 {
        lemma_pow2_strictly_increases(1075, (t.e + 1074) as nat);
        lemma_pow2_unfold(1075);
        let p = pow2((t.e + 1074) as nat);
        let m = t.m;
        assert(m * p >= p) by (nonlinear_arith)
            requires
                m >= 1,
                p >= 0,
        ;
    }
}

/// Plans the audio. `in_frames` = frames of the volume (after clipping); `nth` frames of source time
/// per volume frame. With unknown counts (streaming) the frame count is unchanged, so only the rates
/// matter.
pub fn audio_plan(
    cfg: &Config,
    reversed: bool,
    in_frames: Option<usize>,
    in_fps: Real,
    nth: usize,
    out_frames: Option<usize>,
    out_fps: Real,
    sample_rate: u32,
) -> (r: AudioPlan)
    requires
        in_fps.wf(),
        out_fps.wf(),
        cfg.audio_mode is Tempo ==> reachable(
            timing(in_frames, in_fps, nth, out_frames, out_fps).speed(),
        ),
    ensures
        ({
            let t = timing(in_frames, in_fps, nth, out_frames, out_fps);
            &&& r.reversed == reversed
            &&& r.speed.wf() && r.speed@ == t.speed()
            &&& match r.new_duration {
                Some(d) => d.wf() && t.duration() == Some(d@),
                None => t.duration() is None,
            }
            &&& r.filter@ == joined(
                audio_chain(
                    reversed,
                    cfg.audio_mode,
                    t,
                    sample_rate as nat,
                    text_of(cfg.audio_filters),
                ),
                ","@,
            )
        }),
{
    let ghost tm = timing(in_frames, in_fps, nth, out_frames, out_fps);
    let (speed, new_duration) = audio_speed(in_frames, in_fps, nth, out_frames, out_fps);
    let mut chain: Vec<String> = Vec::new();
    if reversed {
        put(&mut chain, "areverse");
    }
    let ghost head = texts(chain@);
    assert(head =~= if reversed {
        seq!["areverse"@]
    } else {
        Seq::empty()
    });
    put_speed(&mut chain, cfg.audio_mode, speed, sample_rate);
    let ghost paced = texts(chain@);
    if let Some(d) = new_duration {
        let mut trim = "atrim=duration=".to_owned();
        put_fixed_real(&mut trim, d, 6);
        put(&mut chain, trim.as_str());
    }
    put(&mut chain, "asetpts=PTS-STARTPTS");
    if let Some(more) = &cfg.audio_filters {
        put(&mut chain, more.as_str());
    }
    assert(texts(chain@) =~= audio_chain(
        reversed,
        cfg.audio_mode,
        tm,
        sample_rate as nat,
        text_of(cfg.audio_filters),
    ));
    AudioPlan { reversed, speed, new_duration, filter: join(&chain, ",") }
}

fn is_changed(speed: Real) -> (r: bool)
    requires
        speed.wf(),
    ensures
        r == changes(speed@),
{
    assert(1 * one() == one());
    match speed {
        Real::Finite(v) => Float::ratio(1, 1_000_000_000).less(v.minus(Float::from_int(1)).abs()),
        Real::Infinite(_) => true,
        Real::Undefined => false,
    }
}

fn put_speed(chain: &mut Vec<String>, mode: AudioMode, speed: Real, sample_rate: u32)
    requires
        speed.wf(),
        mode is Tempo ==> reachable(speed@),
    ensures
        texts(final(chain)@) == texts(old(chain)@) + speed_chain(mode, speed@, sample_rate as nat),
{
    let ghost before = texts(chain@);
    if !is_changed(speed) {
        assert(texts(chain@) =~= before + Seq::<Seq<char>>::empty());
        return;
    }
    match mode {
        AudioMode::Tempo => {
            if let Real::Finite(v) = speed {
                put_tempo(chain, v);
            }
        },
        AudioMode::Rate => {
            let sr: u64 = if sample_rate < 1 {
                1
            } else {
                sample_rate as u64
            };
            let n = counted(Real::Finite(Float::from_int(sr)), speed);
            let new_sr: u64 = if n < 1 {
                1
            } else {
                n
            };
            let mut a = "asetrate=".to_owned();
            put_decimal(&mut a, new_sr);
            put(chain, a.as_str());
            let mut b = "aresample=".to_owned();
            put_decimal(&mut b, sr);
            put(chain, b.as_str());
            assert(texts(chain@) =~= before + speed_chain(mode, speed@, sample_rate as nat));
        },
        AudioMode::Keep => {
            assert(texts(chain@) =~= before + Seq::<Seq<char>>::empty());
        },
    }
}

/// The stages of 2 halve the speed, without error.
proof fn lemma_fast(t: Float)
    requires
        t.wf(),
        t.value() > 0,
    ensures
        t.value() == pow2(fast_stages(t.value())) * after_fast(t.value()),
        exists|r: Float| #[trigger] r.wf() && r.value() == after_fast(t.value()) && r.value() > 0,
    decreases t.value(),
{
    let v = t.value();
    lemma2_to64();
    if too_fast(v) {
        lemma_too_fast(v);
        lemma_large(t);
        lemma_halving(t);
        lemma_sign(t);
        lemma_pow2_pos(1074);
        let h = Float { neg: false, m: t.m, e: (t.e - 1) as i128 };
        let k = (t.e + 1073) as nat;
        lemma_pow2_unfold(k + 1);
        let (m, p) = (t.m, pow2(k));
        assert(m * (2 * p) == 2 * (m * p)) by (nonlinear_arith);
        assert(h.value() == v / 2);
        lemma_fast(h);
        let n = fast_stages(v / 2);
        lemma_pow2_unfold(n + 1);
        let (q, a) = (pow2(n), after_fast(v / 2));
        assert((2 * q) * a == 2 * (q * a)) by (nonlinear_arith);
    } else {
        assert(t.wf() && t.value() == after_fast(v));
        assert(1 * v == v);
    }
}

/// The stages of 0.5 double the speed, without error.
proof fn lemma_slow(t: int)
    requires
        t > 0,
    ensures
        pow2(slow_stages(t)) * t == after_slow(t),
    decreases 2 * one() - t,
{
    lemma2_to64();
    if too_slow(t) {
        lemma_slow(2 * t);
        let n = slow_stages(2 * t);
        lemma_pow2_unfold(n + 1);
        let q = pow2(n);
        assert(q * (2 * t) == (2 * q) * t) by (nonlinear_arith);
    } else {
        assert(1 * t == t);
    }
}

/// A stage of 0.5 does not make a speed too fast.
proof fn lemma_slow_stage(t: int)
    requires
        too_slow(t),
    ensures
        !too_fast(2 * t),
{
    let u = one();
    let c = fraction(1, 1_000_000_000);
    let h = pow2(1073);
    small_fractions(1_000_000_000);
    whole_numbers_are_exact(2);
    halves_are_exact(1);
    assert(1 * h == h);
    lemma_pow2_unfold(1073);
    let q = pow2(1072);
    lemma2_to64_rest();
    lemma_exact(1, 1072, 53);
    assert(1 * q == q);
    rounding_is_monotonic(2 * u, 2 * u + c, 1, 53);
    if t > h + q {
        rounding_is_monotonic(q, (t - h) as nat, 1, 53);
        rounding_is_monotonic((h - c) as nat, h, 1, 53);
    } else {
        rounding_is_monotonic(h, (2 * u - 2 * t) as nat, 1, 53);
    }
}

/// The stages of 0.5 end with a speed that is neither too fast nor too slow.
proof fn lemma_after_slow(t: int)
    requires
        t > 0,
        !too_fast(t),
    ensures
        !too_fast(after_slow(t)),
        !too_slow(after_slow(t)),
    decreases 2 * one() - t,
{
    if too_slow(t) {
        lemma_slow_stage(t);
        lemma_after_slow(2 * t);
    }
}

/// The stages of 2 end with a speed that is not too fast.
proof fn lemma_after_fast(t: int)
    requires
        t > 0,
    ensures
        !too_fast(after_fast(t)),
    decreases t,
{
    if too_fast(t) {
        lemma_too_fast(t);
        lemma_pow2_pos(1074);
        lemma_pow2_strictly_increases(0, 1074);
        lemma2_to64();
        lemma_after_fast(t / 2);
    }
}

/// The tempo stages multiply to the speed: what is left, doubled once for each stage of 2, is the
/// speed doubled once for each stage of 0.5.
pub proof fn tempo_stages_make_the_speed(speed: Float)
    requires
        speed.wf(),
        speed.value() > 0,
    ensures
        ({
            let mid = after_fast(speed.value());
            pow2(fast_stages(speed.value())) * after_slow(mid) == pow2(slow_stages(mid))
                * speed.value()
        }),
{
    let v = speed.value();
    let mid = after_fast(v);
    lemma_fast(speed);
    lemma_slow(mid);
    let (f, s) = (pow2(fast_stages(v)), pow2(slow_stages(mid)));
    assert(f * (s * mid) == s * (f * mid)) by (nonlinear_arith);
}

/// What is left after the tempo stages needs neither another stage of 2 nor one of 0.5.
pub proof fn tempo_stages_suffice(speed: Float)
    requires
        speed.wf(),
        speed.value() > 0,
    ensures
        ({
            let rest = after_slow(after_fast(speed.value()));
            !too_fast(rest) && !too_slow(rest)
        }),
{
    lemma_fast(speed);
    lemma_after_fast(speed.value());
    lemma_after_slow(after_fast(speed.value()));
}

/// Audio whose video keeps its frames and its rate is not stretched: it plays at its own speed, and
/// no filter changes that.
pub proof fn unchanged_video_keeps_the_speed(mode: AudioMode, frames: nat, fps: int, sample_rate: nat)
    requires
        frames <= u64::MAX,
        fps > 0,
        quotient(fraction(frames, 1) as int, fps) > 0,
    ensures
        ({
            let t = Timing {
                in_frames: Some(frames),
                in_fps: RealView::Finite(fps),
                nth: 1,
                out_frames: Some(frames),
                out_fps: RealView::Finite(fps),
            };
            &&& quotient(fraction(frames, 1) as int, fps) < limit() ==> t.speed() == RealView::Finite(
                one() as int,
            )
            &&& speed_chain(mode, t.speed(), sample_rate) == Seq::<Seq<char>>::empty()
        }),
{
    let u = one();
    let n = fraction(frames, 1);
    lemma_pow2_pos(1074);
    whole_numbers_are_exact(1);
    assert(1 * u == u);
    lemma_whole_real(frames);
    lemma_whole_real(1);
    // a count times one is the count
    lemma_rounded_scale(n, 1, u, 53);
    rounding_is_idempotent(frames * u, 1, 53);
    assert(product(n as int, u as int) == n) by {
        assert(n * u >= 0);
    }
    // a duration divided by itself is one
    let d = quotient(n as int, fps) as nat;
    lemma_rounded_scale(u, 1, d, 53);
    assert(u * d == d * u) by (nonlinear_arith);
    assert(1 * d == d);
    assert(d * u >= 0);
    assert(quotient(d as int, d as int) == u);
    lemma2_to64();
    lemma_pow2_strictly_increases(0, 1024);
    let p = pow2(1024);
    assert(p * u > u) by (nonlinear_arith)
        requires
            p > 1,
            u > 0,
    ;
    lemma_rounded_zero(0, 53);
    lemma2_to64();
    assert(0 * pow2(0) == 0);
}

} // verus!
