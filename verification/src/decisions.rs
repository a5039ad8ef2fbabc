//! What the decisions of a run come to: how many frames there are, where a clip starts, how long a
//! segment lasts, how much memory may be taken, and which format is used.

use vstd::prelude::*;
use vstd::arithmetic::div_mod::lemma_fundamental_div_mod;
use vstd::arithmetic::power2::{
    lemma2_to64, lemma2_to64_rest, lemma_pow2_adds, lemma_pow2_pos, pow2,
};
use crate::accuracy::{lemma_one_is_large, lemma_sum_error};
use crate::audio::timing;
use crate::binary64::{
    floor_of, fraction, half_away, halves_are_exact, magnitude_of, one, product, quotient, sum,
    whole_numbers_are_exact,
};
use crate::clip::ClipPlan;
use crate::config::Config;
use crate::decimals::{Real, RealView};
use crate::ffmpeg::segment_time;
use crate::fixed::fixed;
use crate::job::{
    asked_format, audio_seek, budget_of, decode_filters, job_path, job_sides, plain_format, quarter,
    total_of, video_seek,
};
use crate::geometry::output_sides;
use crate::number::{decimal, decimal_reads_back, digit, lemma_decimal_digits, number, NumberFault};
use crate::pacing::{
    lemma_bounds, lemma_duration, lemma_finite_amount, lemma_near_both, lemma_near_over,
    lemma_near_product, lemma_near_quotient, lemma_near_times, lemma_near_whole, lemma_ratio, near,
    ordinary, parts,
};
use crate::pixfmt::named_format;
use crate::probe::ProbeInfo;
use crate::reals::{lemma_whole_real, real_count, real_of, real_quotient, real_sum, whole_real};
use crate::rounding::{lemma_exact, lemma_rounded_scale};
use crate::text::{lemma_position, lemma_trimmed_already, lower, position, trim};
use crate::track::{half, tracked_sides};
use crate::util::divided;

verus! {

/// A number of frames is a duration times a rate: the nearest whole number, but for rounding.
pub open spec fn lasts(n: nat, duration: int, fps: int) -> bool {
    let exact = duration * fps;
    let uu = one() * one();
    0x20_0000_0000_0000 * magnitude_of(2 * (n * uu) - 2 * exact) <= 0x20_0000_0000_0000 * uu + 8
        * exact
}

/// The frames are counted where the input says how many it has and nothing changes the rate;
/// otherwise they are estimated: the duration times the rate, to the nearest frame. Without a
/// duration the number is unknown. Estimates up to 2^30 frames are meant, of a frame at least.
pub proof fn frames_are_counted_or_estimated(cfg: Config, info: ProbeInfo)
    ensures
        cfg.fps is None ==> (info.nb_frames matches Some(n) ==> (0 < n <= usize::MAX ==> total_of(
            cfg,
            info,
        ) == Some(n as nat))),
        (cfg.fps is Some || info.nb_frames is None) && info.duration is None ==> total_of(
            cfg,
            info,
        ) is None,
        (cfg.fps is Some || info.nb_frames is None) && info.duration is Some ==> {
            let (d, f) = (info.duration->Some_0@, info.fps_f@);
            d is Finite && f is Finite && d->Finite_0 > 0 && f->Finite_0 > 0 && one() * one()
                <= d->Finite_0 * f->Finite_0 <= 0x4000_0000 * (one() * one()) ==> (total_of(
                cfg,
                info,
            ) matches Some(n) && lasts(n, d->Finite_0, f->Finite_0))
        },
{
    if (cfg.fps is Some || info.nb_frames is None) && info.duration is Some {
        let (d, f) = (info.duration->Some_0@, info.fps_f@);
        if d is Finite && f is Finite {
            let (a, b) = (d->Finite_0, f->Finite_0);
            if a > 0 && b > 0 && one() * one() <= a * b <= 0x4000_0000 * (one() * one()) {
                lemma_estimate(a, b);
            }
        }
    }
}

proof fn lemma_estimate(d: int, f: int)
    requires
        d > 0,
        f > 0,
        one() * one() <= d * f <= 0x4000_0000 * (one() * one()),
    ensures
        ({
            let n = real_count(RealView::Finite(d), RealView::Finite(f), usize::MAX as int);
            n > 0 && lasts(n as nat, d, f)
        }),
{
    let u = one() as int;
    let uu = u * u;
    let k = parts();
    lemma_one_is_large();
    lemma_bounds();
    assert(uu >= k * u) by (nonlinear_arith)
        requires
            uu == u * u,
            u >= k,
            u > 0,
    ;
    let x = d * f;
    lemma_near_product(d, f);
    let r = product(d, f);
    let ru = r * u;
    assert(2 * ru >= uu && ru <= 0x4000_0001 * uu);
    let t = pow2(600) as int;
    assert(r <= 0x4000_0001 * u && u <= 2 * r) by (nonlinear_arith)
        requires
            ru == r * u,
            uu == u * u,
            ru <= 0x4000_0001 * uu,
            2 * ru >= uu,
            u > 0,
    ;
    assert(0x4000_0001 * u <= t * u) by (nonlinear_arith)
        requires
            t >= 0x4000_0001,
            u > 0,
    ;
    lemma_finite_amount(r);
    let n = half_away(r);
    lemma_fundamental_div_mod(2 * r + u, 2 * u);
    let nu = n * u;
    assert((2 * u) * n == 2 * nu) by (nonlinear_arith)
        requires
            nu == n * u,
    ;
    assert(2 * nu <= 2 * r + u < 2 * nu + 2 * u);
    let nuu = n * uu;
    assert(nuu == nu * u) by (nonlinear_arith)
        requires
            nuu == n * uu,
            uu == u * u,
            nu == n * u,
    ;
    assert(2 * nuu <= 2 * ru + uu && 2 * ru + uu <= 2 * nuu + 2 * uu) by (nonlinear_arith)
        requires
            2 * nu <= 2 * r + u,
            2 * r + u <= 2 * nu + 2 * u,
            nuu == nu * u,
            ru == r * u,
            uu == u * u,
            u > 0,
    ;
    assert(n > 0) by (nonlinear_arith)
        requires
            2 * r + u < 2 * (n * u) + 2 * u,
            2 * r >= u,
            u > 0,
    ;
    assert(n <= 0x4000_0002) by (nonlinear_arith)
        requires
            2 * (n * u) <= 2 * r + u,
            r <= 0x4000_0001 * u,
            u > 0,
    ;
}

/// A whole number less a part of one, divided by a rate.
proof fn lemma_earlier(n: nat, c: int, parts_of_one: int, f: int)
    requires
        1 <= n < 0x4_0000_0000_0000,
        ordinary(f),
        2 <= parts_of_one <= 4,
        c * parts_of_one == one(),
        c > 0,
    ensures
        ({
            let a = real_sum(whole_real(n), real_of(true, -c));
            &&& real_quotient(a, RealView::Finite(f)) matches RealView::Finite(v) && v > 0 && near(
                (parts_of_one * v) * f,
                ((parts_of_one * n - 1) * one()) * one(),
                10,
            )
        }),
{
    let u = one() as int;
    let p = pow2(100) as int;
    let m = parts_of_one;
    lemma_bounds();
    lemma_one_is_large();
    whole_numbers_are_exact(n);
    lemma_whole_real(n);
    let w = n * u;
    assert(w >= u && w <= 0x4_0000_0000_0000 * u) by (nonlinear_arith)
        requires
            w == n * u,
            1 <= n <= 0x4_0000_0000_0000,
            u > 0,
    ;
    assert(2 * c <= u && 4 * c >= u) by (nonlinear_arith)
        requires
            c * m == u,
            2 <= m <= 4,
            c > 0,
    ;
    let t = pow2(600) as int;
    assert(u <= t * u) by (nonlinear_arith)
        requires
            t >= 1,
            u > 0,
    ;
    lemma_finite_amount(c);
    lemma_sum_error(w, -c);
    let a = sum(w, -c);
    assert(near(a, w - c, 1));
    assert(a <= 0x8_0000_0000_0000 * u && u <= 4 * a);
    assert(0x8_0000_0000_0000 * u <= t * u) by (nonlinear_arith)
        requires
            t >= 0x8_0000_0000_0000,
            u > 0,
    ;
    lemma_finite_amount(a);
    assert(real_sum(whole_real(n), real_of(true, -c)) == RealView::Finite(a));
    assert(f > 0) by (nonlinear_arith)
        requires
            u <= p * f,
            u > 0,
            p > 0,
    ;
    lemma_ratio(a, f, 0x8_0000_0000_0000, 4, p, p);
    let v = quotient(a, f);
    lemma_near_times(a, w - c, u, 1);
    assert((w - c) * u >= 0) by (nonlinear_arith)
        requires
            w - c >= 0,
            u > 0,
    ;
    lemma_near_both(v * f, a * u, (w - c) * u, 2, 1);
    lemma_near_times(v * f, (w - c) * u, m, 4);
    assert((v * f) * m == (m * v) * f) by (nonlinear_arith);
    assert(((w - c) * u) * m == ((m * n - 1) * u) * u) by (nonlinear_arith)
        requires
            w == n * u,
            c * m == u,
    {
        assert((w - c) * m == (m * n - 1) * u);
        assert(((w - c) * u) * m == ((w - c) * m) * u);
    }
    let y = ((m * n - 1) * u) * u;
    assert(4 * y <= 10 * y) by {
        assert(y >= 0) by (nonlinear_arith)
            requires
                y == ((w - c) * u) * m,
                (w - c) * u >= 0,
                m >= 2,
        ;
    }
}

/// A clip that starts at a frame is decoded from a quarter of a frame before it, so that this frame is
/// the first one at or after the seek point; its audio starts with the frame, and both are cut to as
/// many frames as the clip takes. A clip from the start is not sought.
pub proof fn decoding_starts_where_the_clip_does(plan: ClipPlan, f: int)
    requires
        ordinary(f),
        plan.start < 0x4_0000_0000_0000,
    ensures
        ({
            let fps = RealView::Finite(f);
            let (video, audio) = (video_seek(plan, fps), audio_seek(plan, fps));
            let cut: int = if plan.start > 0 {
                2
            } else {
                0
            };
            &&& plan.start == 0 ==> video.len() == 0
            &&& plan.start > 0 ==> {
                &&& exists|v: int|
                    {
                        &&& #[trigger] near(
                            (4 * v) * f,
                            ((4 * plan.start - 1) * one()) * one(),
                            10,
                        )
                        &&& video == seq!["-ss"@, fixed(v, 6)]
                    }
                &&& exists|v: int|
                    {
                        &&& #[trigger] near(v * f, ((plan.start * one()) * one()) as int, 4)
                        &&& audio.len() >= 2 && audio[0] == "-ss"@ && audio[1] == fixed(v, 6)
                    }
            }
            &&& plan.take is None ==> audio.len() == cut
            &&& plan.take matches Some(n) ==> {
                &&& audio.len() == cut + 2
                &&& audio[cut] == "-t"@
                &&& n >= 1 ==> exists|v: int|
                    #[trigger] near(v * f, ((n * one()) * one()) as int, 4) && audio[cut + 1]
                        == fixed(v, 6)
            }
        }),
{
    let fps = RealView::Finite(f);
    let (video, audio) = (video_seek(plan, fps), audio_seek(plan, fps));
    if plan.start > 0 {
        lemma_quarter();
        lemma_earlier(plan.start as nat, quarter(), 4, f);
        let a = real_sum(whole_real(plan.start as nat), real_of(true, -quarter()));
        let v = real_quotient(a, fps)->Finite_0;
        assert(near((4 * v) * f, ((4 * plan.start - 1) * one()) * one(), 10));
        assert(video =~= seq!["-ss"@, fixed(v, 6)]);
        lemma_duration(plan.start as nat, f);
        let w = quotient(fraction(plan.start as nat, 1) as int, f);
        assert(near(w * f, ((plan.start * one()) * one()) as int, 4));
        assert(audio[0] == "-ss"@ && audio[1] == fixed(w, 6));
    }
    if let Some(n) = plan.take {
        if n >= 1 {
            lemma_duration(n as nat, f);
            let w = quotient(fraction(n as nat, 1) as int, f);
            assert(near(w * f, ((n * one()) * one()) as int, 4));
        }
    }
}

proof fn lemma_quarter()
    ensures
        quarter() * 4 == one(),
        quarter() > 0,
{
    let q = pow2(1072);
    lemma2_to64();
    lemma2_to64_rest();
    lemma_pow2_pos(1072);
    lemma_pow2_adds(2, 1072);
    lemma_rounded_scale(q, 1, 4, 53);
    lemma_exact(1, 1072, 53);
    assert(1 * q == q);
    assert(1 * 4 == 4);
    assert(1 * one() == one());
}

/// A segment of the intermediate lasts half a frame less than its frames, so that the keyframe of the
/// next chunk, and no other, ends it.
pub proof fn segments_end_half_a_frame_early(chunk: nat, f: int)
    requires
        1 <= chunk < 0x4_0000_0000_0000,
        ordinary(f),
    ensures
        segment_time(chunk, RealView::Finite(f)) matches RealView::Finite(v) && v > 0 && near(
            (2 * v) * f,
            ((2 * chunk - 1) * one()) * one(),
            10,
        ),
{
    halves_are_exact(1);
    let h = pow2(1073) as int;
    assert(1 * h == h);
    lemma_pow2_pos(1073);
    assert(half() == h);
    assert(h * 2 == one());
    lemma_earlier(chunk, half(), 2, f);
}

/// The filters that are set come first, then a crop to the clipped frame, then the frame step; there
/// is a crop only where the clip has one, and a step only where frames are left out.
pub proof fn decoding_filters_crop_and_step(vf: Option<Seq<char>>, plan: ClipPlan)
    ensures
        ({
            let v = decode_filters(vf, plan);
            let own: int = if vf is Some {
                1
            } else {
                0
            };
            let crop: int = if plan.crop is Some {
                1
            } else {
                0
            };
            let step: int = if plan.nth > 1 {
                1
            } else {
                0
            };
            &&& v.len() == own + crop + step
            &&& vf matches Some(f) ==> v[0] == f
            &&& plan.crop matches Some((w, h)) ==> v[own] == "crop="@ + decimal(w as nat) + ":"@
                + decimal(h as nat)
            &&& plan.nth > 1 ==> v[own + crop] == "framestep="@ + decimal(plan.nth as nat)
        }),
{
}

/// The memory that may be taken is the share in percent of all memory, to the byte below it, but for
/// rounding.
pub proof fn the_budget_is_a_share_of_the_memory(memory: nat, pct: int)
    requires
        memory <= u64::MAX,
        0 <= pct <= 100 * one(),
        memory * pct >= one(),
    ensures
        ({
            let b = budget_of(memory, pct);
            let exact = memory * pct;
            &&& 0x20_0000_0000_0000 * (100 * (b * one()) - exact) <= 8 * exact
            &&& 0x20_0000_0000_0000 * (exact - 100 * (b * one())) <= 0x20_0000_0000_0000 * (100
                * one()) + 8 * exact
        }),
{
    let u = one() as int;
    let k = parts();
    lemma_one_is_large();
    lemma_bounds();
    lemma_near_whole(memory);
    whole_numbers_are_exact(100);
    let f = fraction(memory, 1) as int;
    let x = memory * pct;
    let mu = memory * u;
    assert(pct >= 1 && memory >= 1) by (nonlinear_arith)
        requires
            x == memory * pct,
            x >= u,
            u > 0,
            pct >= 0,
            memory >= 0,
    ;
    lemma_near_times(f, mu, pct, 1);
    assert(mu * pct == x * u) by (nonlinear_arith)
        requires
            mu == memory * u,
            x == memory * pct,
    ;
    let xu = x * u;
    assert(xu >= 2 * (k * u)) by (nonlinear_arith)
        requires
            xu == x * u,
            x >= u,
            u >= 2 * k,
            u > 0,
            k > 0,
    ;
    assert(f * pct >= k * u);
    lemma_near_product(f, pct);
    let a = product(f, pct);
    lemma_near_both(a * u, f * pct, xu, 2, 1);
    lemma_near_over(a, x, u, 4);
    let h = 100 * u;
    let au = a * u;
    assert(k * h <= au) by (nonlinear_arith)
        requires
            au == a * u,
            2 * a >= u,
            h == 100 * u,
            u >= 200 * k,
            u > 0,
            k > 0,
    {
        assert(a >= 100 * k);
        assert(a * u >= (100 * k) * u);
    }
    lemma_near_quotient(a, h);
    let q = quotient(a, h);
    // a hundred times the share
    let hq = 100 * q;
    assert(q * h == hq * u) by (nonlinear_arith)
        requires
            h == 100 * u,
            hq == 100 * q,
    ;
    lemma_near_over(hq, a, u, 2);
    lemma_near_both(hq, a, x, 2, 4);
    let n = floor_of(q);
    lemma_fundamental_div_mod(q, u);
    let nu = n * u;
    assert(u * n == nu) by (nonlinear_arith)
        requires
            nu == n * u,
    ;
    assert(nu <= q < nu + u);
    assert(n >= 0) by (nonlinear_arith)
        requires
            q < n * u + u,
            q > 0,
            u > 0,
    ;
    let top = u64::MAX as int;
    if n > top {
        // rounding can only have moved the share of all memory past the largest count
        let tu = top * u;
        assert(nu >= tu + u) by (nonlinear_arith)
            requires
                nu == n * u,
                tu == top * u,
                n >= top + 1,
                u > 0,
        ;
        assert(x <= 100 * tu) by (nonlinear_arith)
            requires
                x == memory * pct,
                memory <= top,
                0 <= pct <= 100 * u,
                tu == top * u,
        {
            assert(memory * pct <= top * pct);
            assert(top * pct <= top * (100 * u));
        }
    }
}

/// The frames are decoded in the input's own format where that is supported and none is asked for, in
/// RGB where it is not, and otherwise in the format that is asked for. Names of full-range formats
/// stand for the plain ones.
pub proof fn the_format_is_kept_where_it_can_be(cfg: Config, input: Seq<char>, rest: Seq<char>)
    ensures
        lower(cfg.pix_fmt@) != lower("auto"@) ==> asked_format(cfg, input) == cfg.pix_fmt@,
        lower(cfg.pix_fmt@) == lower("auto"@) && named_format(input) is Some ==> asked_format(
            cfg,
            input,
        ) == input,
        lower(cfg.pix_fmt@) == lower("auto"@) && named_format(input) is None ==> asked_format(
            cfg,
            input,
        ) == "rgb24"@,
        plain_format("yuvj"@ + rest) == "yuv"@ + rest,
        (rest.len() < 4 || rest.take(4) != "yuvj"@) ==> plain_format(rest) == rest,
{
    reveal_strlit("yuvj");
    let t = "yuvj"@ + rest;
    assert(t.take(4) =~= "yuvj"@);
    assert(t.skip(4) =~= rest);
}

/// Without cropping to the content the output is the box that is asked for, and its window stays in
/// the middle.
pub proof fn only_a_cropped_output_follows_the_content(
    cfg: Config,
    g: Seq<Seq<int>>,
    dims: Seq<nat>,
)
    ensures
        !cfg.crop ==> job_sides(cfg, g, dims) == output_sides(g, dims, cfg.output, cfg.even_dims),
        !cfg.crop ==> job_path(cfg, g, dims).pos == seq![0int, 0int] && job_path(cfg, g, dims).vel
            == seq![0int, 0int],
        cfg.crop ==> job_sides(cfg, g, dims) == tracked_sides(g, dims, cfg.output, cfg.even_dims),
{
}

proof fn lemma_bar(s: Seq<char>, n: int)
    requires
        0 <= n < s.len(),
        s[n] == '/',
        forall|i: int| 0 <= i < n ==> s[i] != '/',
    ensures
        position(s, '/', '/') == n,
{
    lemma_position(s, '/', '/');
    let p = position(s, '/', '/') as int;
    if p < n {
        assert(s[p] != '/');
    }
}

proof fn lemma_written(n: nat)
    requires
        n <= u64::MAX,
    ensures
        number(trim(decimal(n)), u64::MAX as nat) == Ok::<nat, NumberFault>(n),
        decimal(n).len() > 0,
        forall|i: int| 0 <= i < decimal(n).len() ==> #[trigger] decimal(n)[i] != '/',
{
    let t = decimal(n);
    lemma_decimal_digits(n);
    decimal_reads_back(n, u64::MAX as nat);
    assert(digit(t[0]) && digit(t[t.len() - 1]));
    lemma_trimmed_already(t);
}

/// Where only every `n`th frame is kept, a rate that is written as a fraction has `n` times its
/// denominator, so that it is an `n`th of what it was, exactly; a rate is kept where all frames are.
pub proof fn kept_frames_come_at_a_part_of_the_rate(num: nat, den: nat, n: nat, rate: Seq<char>)
    requires
        num <= u64::MAX,
        den <= u64::MAX,
        n > 1,
    ensures
        divided(decimal(num).push('/') + decimal(den), n) == decimal(num).push('/') + decimal(den * n),
        divided(rate, 1) == rate,
{
    let (a, b) = (decimal(num), decimal(den));
    let s = a.push('/') + b;
    lemma_written(num);
    lemma_written(den);
    lemma_bar(s, a.len() as int);
    assert(s.take(a.len() as int) =~= a);
    assert(s.skip(a.len() as int + 1) =~= b);
    reveal_strlit("/");
    assert(a + "/"@ + decimal(den * n) =~= a.push('/') + decimal(den * n));
}

/// The audio is timed by the frames and rates of its own side: those of the volume and of the source
/// go in, those of the output come out.
pub proof fn the_audio_is_timed_by_both_sides(
    in_frames: Option<usize>,
    in_fps: Real,
    nth: usize,
    out_frames: Option<usize>,
    out_fps: Real,
)
    ensures
        ({
            let t = timing(in_frames, in_fps, nth, out_frames, out_fps);
            &&& t.in_fps == in_fps@ && t.out_fps == out_fps@ && t.nth == nth
            &&& in_frames matches Some(n) ==> t.in_frames == Some(n as nat)
            &&& out_frames matches Some(n) ==> t.out_frames == Some(n as nat)
            &&& in_frames is None ==> t.in_frames is None
            &&& out_frames is None ==> t.out_frames is None
        }),
{
}

} // verus!
