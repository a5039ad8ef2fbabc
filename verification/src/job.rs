//! The decisions of a run: formats, frame counts, how the input is decoded, where the volume is held,
//! and what the encoder is told.

use vstd::prelude::*;
use vstd::arithmetic::div_mod::lemma_fundamental_div_mod;
use crate::audio::{
    audio_chain, audio_plan, audio_speed, can_reach, reachable, timing, AudioPlan,
};
use crate::binary64::{clamped, floor_of, fraction, product, quotient, Float};
use crate::clip::{count, ClipPlan};
use crate::config::{
    text_of, AudioMode, Config, Mode,
};
use crate::decimals::{parse_real, real_number, Real, RealView};
use crate::error::{Error, Fault};
use crate::ffmpeg::{encode_cmd, encode_line, ColorInfo, Decode, EncodeParams, EncodeView};
use crate::fixed::{fixed_signed, put_fixed_signed};
use crate::geometry::{
    checked_output_dims, depth_kept, grid, is_planar, keeps_depth, keeps_time, output_sides,
    sides, time_reversed, turns_time_back, within, Mat3, OutputSize,
};
use crate::number::{decimal, put_decimal};
use crate::pixfmt::{named_format, PixelFormat};
use crate::probe::{parse_rate, rate_of, ProbeInfo};
use crate::reals::{
    add_up, counted, divide, fixed_real, put_fixed_real, real_count, real_of, real_quotient,
    real_sum, to_real, to_whole, whole_real,
};
use crate::text::{
    chars_of, join, joined, lower, put, same, same_ignoring_case, starts, string_of, strip_prefix,
    texts, trim, trimmed,
};
use crate::track::{
    checked_tracked_output, tracked_path, tracked_sides, Track, TrackView,
};
use crate::util::{divided, duration_text, put_real_dur, rate_div, ratio_of, real_seconds};

verus! {

/// The format that the frames are asked for in: the one that is set, else that of the input, else
/// RGB where the input's is not supported.
pub open spec fn asked_format(cfg: Config, input: Seq<char>) -> Seq<char> {
    if lower(cfg.pix_fmt@) == lower("auto"@) {
        if named_format(input) is Some {
            input
        } else {
            "rgb24"@
        }
    } else {
        cfg.pix_fmt@
    }
}

/// A format of the deprecated full-range names.
pub open spec fn is_yuvj(name: Seq<char>) -> bool {
    starts(name, "yuvj"@)
}

/// The format with a full-range name replaced by the plain one.
pub open spec fn plain_format(name: Seq<char>) -> Seq<char> {
    if is_yuvj(name) {
        "yuv"@ + name.skip("yuvj"@.len() as int)
    } else {
        name
    }
}

/// The format of the decoded frames and their colour range. Full-range formats under their
/// deprecated names are decoded under the plain name and tagged as full range.
pub fn working_format(cfg: &Config, info: &ProbeInfo) -> (r: (String, Option<String>))
    ensures
        r.0@ == plain_format(asked_format(*cfg, info.pix_fmt@)),
        text_of(r.1) == (if is_yuvj(asked_format(*cfg, info.pix_fmt@)) {
            Some("pc"@)
        } else {
            text_of(info.color.range)
        }),
{
    let asked: String = if same_ignoring_case(cfg.pix_fmt.as_str(), "auto") {
        if PixelFormat::parse(info.pix_fmt.as_str()).is_ok() {
            info.pix_fmt.as_str().to_owned()
        } else {
            "rgb24".to_owned()
        }
    } else {
        cfg.pix_fmt.as_str().to_owned()
    };
    let chars = chars_of(asked.as_str());
    match strip_prefix(&chars, "yuvj") {
        Some(rest) => {
            let mut name = "yuv".to_owned();
            name.append(string_of(rest).as_str());
            (name, Some("pc".to_owned()))
        },
        None => {
            let range = match &info.color.range {
                Some(t) => Some(t.as_str().to_owned()),
                None => None,
            };
            (asked, range)
        },
    }
}

/// Full range: by tag, and for gray frames unless they are tagged otherwise.
pub fn is_full_range(range: &Option<String>, gray: bool) -> (r: bool)
    ensures
        r == (text_of(*range) == Some("pc"@) || (gray && text_of(*range) != Some("tv"@))),
{
    match range {
        Some(t) => {
            let c = chars_of(t.as_str());
            same(&c, "pc") || (gray && !same(&c, "tv"))
        },
        None => gray,
    }
}

/// The format that the encoder is asked for.
pub fn output_format(cfg: &Config, pf: &PixelFormat) -> (r: String)
    ensures
        r@ == (if lower(cfg.out_pix_fmt@) == lower("auto"@) {
            if pf@.is_yuv() && !pf@.has_alpha() {
                pf@.name
            } else {
                "yuv420p"@
            }
        } else {
            cfg.out_pix_fmt@
        }),
{
    if same_ignoring_case(cfg.out_pix_fmt.as_str(), "auto") {
        pf.encoder_default()
    } else {
        cfg.out_pix_fmt.as_str().to_owned()
    }
}

/// The rate of the output: the one that is set, else that of the input.
pub open spec fn output_rate_text(cfg: Config, info: ProbeInfo) -> Seq<char> {
    match cfg.out_fps {
        Some(f) => f@,
        None => info.fps@,
    }
}

/// Reads the rate of the output.
pub fn output_rate(cfg: &Config, info: &ProbeInfo) -> (r: Result<(String, Real), Error>)
    ensures
        match r {
            Ok((text, x)) => {
                &&& text@ == output_rate_text(*cfg, *info)
                &&& rate_of(text@) == Some(x@)
                &&& x.wf()
            },
            Err(e) => rate_of(output_rate_text(*cfg, *info)) is None && e.says(
                Fault::BadFrameRate,
                "FF_OUT_FPS"@,
                output_rate_text(*cfg, *info),
            ),
        },
{
    let text: String = match &cfg.out_fps {
        Some(f) => f.as_str().to_owned(),
        None => info.fps.as_str().to_owned(),
    };
    match parse_rate(text.as_str()) {
        Some(x) => Ok((text, x)),
        None => Err(Error::new(Fault::BadFrameRate, "FF_OUT_FPS", text.as_str())),
    }
}

/// True when the frame count of the input is that of the decoded frames: no setting changes it.
pub fn counts_exactly(cfg: &Config, info: &ProbeInfo) -> (r: bool)
    ensures
        r == (cfg.in_args@.len() == 0 && cfg.fps is None && cfg.vf is None
            && info.nb_frames is Some),
{
    cfg.in_args.len() == 0 && cfg.fps.is_none() && cfg.vf.is_none() && info.nb_frames.is_some()
}

/// The frame count of the input, counted or estimated from its duration.
pub open spec fn total_of(cfg: Config, info: ProbeInfo) -> Option<nat> {
    let n = match (cfg.fps, info.nb_frames) {
        (None, Some(n)) => Some(n as usize as nat),
        _ => match info.duration {
            Some(d) => Some(real_count(d@, info.fps_f@, usize::MAX as int) as nat),
            None => None,
        },
    };
    match n {
        Some(k) => if k > 0 {
            Some(k)
        } else {
            None
        },
        None => None,
    }
}

/// The frame count of the input, counted or estimated from its duration; none when it is unknown.
pub fn total_frames(cfg: &Config, info: &ProbeInfo) -> (r: Option<usize>)
    requires
        info.wf(),
    ensures
        count(r) == total_of(*cfg, *info),
{
    let n: Option<usize> = match (&cfg.fps, info.nb_frames) {
        (None, Some(n)) => Some(n as usize),
        _ => match info.duration {
            Some(d) => {
                let k = counted(d, info.fps_f);
                Some(
                    if k > usize::MAX as u64 {
                        usize::MAX
                    } else {
                        k as usize
                    },
                )
            },
            None => None,
        },
    };
    match n {
        Some(k) => if k > 0 {
            Some(k)
        } else {
            None
        },
        None => None,
    }
}

/// One quarter.
pub open spec fn quarter() -> int {
    fraction(1, 4) as int
}

/// The filters of a decoder: those that are set, the crop and the frame step.
pub open spec fn decode_filters(vf: Option<Seq<char>>, plan: ClipPlan) -> Seq<Seq<char>> {
    (match vf {
        Some(f) => seq![f],
        None => Seq::empty(),
    }) + (match plan.crop {
        Some((w, h)) => seq!["crop="@ + decimal(w as nat) + ":"@ + decimal(h as nat)],
        None => Seq::empty(),
    }) + (if plan.nth > 1 {
        seq!["framestep="@ + decimal(plan.nth as nat)]
    } else {
        Seq::empty()
    })
}

/// The time of so many frames, in seconds.
pub open spec fn seconds(frames: RealView, fps: RealView) -> Seq<char> {
    fixed_real(real_quotient(frames, fps), 6)
}

/// Where the video starts: a quarter frame early, as the wanted frame is the first one at or after
/// the seek point.
pub open spec fn video_seek(plan: ClipPlan, fps: RealView) -> Seq<Seq<char>> {
    if plan.start > 0 {
        seq![
            "-ss"@,
            seconds(real_sum(whole_real(plan.start as nat), real_of(true, -quarter())), fps),
        ]
    } else {
        Seq::empty()
    }
}

/// Where the audio starts, and how long it lasts.
pub open spec fn audio_seek(plan: ClipPlan, fps: RealView) -> Seq<Seq<char>> {
    (if plan.start > 0 {
        seq!["-ss"@, seconds(whole_real(plan.start as nat), fps)]
    } else {
        Seq::empty()
    }) + (match plan.take {
        Some(n) => seq!["-t"@, seconds(whole_real(n as nat), fps)],
        None => Seq::empty(),
    })
}

fn put_seconds(out: &mut Vec<String>, flag: &str, frames: Real, fps: Real)
    requires
        frames.wf(),
        fps.wf(),
    ensures
        texts(final(out)@) == texts(old(out)@) + seq![flag@, seconds(frames@, fps@)],
{
    let ghost before = texts(out@);
    put(out, flag);
    let mut text = String::new();
    put_fixed_real(&mut text, divide(frames, fps), 6);
    assert(text@ =~= seconds(frames@, fps@));
    put(out, text.as_str());
    assert(texts(out@) =~= before + seq![flag@, seconds(frames@, fps@)]);
}

fn filter_chain(cfg: &Config, plan: &ClipPlan) -> (r: String)
    ensures
        r@ == joined(decode_filters(text_of(cfg.vf), *plan), ","@),
{
    let mut v: Vec<String> = Vec::new();
    if let Some(f) = &cfg.vf {
        put(&mut v, f.as_str());
    }
    if let Some((w, h)) = plan.crop {
        let mut t = "crop=".to_owned();
        put_decimal(&mut t, w as u64);
        t.append(":");
        put_decimal(&mut t, h as u64);
        put(&mut v, t.as_str());
    }
    if plan.nth > 1 {
        let mut t = "framestep=".to_owned();
        put_decimal(&mut t, plan.nth as u64);
        put(&mut v, t.as_str());
    }
    assert(texts(v@) =~= decode_filters(text_of(cfg.vf), *plan));
    join(&v, ",")
}

/// How the planned part of the input is decoded.
pub fn decode_settings(cfg: &Config, info: &ProbeInfo, pix_fmt: &str, plan: &ClipPlan) -> (r: Decode)
    requires
        info.wf(),
        ratio_of(info.fps@) matches Some((num, den)) ==> den * plan.nth <= u64::MAX,
    ensures
        r.pix_fmt@ == pix_fmt@,
        r.fps@ == divided(info.fps@, plan.nth as nat),
        r.vf@ == joined(decode_filters(text_of(cfg.vf), *plan), ","@),
        r.frames == plan.take,
        texts(r.video_in_args@) == video_seek(*plan, info.fps_f@),
        texts(r.audio_in_args@) == audio_seek(*plan, info.fps_f@),
{
    let mut video: Vec<String> = Vec::new();
    let mut audio: Vec<String> = Vec::new();
    if plan.start > 0 {
        let at = to_whole(plan.start as u64);
        let back = to_real(Float::ratio(1, 4).negated());
        put_seconds(&mut video, "-ss", add_up(at, back), info.fps_f);
        put_seconds(&mut audio, "-ss", at, info.fps_f);
    }
    if let Some(n) = plan.take {
        put_seconds(&mut audio, "-t", to_whole(n as u64), info.fps_f);
    }
    assert(texts(video@) =~= video_seek(*plan, info.fps_f@));
    assert(texts(audio@) =~= audio_seek(*plan, info.fps_f@));
    Decode {
        pix_fmt: pix_fmt.to_owned(),
        fps: rate_div(info.fps.as_str(), plan.nth),
        vf: filter_chain(cfg, plan),
        frames: plan.take,
        video_in_args: video,
        audio_in_args: audio,
    }
}

/// The rate of the decoded frames.
pub fn decoded_rate(info: &ProbeInfo, plan: &ClipPlan) -> (r: Real)
    requires
        info.wf(),
    ensures
        r.wf(),
        r@ == real_quotient(info.fps_f@, whole_real(plan.nth as nat)),
{
    divide(info.fps_f, to_whole(plan.nth as u64))
}

/// The frame count of the volume, where it is known for sure.
pub fn known_frames(plan: &ClipPlan, exact: bool) -> (r: Option<usize>)
    ensures
        r == (match plan.take {
            Some(n) => Some(n),
            None => if exact {
                plan.frames
            } else {
                None
            },
        }),
{
    match plan.take {
        Some(n) => Some(n),
        None => if exact {
            plan.frames
        } else {
            None
        },
    }
}

/// The bytes of the volume, where the frame count is known.
pub fn raw_bytes(frames: Option<usize>, frame_bytes: usize) -> (r: Option<u64>)
    requires
        frames matches Some(n) ==> n * frame_bytes <= u64::MAX,
    ensures
        r == (match frames {
            Some(n) => Some((n * frame_bytes) as u64),
            None => None,
        }),
{
    match frames {
        Some(n) => Some(n as u64 * frame_bytes as u64),
        None => None,
    }
}

/// The bytes of memory that a share in percent comes to.
pub open spec fn budget_of(memory: nat, pct: int) -> nat {
    clamped(
        floor_of(
            quotient(product(fraction(memory, 1) as int, pct), fraction(100, 1) as int),
        ),
        0,
        u64::MAX as int,
    ) as nat
}

/// The memory that the volume may take.
pub fn memory_budget(memory: Option<u64>, pct: Float) -> (r: Option<u64>)
    requires
        pct.wf(),
        pct.e <= 971,
    ensures
        match (memory, r) {
            (Some(p), Some(b)) => b == budget_of(p as nat, pct.value()),
            (None, None) => true,
            _ => false,
        },
{
    match memory {
        Some(p) => {
            let hundred = Float::from_u64(100);
            Some(Float::from_u64(p).times(pct).over(hundred).floor_u64())
        },
        None => None,
    }
}

/// Where the volume is held. A rotation that keeps the time axis (with no fixed depth of the output)
/// is streamed; another one goes into memory when it is known to fit, else to disk.
pub fn choose_mode(mode: Mode, planar: bool, raw: Option<u64>, budget: Option<u64>) -> (r: Result<
    Mode,
    Error,
>)
    ensures
        match r {
            Ok(m) => !(mode == Mode::Stream && !planar) && m == (if mode != Mode::Auto {
                mode
            } else if planar {
                Mode::Stream
            } else if raw is Some && budget is Some && raw->0 <= budget->0 {
                Mode::Ram
            } else {
                Mode::Disk
            }),
            Err(e) => mode == Mode::Stream && !planar && e.says(
                Fault::StreamNeedsTime,
                "ROT_MODE"@,
                "stream"@,
            ),
        },
{
    match mode {
        Mode::Auto => if planar {
            Ok(Mode::Stream)
        } else {
            match (raw, budget) {
                (Some(r), Some(b)) => if r <= b {
                    Ok(Mode::Ram)
                } else {
                    Ok(Mode::Disk)
                },
                _ => Ok(Mode::Disk),
            }
        },
        Mode::Stream => if planar {
            Ok(mode)
        } else {
            Err(Error::new(Fault::StreamNeedsTime, "ROT_MODE", "stream"))
        },
        _ => Ok(mode),
    }
}

/// A volume that is known to exceed the memory it may take, and is not forced.
pub fn exceeds_memory(force: bool, raw: Option<u64>, budget: Option<u64>) -> (r: bool)
    ensures
        r == (raw is Some && budget is Some && raw->0 > budget->0 && !force),
{
    match (raw, budget) {
        (Some(r), Some(b)) => r > b && !force,
        _ => false,
    }
}

/// A volume that is known not to fit the free space with a twentieth to spare, and is not forced.
pub fn exceeds_disk(force: bool, raw: Option<u64>, free: Option<u64>) -> (r: bool)
    ensures
        r == (raw is Some && free is Some && raw->0 + raw->0 / 20 > free->0 && !force),
{
    match (raw, free) {
        (Some(r), Some(f)) => r as u128 + (r / 20) as u128 > f as u128 && !force,
        _ => false,
    }
}

/// The memory at which decoding into memory is given up: the budget, unless forced.
pub fn decode_limit(force: bool, budget: Option<u64>) -> (r: Option<u64>)
    ensures
        r == (if force {
            None
        } else {
            budget
        }),
{
    if force {
        None
    } else {
        budget
    }
}

/// The frames per chunk: as many as the megabytes hold, from 1 to 1000.
pub fn chunk_frames(chunk_mb: usize, frame_bytes: usize) -> (r: usize)
    requires
        chunk_mb * 1048576 <= u64::MAX,
        frame_bytes > 0,
    ensures
        r == ({
            let n = (chunk_mb * 1048576) / frame_bytes as int;
            if n < 1 {
                1
            } else if n > 1000 {
                1000
            } else {
                n
            }
        }),
{
    let n: u64 = (chunk_mb as u64 * 1048576) / frame_bytes as u64;
    if n < 1 {
        1
    } else if n > 1000 {
        1000
    } else {
        n as usize
    }
}

/// The number of frames in a file of raw frames.
pub fn raw_file_frames(len: usize, frame_bytes: usize) -> (r: Result<usize, Error>)
    requires
        frame_bytes > 0,
    ensures
        match r {
            Ok(n) => len > 0 && n * frame_bytes == len,
            Err(e) => if len == 0 {
                e.says(Fault::NoFrames, Seq::empty(), Seq::empty())
            } else {
                len % frame_bytes != 0 && e.says(Fault::RaggedFile, Seq::empty(), Seq::empty())
            },
        },
{
    if len == 0 {
        return Err(Error::plain(Fault::NoFrames));
    }
    if len % frame_bytes != 0 {
        return Err(Error::plain(Fault::RaggedFile));
    }
    proof {
        lemma_fundamental_div_mod(len as int, frame_bytes as int);
        let (a, b) = (frame_bytes as int, len as int / frame_bytes as int);
        assert(a * b == b * a) by (nonlinear_arith);
    }
    Ok(len / frame_bytes)
}

/// An audio plan in words.
pub open spec fn audio_text(
    reversed: bool,
    speed: RealView,
    duration: Option<RealView>,
    filter: Seq<char>,
) -> Seq<char> {
    (if reversed {
        "reversed, "@
    } else {
        Seq::empty()
    }) + "speed x"@ + fixed_real(speed, 4) + (match duration {
        Some(d) => ", "@ + duration_text(real_seconds(d)),
        None => Seq::empty(),
    }) + ", filter: "@ + filter
}

/// Describes an audio plan.
pub fn describe_audio(p: &AudioPlan) -> (r: String)
    requires
        p.speed.wf(),
        p.new_duration matches Some(d) ==> d.wf(),
    ensures
        r@ == audio_text(
            p.reversed,
            p.speed@,
            match p.new_duration {
                Some(d) => Some(d@),
                None => None,
            },
            p.filter@,
        ),
{
    let mut r = String::new();
    if p.reversed {
        r.append("reversed, ");
    }
    r.append("speed x");
    put_fixed_real(&mut r, p.speed, 4);
    if let Some(d) = p.new_duration {
        r.append(", ");
        put_real_dur(&mut r, d);
    }
    r.append(", filter: ");
    r.append(p.filter.as_str());
    assert(r@ =~= audio_text(
        p.reversed,
        p.speed@,
        match p.new_duration {
            Some(d) => Some(d@),
            None => None,
        },
        p.filter@,
    ));
    r
}

/// Reads an angle in degrees, white space around it ignored.
pub fn parse_angle(s: &str) -> (r: Option<Real>)
    ensures
        match r {
            Some(x) => real_number(trim(s@)) == Some(x@) && x.wf(),
            None => real_number(trim(s@)) is None,
        },
{
    parse_real(trimmed(&chars_of(s)))
}

/// Whether frames can be rotated one by one: the rotation keeps the time axis, and the output the
/// frame count.
pub fn streams(rot: &Mat3, size: OutputSize) -> (r: bool)
    requires
        within(*rot, 971),
    ensures
        r == (keeps_time(grid(*rot)) && keeps_depth(size)),
{
    is_planar(rot) && depth_kept(size)
}

/// Whether the audio is reversed: as it is set, else when time runs backwards.
pub fn reverses_audio(cfg: &Config, rot: &Mat3) -> (r: bool)
    requires
        within(*rot, 971),
    ensures
        r == (match cfg.audio_reverse {
            Some(b) => b,
            None => turns_time_back(grid(*rot)),
        }),
{
    match cfg.audio_reverse {
        Some(b) => b,
        None => time_reversed(rot),
    }
}

/// The sample rate of the audio that goes into the output; none when there is no audio, or none is
/// wanted.
pub fn audio_rate(cfg: &Config, info: &ProbeInfo) -> (r: Option<u32>)
    ensures
        r == (match info.audio {
            Some(a) => if cfg.no_audio {
                None
            } else {
                Some(a.sample_rate)
            },
            None => None,
        }),
{
    match &info.audio {
        Some(a) => if cfg.no_audio {
            None
        } else {
            Some(a.sample_rate)
        },
        None => None,
    }
}

/// Everything the encoder side needs, independent of how the frames are produced.
pub struct Job<'a> {
    pub cfg: &'a Config,
    pub pf: &'a PixelFormat,
    pub rot: Mat3,
    pub output: &'a str,
    pub out_fps: String,
    pub out_fps_f: Real,
    pub out_pix_fmt: String,
    pub color: &'a ColorInfo,
    /// The dumped audio and its sample rate.
    pub audio: Option<(String, u32)>,
    pub audio_reverse: bool,
    pub in_fps_f: Real,
    pub nth: usize,
}

/// The sides of the output volume.
pub open spec fn job_sides(cfg: Config, g: Seq<Seq<int>>, dims: Seq<nat>) -> Seq<nat> {
    if cfg.crop {
        tracked_sides(g, dims, cfg.output, cfg.even_dims)
    } else {
        output_sides(g, dims, cfg.output, cfg.even_dims)
    }
}

/// The path of the output window.
pub open spec fn job_path(cfg: Config, g: Seq<Seq<int>>, dims: Seq<nat>) -> TrackView {
    if cfg.crop {
        tracked_path(g, dims, cfg.output, cfg.even_dims)
    } else {
        TrackView::centred(0)
    }
}

/// Two numbers with an `x` between them.
pub open spec fn size_text(w: nat, h: nat) -> Seq<char> {
    decimal(w) + "x"@ + decimal(h)
}

/// The output window in words.
pub open spec fn window_text(out: Seq<nat>, full: Seq<nat>, vel: [Float; 2]) -> Seq<char> {
    "window: "@ + size_text(out[0], out[1]) + (if vel[0].value() == 0 && vel[1].value() == 0 {
        " centred"@
    } else {
        " follows content, centre moves ("@ + fixed_signed(vel[0], 3) + ", "@ + fixed_signed(
            vel[1],
            3,
        ) + ") px/frame"@
    }) + " (full box "@ + size_text(full[0], full[1]) + ")"@
}

fn put_size(out: &mut String, w: usize, h: usize)
    ensures
        final(out)@ == old(out)@ + size_text(w as nat, h as nat),
{
    let ghost before = out@;
    put_decimal(out, w as u64);
    out.append("x");
    put_decimal(out, h as u64);
    assert(out@ =~= before + size_text(w as nat, h as nat));
}

fn describe(out: [usize; 3], full: [usize; 3], track: &Track) -> (r: String)
    requires
        track.wf(),
    ensures
        r@ == window_text(sides(out), sides(full), track.vel),
{
    let mut r = "window: ".to_owned();
    put_size(&mut r, out[0], out[1]);
    if track.is_static() {
        r.append(" centred");
    } else {
        let ghost before = r@;
        r.append(" follows content, centre moves (");
        put_fixed_signed(&mut r, track.vel[0], 3);
        r.append(", ");
        put_fixed_signed(&mut r, track.vel[1], 3);
        r.append(") px/frame");
        assert(r@ =~= before + (" follows content, centre moves ("@ + fixed_signed(
            track.vel[0],
            3,
        ) + ", "@ + fixed_signed(track.vel[1], 3) + ") px/frame"@));
    }
    r.append(" (full box ");
    put_size(&mut r, full[0], full[1]);
    r.append(")");
    assert(r@ =~= window_text(sides(out), sides(full), track.vel));
    r
}

impl<'a> Job<'a> {
    /// The numbers are numbers of the format.
    pub open spec fn wf(self) -> bool {
        &&& within(self.rot, 100)
        &&& self.in_fps_f.wf()
        &&& self.out_fps_f.wf()
    }

    /// Whether filters can make the audio fit: those that keep the pitch cannot reach every speed.
    pub fn can_fit_audio(&self, in_frames: Option<usize>, out_frames: Option<usize>) -> (r: bool)
        requires
            self.wf(),
        ensures
            r == (self.audio is Some && self.cfg.audio_mode is Tempo ==> reachable(
                timing(in_frames, self.in_fps_f, self.nth, out_frames, self.out_fps_f).speed(),
            )),
    {
        match (&self.audio, self.cfg.audio_mode) {
            (Some(_), AudioMode::Tempo) => {
                let (speed, _) = audio_speed(
                    in_frames,
                    self.in_fps_f,
                    self.nth,
                    out_frames,
                    self.out_fps_f,
                );
                can_reach(speed)
            },
            _ => true,
        }
    }

    /// The filters that make the audio fit, for a job with audio.
    pub fn audio_plan(&self, in_frames: Option<usize>, out_frames: Option<usize>) -> (r: Option<
        AudioPlan,
    >)
        requires
            self.wf(),
            self.audio is Some && self.cfg.audio_mode is Tempo ==> reachable(
                timing(in_frames, self.in_fps_f, self.nth, out_frames, self.out_fps_f).speed(),
            ),
        ensures
            match (self.audio, r) {
                (None, None) => true,
                (Some((_, rate)), Some(p)) => {
                    let t = timing(
                        in_frames,
                        self.in_fps_f,
                        self.nth,
                        out_frames,
                        self.out_fps_f,
                    );
                    &&& p.reversed == self.audio_reverse
                    &&& p.speed.wf() && p.speed@ == t.speed()
                    &&& match p.new_duration {
                        Some(d) => d.wf() && t.duration() == Some(d@),
                        None => t.duration() is None,
                    }
                    &&& p.filter@ == joined(
                        audio_chain(
                            self.audio_reverse,
                            self.cfg.audio_mode,
                            t,
                            rate as nat,
                            text_of(self.cfg.audio_filters),
                        ),
                        ","@,
                    )
                },
                _ => false,
            },
    {
        match &self.audio {
            Some((_, rate)) => Some(
                audio_plan(
                    self.cfg,
                    self.audio_reverse,
                    in_frames,
                    self.in_fps_f,
                    self.nth,
                    out_frames,
                    self.out_fps_f,
                    *rate,
                ),
            ),
            None => None,
        }
    }

    /// The command line of the encoder.
    pub fn encode_cmd(&self, w: usize, h: usize, plan: Option<&AudioPlan>) -> (v: Vec<String>)
        ensures
            texts(v@) == encode_line(
                *self.cfg,
                (EncodeView {
                    output: self.output@,
                    width: w as nat,
                    height: h as nat,
                    out_fps: self.out_fps@,
                    pix_fmt: self.pf@.name,
                    out_pix_fmt: self.out_pix_fmt@,
                    audio: match (self.audio, plan) {
                        (Some((path, _)), Some(p)) => Some((path@, p.filter@)),
                        _ => None,
                    },
                    color: *self.color,
                }),
            ),
    {
        let audio: Option<(&str, &AudioPlan)> = match (&self.audio, plan) {
            (Some((path, _)), Some(p)) => Some((path.as_str(), p)),
            _ => None,
        };
        let p = EncodeParams {
            output: self.output,
            width: w,
            height: h,
            out_fps: self.out_fps.as_str(),
            pix_fmt: self.pf.name.as_str(),
            out_pix_fmt: self.out_pix_fmt.as_str(),
            audio,
            color: self.color,
        };
        encode_cmd(self.cfg, &p)
    }

    /// The size of the output volume and the path of its window, unless making a side even leaves no
    /// number for it.
    pub fn out_dims(&self, in_dims: [usize; 3]) -> (r: Option<([usize; 3], Track)>)
        requires
            self.wf(),
        ensures
            match r {
                Some((d, track)) => {
                    &&& sides(d) == job_sides(*self.cfg, grid(self.rot), sides(in_dims))
                    &&& track@ == job_path(*self.cfg, grid(self.rot), sides(in_dims))
                    &&& track.wf()
                    &&& track.zeros_unsigned()
                },
                None => {
                    let g = grid(self.rot);
                    let d = sides(in_dims);
                    let base = output_sides(g, d, self.cfg.output, self.cfg.even_dims);
                    let want = job_sides(*self.cfg, g, d);
                    base[0] > usize::MAX || base[1] > usize::MAX || want[0] > usize::MAX || want[1]
                        > usize::MAX
                },
            },
    {
        if self.cfg.crop {
            checked_tracked_output(&self.rot, in_dims, self.cfg.output, self.cfg.even_dims)
        } else {
            match checked_output_dims(&self.rot, in_dims, self.cfg.output, self.cfg.even_dims) {
                Some(d) => Some((d, Track::default())),
                None => None,
            }
        }
    }

    /// Describes an output window that is smaller than the whole bounding box.
    pub fn describe_window(&self, in_dims: [usize; 3], out: [usize; 3], track: &Track) -> (r: Option<
        String,
    >)
        requires
            self.wf(),
            track.wf(),
        ensures
            ({
                let full = output_sides(
                    grid(self.rot),
                    sides(in_dims),
                    self.cfg.output,
                    self.cfg.even_dims,
                );
                let fits = full[0] <= usize::MAX && full[1] <= usize::MAX;
                let smaller = self.cfg.crop && fits && (full[0] != out[0] || full[1] != out[1]);
                match r {
                    Some(t) => smaller && t@ == window_text(sides(out), full, track.vel),
                    None => !smaller,
                }
            }),
    {
        if !self.cfg.crop {
            return None;
        }
        match checked_output_dims(&self.rot, in_dims, self.cfg.output, self.cfg.even_dims) {
            Some(full) => {
                assert(sides(full)[0] == full[0] && sides(full)[1] == full[1]);
                if full[0] == out[0] && full[1] == out[1] {
                    return None;
                }
                Some(describe(out, full, track))
            },
            None => None,
        }
    }
}

} // verus!
