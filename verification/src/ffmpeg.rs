//! The command lines of the tools.

use vstd::prelude::*;
use vstd::arithmetic::power2::{lemma2_to64, pow2};
use crate::decimals::{Real, RealView};
use crate::audio::AudioPlan;
use crate::binary64::Float;
use crate::config::{defaults_for, encode_defaults, is_mp4, Config, EncodeDefaults};
use crate::number::{decimal, decimal_string, put_decimal};
use crate::path::{extension, lower_extension};
use crate::pixfmt::{FormatView, KindView, PixelFormat, PlaneKind};
use crate::reals::{
    add_up, divide, fixed_real, put_fixed_real, real_of, real_quotient, real_sum, to_real,
    to_whole, whole_real,
};
use crate::text::{
    chars_of, contains_text, extend, lower, occurs, put, same, same_ignoring_case, texts,
};
use crate::track::half;
use crate::util::str_texts;

verus! {

/// How the input is turned into raw frames (shared by every decode variant and the audio dump).
#[derive(Clone, Debug)]
pub struct Decode {
    pub pix_fmt: String,
    /// CFR rate of the produced frames (`-r`).
    pub fps: String,
    pub vf: String,
    pub frames: Option<usize>,
    pub video_in_args: Vec<String>,
    pub audio_in_args: Vec<String>,
}

impl Default for Decode {
    fn default() -> (r: Decode)
        ensures
            r.pix_fmt@.len() == 0,
            r.fps@.len() == 0,
            r.vf@.len() == 0,
            r.frames is None,
            r.video_in_args@.len() == 0,
            r.audio_in_args@.len() == 0,
    {
        Decode {
            pix_fmt: String::new(),
            fps: String::new(),
            vf: String::new(),
            frames: None,
            video_in_args: Vec::new(),
            audio_in_args: Vec::new(),
        }
    }
}

/// The colour tags of a video.
#[derive(Clone, Debug)]
pub struct ColorInfo {
    pub range: Option<String>,
    pub space: Option<String>,
    pub transfer: Option<String>,
    pub primaries: Option<String>,
}

impl Default for ColorInfo {
    fn default() -> (r: ColorInfo)
        ensures
            r.range is None,
            r.space is None,
            r.transfer is None,
            r.primaries is None,
    {
        ColorInfo { range: None, space: None, transfer: None, primaries: None }
    }
}

/// The start of every command line.
pub open spec fn base_line(cfg: Config, stdin: bool) -> Seq<Seq<char>> {
    seq![cfg.ffmpeg@, "-hide_banner"@, "-loglevel"@, cfg.loglevel@] + (if stdin {
        Seq::empty()
    } else {
        seq!["-nostdin"@]
    }) + texts(cfg.global_args@)
}

/// The start of a command line that reads the input.
pub open spec fn input_line(cfg: Config, more: Seq<Seq<char>>, input: Seq<char>) -> Seq<Seq<char>> {
    base_line(cfg, false) + texts(cfg.in_args@) + more + seq!["-i"@, input]
}

/// The filters, where there are any.
pub open spec fn filter_args(vf: Seq<char>) -> Seq<Seq<char>> {
    if vf.len() > 0 {
        seq!["-vf"@, vf]
    } else {
        Seq::empty()
    }
}

/// The frame count, where there is one.
pub open spec fn count_args(frames: Option<usize>) -> Seq<Seq<char>> {
    match frames {
        Some(n) => seq!["-frames:v"@, decimal(n as nat)],
        None => Seq::empty(),
    }
}

/// The start of a command line that decodes frames.
pub open spec fn decode_line(cfg: Config, dec: Decode, input: Seq<char>) -> Seq<Seq<char>> {
    input_line(cfg, texts(dec.video_in_args@), input) + seq![
        "-map"@,
        cfg.vmap@,
        "-an"@,
        "-sn"@,
        "-dn"@,
        "-r"@,
        dec.fps@,
    ] + filter_args(dec.vf@) + seq!["-pix_fmt"@, dec.pix_fmt@] + count_args(dec.frames) + texts(
        cfg.decode_args@,
    )
}

fn base_cmd(cfg: &Config, stdin: bool) -> (v: Vec<String>)
    ensures
        texts(v@) == base_line(*cfg, stdin),
{
    let mut v: Vec<String> = Vec::new();
    put(&mut v, cfg.ffmpeg.as_str());
    put(&mut v, "-hide_banner");
    put(&mut v, "-loglevel");
    put(&mut v, cfg.loglevel.as_str());
    if !stdin {
        put(&mut v, "-nostdin");
    }
    extend(&mut v, &cfg.global_args);
    assert(texts(v@) =~= base_line(*cfg, stdin));
    v
}

fn in_head(cfg: &Config, more: &Vec<String>, input: &str) -> (v: Vec<String>)
    ensures
        texts(v@) == input_line(*cfg, texts(more@), input@),
{
    let mut v = base_cmd(cfg, false);
    extend(&mut v, &cfg.in_args);
    extend(&mut v, more);
    put(&mut v, "-i");
    put(&mut v, input);
    assert(texts(v@) =~= input_line(*cfg, texts(more@), input@));
    v
}

fn decode_head(cfg: &Config, dec: &Decode, input: &str) -> (v: Vec<String>)
    ensures
        texts(v@) == decode_line(*cfg, *dec, input@),
{
    let mut v = in_head(cfg, &dec.video_in_args, input);
    put(&mut v, "-map");
    put(&mut v, cfg.vmap.as_str());
    put(&mut v, "-an");
    put(&mut v, "-sn");
    put(&mut v, "-dn");
    put(&mut v, "-r");
    put(&mut v, dec.fps.as_str());
    if chars_of(dec.vf.as_str()).len() > 0 {
        put(&mut v, "-vf");
        put(&mut v, dec.vf.as_str());
    }
    put(&mut v, "-pix_fmt");
    put(&mut v, dec.pix_fmt.as_str());
    if let Some(n) = dec.frames {
        put(&mut v, "-frames:v");
        put(&mut v, decimal_string(n as u64).as_str());
    }
    extend(&mut v, &cfg.decode_args);
    assert(texts(v@) =~= decode_line(*cfg, *dec, input@));
    v
}

/// One decoded frame into a NUT container: tells us the real post-filter frame size.
pub fn probe_frame_cmd(cfg: &Config, dec: &Decode, input: &str, out: &str) -> (v: Vec<String>)
    ensures
        texts(v@) == decode_line(*cfg, *dec, input@) + seq![
            "-frames:v"@,
            "1"@,
            "-c:v"@,
            "rawvideo"@,
            "-f"@,
            "nut"@,
            "-y"@,
            out@,
        ],
{
    let mut v = decode_head(cfg, dec, input);
    let ghost front = texts(v@);
    put(&mut v, "-frames:v");
    put(&mut v, "1");
    put(&mut v, "-c:v");
    put(&mut v, "rawvideo");
    put(&mut v, "-f");
    put(&mut v, "nut");
    put(&mut v, "-y");
    put(&mut v, out);
    assert(texts(v@) =~= front + seq![
        "-frames:v"@,
        "1"@,
        "-c:v"@,
        "rawvideo"@,
        "-f"@,
        "nut"@,
        "-y"@,
        out@,
    ]);
    v
}

/// Decodes raw frames into a file.
pub fn decode_file_cmd(cfg: &Config, dec: &Decode, input: &str, out: &str) -> (v: Vec<String>)
    ensures
        texts(v@) == decode_line(*cfg, *dec, input@) + seq!["-f"@, "rawvideo"@, "-y"@, out@],
{
    let mut v = decode_head(cfg, dec, input);
    let ghost front = texts(v@);
    put(&mut v, "-f");
    put(&mut v, "rawvideo");
    put(&mut v, "-y");
    put(&mut v, out);
    assert(texts(v@) =~= front + seq!["-f"@, "rawvideo"@, "-y"@, out@]);
    v
}

/// Decodes raw frames into a pipe.
pub fn decode_pipe_cmd(cfg: &Config, dec: &Decode, input: &str) -> (v: Vec<String>)
    ensures
        texts(v@) == decode_line(*cfg, *dec, input@) + seq!["-f"@, "rawvideo"@, "pipe:1"@],
{
    let mut v = decode_head(cfg, dec, input);
    let ghost front = texts(v@);
    put(&mut v, "-f");
    put(&mut v, "rawvideo");
    put(&mut v, "pipe:1");
    assert(texts(v@) =~= front + seq!["-f"@, "rawvideo"@, "pipe:1"@]);
    v
}

/// The arguments of x264 for the intermediate.
pub open spec fn x264_args() -> Seq<Seq<char>> {
    seq!["-crf"@, "10"@, "-preset"@, "veryfast"@]
}

/// The arguments of ffv1 for the intermediate.
pub open spec fn ffv1_args() -> Seq<Seq<char>> {
    seq![
        "-level"@,
        "3"@,
        "-coder"@,
        "1"@,
        "-context"@,
        "1"@,
        "-g"@,
        "1"@,
        "-slicecrc"@,
        "0"@,
    ]
}

/// The chroma planes are subsampled in a way that x264 takes, and divide the frame.
pub open spec fn x264_chroma(f: FormatView, w: nat, h: nat) -> bool {
    f.is_yuv() && {
        let (sx, sy) = (f.planes[1].sx, f.planes[1].sy);
        &&& (sx == 0 && sy == 0) || (sx == 1 && sy == 0) || (sx == 1 && sy == 1)
        &&& w % pow2(sx) == 0
        &&& h % pow2(sy) == 0
    }
}

/// The intermediate codec for a format and a frame size, with its arguments.
pub open spec fn temp_codec(f: FormatView, w: nat, h: nat) -> (Seq<char>, Seq<Seq<char>>) {
    if (f.depth == 8 || f.depth == 10) && !f.has_alpha() && (x264_chroma(f, w, h) || f.is_gray()) {
        ("libx264"@, x264_args())
    } else if f.bytes == 1 && (f.planes[0].kind matches KindView::Packed(l) && (l == "rgb"@ || l
        == "bgr"@ || l == "bgrx"@)) {
        ("libx264rgb"@, x264_args())
    } else {
        ("ffv1"@, ffv1_args())
    }
}

fn chroma_fits(pf: &PixelFormat, w: usize, h: usize) -> (r: bool)
    requires
        pf.wf(),
    ensures
        r == x264_chroma(pf@, w as nat, h as nat),
{
    if !pf.is_yuv() {
        return false;
    }
    assert(pf@.planes[1] == pf.planes@[1]@);
    let sx = pf.planes[1].sx;
    let sy = pf.planes[1].sy;
    proof {
        lemma2_to64();
    }
    let known = (sx == 0 && sy == 0) || (sx == 1 && sy == 0) || (sx == 1 && sy == 1);
    known && (sx == 0 || w % 2 == 0) && (sy == 0 || h % 2 == 0)
}

fn packed_for_x264(pf: &PixelFormat) -> (r: bool)
    requires
        pf.wf(),
    ensures
        r == (pf@.planes[0].kind matches KindView::Packed(l) && (l == "rgb"@ || l == "bgr"@ || l
            == "bgrx"@)),
{
    assert(pf@.planes[0] == pf.planes@[0]@);
    match pf.planes[0].kind {
        PlaneKind::Packed(layout) => {
            let l = chars_of(layout);
            same(&l, "rgb") || same(&l, "bgr") || same(&l, "bgrx")
        },
        _ => false,
    }
}

/// Intermediate codec for the reversed streaming path: x264 where it takes the format as is, else ffv1.
pub fn temp_codec_defaults(pf: &PixelFormat, w: usize, h: usize) -> (r: (
    &'static str,
    Vec<&'static str>,
))
    requires
        pf.wf(),
    ensures
        (r.0@, str_texts(r.1@)) == temp_codec(pf@, w as nat, h as nat),
{
    if (pf.depth == 8 || pf.depth == 10) && !pf.has_alpha() && (chroma_fits(pf, w, h)
        || pf.is_gray()) {
        let args = vec!["-crf", "10", "-preset", "veryfast"];
        assert(str_texts(args@) =~= x264_args());
        ("libx264", args)
    } else if pf.bytes == 1 && packed_for_x264(pf) {
        let args = vec!["-crf", "10", "-preset", "veryfast"];
        assert(str_texts(args@) =~= x264_args());
        ("libx264rgb", args)
    } else {
        let args = vec![
            "-level",
            "3",
            "-coder",
            "1",
            "-context",
            "1",
            "-g",
            "1",
            "-slicecrc",
            "0",
        ];
        assert(str_texts(args@) =~= ffv1_args());
        ("ffv1", args)
    }
}

/// A setting, or a default.
pub open spec fn chosen(s: Option<String>, default: Seq<char>) -> Seq<char> {
    match s {
        Some(s) => s@,
        None => default,
    }
}

/// A list of arguments that was set, or a default.
pub open spec fn chosen_args(v: Option<Vec<String>>, default: Seq<Seq<char>>) -> Seq<Seq<char>> {
    match v {
        Some(v) => texts(v@),
        None => default,
    }
}

fn put_chosen(out: &mut Vec<String>, s: &Option<String>, default: &str)
    ensures
        texts(final(out)@) == texts(old(out)@).push(chosen(*s, default@)),
{
    match s {
        Some(s) => {
            put(out, s.as_str());
        },
        None => {
            put(out, default);
        },
    }
}

fn put_strs(out: &mut Vec<String>, v: &Vec<&'static str>)
    ensures
        texts(final(out)@) == texts(old(out)@) + str_texts(v@),
{
    let ghost before = texts(out@);
    for i in 0..v.len()
        invariant
            texts(out@) == before + str_texts(v@).take(i as int),
    {
        put(out, v[i]);
        assert(texts(out@) =~= before + str_texts(v@).take(i + 1));
    }
    assert(str_texts(v@).take(v@.len() as int) =~= str_texts(v@));
}

fn put_chosen_args(out: &mut Vec<String>, v: &Option<Vec<String>>, default: &Vec<&'static str>)
    ensures
        texts(final(out)@) == texts(old(out)@) + chosen_args(*v, str_texts(default@)),
{
    match v {
        Some(v) => {
            extend(out, v);
        },
        None => {
            put_strs(out, default);
        },
    }
}

/// How long a segment of `chunk` frames may take before the next keyframe ends it, in seconds.
pub open spec fn segment_time(chunk: nat, fps: RealView) -> RealView {
    real_quotient(real_sum(whole_real(chunk), real_of(true, -half())), fps)
}

/// The command line that transcodes into chunks.
pub open spec fn segment_line(
    cfg: Config,
    dec: Decode,
    input: Seq<char>,
    f: FormatView,
    w: nat,
    h: nat,
    chunk: nat,
    fps: RealView,
    pattern: Seq<char>,
) -> Seq<Seq<char>> {
    let (codec, args) = temp_codec(f, w, h);
    decode_line(cfg, dec, input) + seq!["-c:v"@, chosen(cfg.temp_vcodec, codec)] + chosen_args(
        cfg.temp_vcodec_args,
        args,
    ) + seq![
        "-force_key_frames"@,
        "expr:gte(n,n_forced*"@ + decimal(chunk) + ")"@,
        "-f"@,
        "segment"@,
        "-segment_time"@,
        fixed_real(segment_time(chunk, fps), 6),
        "-segment_format"@,
        "matroska"@,
        "-reset_timestamps"@,
        "1"@,
        "-y"@,
        pattern,
    ]
}

/// Transcode into consecutive chunk files of `chunk` frames each (keyframe forced at every chunk start).
pub fn segment_cmd(
    cfg: &Config,
    dec: &Decode,
    input: &str,
    pf: &PixelFormat,
    wh: [usize; 2],
    chunk: usize,
    fps_f: Real,
    pattern: &str,
) -> (v: Vec<String>)
    requires
        pf.wf(),
        fps_f.wf(),
    ensures
        texts(v@) == segment_line(
            *cfg,
            *dec,
            input@,
            pf@,
            wh[0] as nat,
            wh[1] as nat,
            chunk as nat,
            fps_f@,
            pattern@,
        ),
{
    let (codec, args) = temp_codec_defaults(pf, wh[0], wh[1]);
    let mut v = decode_head(cfg, dec, input);
    put(&mut v, "-c:v");
    put_chosen(&mut v, &cfg.temp_vcodec, codec);
    let ghost head = texts(v@);
    put_chosen_args(&mut v, &cfg.temp_vcodec_args, &args);
    let ghost front = texts(v@);
    let mut forced = "expr:gte(n,n_forced*".to_owned();
    put_decimal(&mut forced, chunk as u64);
    forced.append(")");
    let back = to_real(Float::ratio(1, 2).negated());
    let seconds = divide(add_up(to_whole(chunk as u64), back), fps_f);
    put(&mut v, "-force_key_frames");
    put(&mut v, forced.as_str());
    put(&mut v, "-f");
    put(&mut v, "segment");
    put(&mut v, "-segment_time");
    let mut time = String::new();
    put_fixed_real(&mut time, seconds, 6);
    assert(time@ =~= fixed_real(segment_time(chunk as nat, fps_f@), 6));
    put(&mut v, time.as_str());
    put(&mut v, "-segment_format");
    put(&mut v, "matroska");
    put(&mut v, "-reset_timestamps");
    put(&mut v, "1");
    put(&mut v, "-y");
    put(&mut v, pattern);
    proof {
        let tail = seq![
            "-force_key_frames"@,
            forced@,
            "-f"@,
            "segment"@,
            "-segment_time"@,
            fixed_real(segment_time(chunk as nat, fps_f@), 6),
            "-segment_format"@,
            "matroska"@,
            "-reset_timestamps"@,
            "1"@,
            "-y"@,
            pattern@,
        ];
        assert(texts(v@) =~= front + tail);
        assert(head =~= decode_line(*cfg, *dec, input@) + seq![
            "-c:v"@,
            chosen(cfg.temp_vcodec, codec@),
        ]);
    }
    v
}

/// Decodes one chunk into a pipe.
pub fn chunk_cmd(cfg: &Config, pix_fmt: &str, chunk: &str) -> (v: Vec<String>)
    ensures
        texts(v@) == base_line(*cfg, false) + seq![
            "-i"@,
            chunk@,
            "-map"@,
            "0:v:0"@,
            "-an"@,
            "-sn"@,
            "-dn"@,
            "-fps_mode"@,
            "passthrough"@,
            "-pix_fmt"@,
            pix_fmt@,
            "-f"@,
            "rawvideo"@,
            "pipe:1"@,
        ],
{
    let mut v = base_cmd(cfg, false);
    let ghost front = texts(v@);
    put(&mut v, "-i");
    put(&mut v, chunk);
    put(&mut v, "-map");
    put(&mut v, "0:v:0");
    put(&mut v, "-an");
    put(&mut v, "-sn");
    put(&mut v, "-dn");
    put(&mut v, "-fps_mode");
    put(&mut v, "passthrough");
    put(&mut v, "-pix_fmt");
    put(&mut v, pix_fmt);
    put(&mut v, "-f");
    put(&mut v, "rawvideo");
    put(&mut v, "pipe:1");
    assert(texts(v@) =~= front + seq![
        "-i"@,
        chunk@,
        "-map"@,
        "0:v:0"@,
        "-an"@,
        "-sn"@,
        "-dn"@,
        "-fps_mode"@,
        "passthrough"@,
        "-pix_fmt"@,
        pix_fmt@,
        "-f"@,
        "rawvideo"@,
        "pipe:1"@,
    ]);
    v
}

/// Dumps the audio into a file.
pub fn audio_cmd(cfg: &Config, dec: &Decode, input: &str, out: &str) -> (v: Vec<String>)
    ensures
        texts(v@) == input_line(*cfg, texts(dec.audio_in_args@), input@) + seq![
            "-map"@,
            cfg.amap@,
            "-vn"@,
            "-sn"@,
            "-dn"@,
            "-c:a"@,
            cfg.audio_codec@,
        ] + texts(cfg.audio_args@) + seq!["-y"@, out@],
{
    let mut v = in_head(cfg, &dec.audio_in_args, input);
    let ghost front = texts(v@);
    put(&mut v, "-map");
    put(&mut v, cfg.amap.as_str());
    put(&mut v, "-vn");
    put(&mut v, "-sn");
    put(&mut v, "-dn");
    put(&mut v, "-c:a");
    put(&mut v, cfg.audio_codec.as_str());
    extend(&mut v, &cfg.audio_args);
    put(&mut v, "-y");
    put(&mut v, out);
    assert(texts(v@) =~= front + seq![
        "-map"@,
        cfg.amap@,
        "-vn"@,
        "-sn"@,
        "-dn"@,
        "-c:a"@,
        cfg.audio_codec@,
    ] + texts(cfg.audio_args@) + seq!["-y"@, out@]);
    v
}

/// What the encoder is told.
pub struct EncodeParams<'a> {
    pub output: &'a str,
    pub width: usize,
    pub height: usize,
    pub out_fps: &'a str,
    pub pix_fmt: &'a str,
    pub out_pix_fmt: &'a str,
    pub audio: Option<(&'a str, &'a AudioPlan)>,
    pub color: &'a ColorInfo,
}

/// What the encoder is told, as a value: the audio is its file and its filters.
pub struct EncodeView {
    pub output: Seq<char>,
    pub width: nat,
    pub height: nat,
    pub out_fps: Seq<char>,
    pub pix_fmt: Seq<char>,
    pub out_pix_fmt: Seq<char>,
    pub audio: Option<(Seq<char>, Seq<char>)>,
    pub color: ColorInfo,
}

impl<'a> View for EncodeParams<'a> {
    type V = EncodeView;

    open spec fn view(&self) -> EncodeView {
        EncodeView {
            output: self.output@,
            width: self.width as nat,
            height: self.height as nat,
            out_fps: self.out_fps@,
            pix_fmt: self.pix_fmt@,
            out_pix_fmt: self.out_pix_fmt@,
            audio: match self.audio {
                Some((path, plan)) => Some((path@, plan.filter@)),
                None => None,
            },
            color: *self.color,
        }
    }
}

/// A flag with its value, where there is one.
pub open spec fn flag(name: Seq<char>, value: Option<String>) -> Seq<Seq<char>> {
    match value {
        Some(x) => seq![name, x@],
        None => Seq::empty(),
    }
}

/// The flags that tag the colours.
pub open spec fn color_flags(c: ColorInfo) -> Seq<Seq<char>> {
    flag("-color_range"@, c.range) + flag("-colorspace"@, c.space) + flag(
        "-color_primaries"@,
        c.primaries,
    ) + flag("-color_trc"@, c.transfer)
}

/// The video codec is an HEVC encoder.
pub open spec fn is_hevc(vcodec: Seq<char>) -> bool {
    occurs(vcodec, "265"@) || occurs(vcodec, "hevc"@)
}

/// The tag that players expect of HEVC in an MP4-like container.
pub open spec fn container_tag(vcodec: Seq<char>, ext: Seq<char>) -> Seq<Seq<char>> {
    if is_hevc(vcodec) && is_mp4(ext) {
        seq!["-tag:v"@, "hvc1"@]
    } else {
        Seq::empty()
    }
}

/// The inputs of the encoder: raw frames from a pipe, and the audio file.
pub open spec fn encoder_inputs(p: EncodeView) -> Seq<Seq<char>> {
    seq![
        "-thread_queue_size"@,
        "1024"@,
        "-f"@,
        "rawvideo"@,
        "-pix_fmt"@,
        p.pix_fmt,
        "-video_size"@,
        decimal(p.width) + "x"@ + decimal(p.height),
        "-framerate"@,
        p.out_fps,
        "-i"@,
        "pipe:0"@,
    ] + (match p.audio {
        Some((path, _)) => seq!["-thread_queue_size"@, "1024"@, "-i"@, path],
        None => Seq::empty(),
    })
}

/// The streams that go into the output, and the audio codec.
pub open spec fn encoder_streams(cfg: Config, p: EncodeView) -> Seq<Seq<char>> {
    let d = defaults_for(extension(p.output));
    seq!["-map"@, "0:v:0"@] + (match p.audio {
        Some((_, filter)) => seq![
            "-map"@,
            "1:a:0"@,
            "-af"@,
            filter,
            "-c:a"@,
            chosen(cfg.acodec, d.acodec),
        ] + chosen_args(cfg.acodec_args, d.acodec_args),
        None => seq!["-an"@],
    })
}

/// The video codec, its format and the colour tags.
pub open spec fn encoder_video(cfg: Config, p: EncodeView) -> Seq<Seq<char>> {
    let d = defaults_for(extension(p.output));
    seq!["-c:v"@, chosen(cfg.vcodec, d.vcodec)] + chosen_args(cfg.vcodec_args, d.vcodec_args) + (
    if lower(p.out_pix_fmt) != lower("none"@) {
        seq!["-pix_fmt"@, p.out_pix_fmt]
    } else {
        Seq::empty()
    }) + chosen_args(cfg.color_args, color_flags(p.color))
}

/// The container's flags and the output.
pub open spec fn encoder_output(cfg: Config, p: EncodeView) -> Seq<Seq<char>> {
    let ext = extension(p.output);
    let d = defaults_for(ext);
    chosen_args(
        cfg.encode_args,
        d.encode_args + container_tag(chosen(cfg.vcodec, d.vcodec), ext),
    ) + seq!["-y"@, p.output]
}

/// The command line of the encoder.
pub open spec fn encode_line(cfg: Config, p: EncodeView) -> Seq<Seq<char>> {
    base_line(cfg, true) + encoder_inputs(p) + encoder_streams(cfg, p) + encoder_video(cfg, p)
        + encoder_output(cfg, p)
}

fn put_flag(out: &mut Vec<String>, name: &str, value: &Option<String>)
    ensures
        texts(final(out)@) == texts(old(out)@) + flag(name@, *value),
{
    let ghost before = texts(out@);
    if let Some(x) = value {
        put(out, name);
        put(out, x.as_str());
    }
    assert(texts(out@) =~= before + flag(name@, *value));
}

fn put_inputs(v: &mut Vec<String>, p: &EncodeParams)
    ensures
        texts(final(v)@) == texts(old(v)@) + encoder_inputs(p@),
{
    let ghost before = texts(v@);
    let mut size = decimal_string(p.width as u64);
    size.append("x");
    put_decimal(&mut size, p.height as u64);
    put(v, "-thread_queue_size");
    put(v, "1024");
    put(v, "-f");
    put(v, "rawvideo");
    put(v, "-pix_fmt");
    put(v, p.pix_fmt);
    put(v, "-video_size");
    put(v, size.as_str());
    put(v, "-framerate");
    put(v, p.out_fps);
    put(v, "-i");
    put(v, "pipe:0");
    if let Some((path, _)) = p.audio {
        put(v, "-thread_queue_size");
        put(v, "1024");
        put(v, "-i");
        put(v, path);
    }
    assert(texts(v@) =~= before + encoder_inputs(p@));
}

fn put_streams(v: &mut Vec<String>, cfg: &Config, p: &EncodeParams, d: &EncodeDefaults)
    requires
        d@ == defaults_for(extension(p.output@)),
    ensures
        texts(final(v)@) == texts(old(v)@) + encoder_streams(*cfg, p@),
{
    let ghost before = texts(v@);
    put(v, "-map");
    put(v, "0:v:0");
    match p.audio {
        Some((_, plan)) => {
            put(v, "-map");
            put(v, "1:a:0");
            put(v, "-af");
            put(v, plan.filter.as_str());
            put(v, "-c:a");
            put_chosen(v, &cfg.acodec, d.acodec);
            put_chosen_args(v, &cfg.acodec_args, &d.acodec_args);
        },
        None => {
            put(v, "-an");
        },
    }
    assert(texts(v@) =~= before + encoder_streams(*cfg, p@));
}

fn put_colors(v: &mut Vec<String>, cfg: &Config, c: &ColorInfo)
    ensures
        texts(final(v)@) == texts(old(v)@) + chosen_args(cfg.color_args, color_flags(*c)),
{
    let ghost before = texts(v@);
    match &cfg.color_args {
        Some(a) => {
            extend(v, a);
        },
        None => {
            put_flag(v, "-color_range", &c.range);
            put_flag(v, "-colorspace", &c.space);
            put_flag(v, "-color_primaries", &c.primaries);
            put_flag(v, "-color_trc", &c.transfer);
            assert(texts(v@) =~= before + color_flags(*c));
        },
    }
}

fn put_video(v: &mut Vec<String>, cfg: &Config, p: &EncodeParams, d: &EncodeDefaults)
    requires
        d@ == defaults_for(extension(p.output@)),
    ensures
        texts(final(v)@) == texts(old(v)@) + encoder_video(*cfg, p@),
{
    let ghost before = texts(v@);
    put(v, "-c:v");
    put_chosen(v, &cfg.vcodec, d.vcodec);
    put_chosen_args(v, &cfg.vcodec_args, &d.vcodec_args);
    if !same_ignoring_case(p.out_pix_fmt, "none") {
        put(v, "-pix_fmt");
        put(v, p.out_pix_fmt);
    }
    put_colors(v, cfg, p.color);
    assert(texts(v@) =~= before + encoder_video(*cfg, p@));
}

fn wants_tag(vcodec: &str, ext: &str) -> (r: bool)
    ensures
        r == (is_hevc(vcodec@) && is_mp4(ext@)),
{
    let c = chars_of(vcodec);
    let e = chars_of(ext);
    (contains_text(&c, "265") || contains_text(&c, "hevc")) && (same(&e, "mp4") || same(&e, "m4v")
        || same(&e, "mov"))
}

fn put_output(v: &mut Vec<String>, cfg: &Config, p: &EncodeParams, d: &EncodeDefaults, ext: &str)
    requires
        ext@ == extension(p.output@),
        d@ == defaults_for(ext@),
    ensures
        texts(final(v)@) == texts(old(v)@) + encoder_output(*cfg, p@),
{
    let ghost before = texts(v@);
    match &cfg.encode_args {
        Some(a) => {
            extend(v, a);
        },
        None => {
            put_strs(v, &d.encode_args);
            let vcodec = match &cfg.vcodec {
                Some(c) => c.as_str(),
                None => d.vcodec,
            };
            if wants_tag(vcodec, ext) {
                put(v, "-tag:v");
                put(v, "hvc1");
            }
        },
    }
    put(v, "-y");
    put(v, p.output);
    assert(texts(v@) =~= before + encoder_output(*cfg, p@));
}

/// Encodes raw frames from a pipe, with the dumped audio.
pub fn encode_cmd(cfg: &Config, p: &EncodeParams) -> (v: Vec<String>)
    ensures
        texts(v@) == encode_line(*cfg, p@),
{
    let ext = lower_extension(p.output);
    let d = encode_defaults(ext.as_str());
    let mut v = base_cmd(cfg, true);
    put_inputs(&mut v, p);
    put_streams(&mut v, cfg, p, &d);
    put_video(&mut v, cfg, p, &d);
    put_output(&mut v, cfg, p, &d, ext.as_str());
    v
}

/// The directory for the temporary files: the one that is asked for, else that of the output (whose
/// parent is given), else the current one.
pub fn temp_base(cfg: &Config, parent: Option<&str>) -> (r: String)
    ensures
        r@ == (match (cfg.tmpdir, parent) {
            (Some(d), _) => d@,
            (None, Some(p)) => if p@.len() > 0 {
                p@
            } else {
                "."@
            },
            (None, None) => "."@,
        }),
{
    if let Some(d) = &cfg.tmpdir {
        return d.as_str().to_owned();
    }
    match parent {
        Some(p) => if chars_of(p).len() > 0 {
            p.to_owned()
        } else {
            ".".to_owned()
        },
        None => ".".to_owned(),
    }
}

} // verus!
