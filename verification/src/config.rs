//! Settings, read from environment variables.

use vstd::prelude::*;
use vstd::slice::slice_subrange;
use crate::binary64::{one, Float};
use crate::decimals::{parse_real, real_number, Real, RealView};
use crate::error::{Error, Fault};
use crate::geometry::{named_output, order_of, parse_order, parse_output_size, Axis, OutputSize};
use crate::number::{number, parse_number};
use crate::text::{
    chars_of, find, lower, position, same, same_ignoring_case, string_of, texts, to_lower, trim,
    trimmed,
};
use crate::util::{
    env_args, env_bool, env_or, env_parse, env_str, lookup, str_texts, Env, Issue,
};
use crate::volume::{named_interp, parse_interp, Interp};

verus! {

/// What happens to the audio when the frame count changes.
#[derive(Clone, Copy, Debug, PartialEq, Eq, Structural)]
pub enum AudioMode {
    /// Pitch-preserving time stretch (atempo chain).
    Tempo,
    /// Tape-style: resample (pitch changes with speed).
    Rate,
    /// Keep audio speed unchanged (only reverse/trim).
    Keep,
}

/// Where the volume is held.
#[derive(Clone, Copy, Debug, PartialEq, Eq, Structural)]
pub enum Mode {
    Auto,
    Stream,
    Ram,
    Disk,
}

/// Which part of the video a time window keeps.
#[derive(Clone, Copy, Debug, PartialEq, Eq, Structural)]
pub enum Anchor {
    Start,
    Middle,
    End,
}

impl Default for Anchor {
    fn default() -> (r: Anchor)
        ensures
            r == Anchor::Middle,
    {
        Anchor::Middle
    }
}

/// How the input volume is clipped.
#[derive(Clone, Copy, Debug, PartialEq, Eq, Structural)]
pub enum Clip {
    /// The whole video.
    Whole,
    Min(Anchor),
    Middle(Anchor),
    Nth(Option<usize>),
}

/// The time anchor that a text stands for.
pub open spec fn named_anchor(s: Seq<char>) -> Option<Anchor> {
    let t = lower(trim(s));
    if t == "start"@ || t == "begin"@ || t == "beginning"@ || t == "first"@ || t == "head"@ {
        Some(Anchor::Start)
    } else if t == "middle"@ || t == "mid"@ || t == "center"@ || t == "centre"@ {
        Some(Anchor::Middle)
    } else if t == "end"@ || t == "last"@ || t == "tail"@ {
        Some(Anchor::End)
    } else {
        None
    }
}

fn anchor_of(v: &[char]) -> (r: Option<Anchor>)
    ensures
        r == named_anchor(v@),
{
    let t = to_lower(trimmed(v));
    if same(&t, "start") || same(&t, "begin") || same(&t, "beginning") || same(&t, "first") || same(
        &t,
        "head",
    ) {
        Some(Anchor::Start)
    } else if same(&t, "middle") || same(&t, "mid") || same(&t, "center") || same(&t, "centre") {
        Some(Anchor::Middle)
    } else if same(&t, "end") || same(&t, "last") || same(&t, "tail") {
        Some(Anchor::End)
    } else {
        None
    }
}

/// Reads a time anchor.
pub fn parse_anchor(v: &str) -> (r: Result<Anchor, Error>)
    ensures
        match r {
            Ok(a) => named_anchor(v@) == Some(a),
            Err(e) => named_anchor(v@) is None && e.says(Fault::BadAnchor, "ROT_CLIP_TIME"@, v@),
        },
{
    match anchor_of(&chars_of(v)) {
        Some(a) => Ok(a),
        None => Err(Error::new(Fault::BadAnchor, "ROT_CLIP_TIME", v)),
    }
}

/// The clip kinds that a word stands for.
pub enum ClipKind {
    Whole,
    Min,
    Middle,
    Nth,
}

/// The clip kind that a lower-case word stands for.
pub open spec fn clip_kind(k: Seq<char>) -> Option<ClipKind> {
    if k == "none"@ || k == "off"@ || k == "input"@ {
        Some(ClipKind::Whole)
    } else if k == "min"@ || k == "cube"@ {
        Some(ClipKind::Min)
    } else if k == "middle"@ || k == "mid"@ || k == "median"@ {
        Some(ClipKind::Middle)
    } else if k == "nth"@ {
        Some(ClipKind::Nth)
    } else {
        None
    }
}

/// The time anchor behind a clip kind, the default one when nothing stands there.
pub open spec fn clip_anchor(rest: Seq<char>, anchor: Anchor) -> Option<Anchor> {
    if rest.len() == 0 {
        Some(anchor)
    } else {
        named_anchor(rest)
    }
}

/// The clip that a text stands for: a kind, and behind the first `:` or `=` a time anchor or a count.
pub open spec fn parsed_clip(v: Seq<char>, nth_env: Option<usize>, anchor: Anchor) -> Result<
    Clip,
    Fault,
> {
    let s = lower(trim(v));
    let at = position(s, ':', '=') as int;
    let kind = s.take(at);
    let rest = if at < s.len() {
        s.skip(at + 1)
    } else {
        Seq::empty()
    };
    match clip_kind(kind) {
        None => Err(Fault::BadClip),
        Some(ClipKind::Whole) => Ok(Clip::Whole),
        Some(ClipKind::Min) => match clip_anchor(rest, anchor) {
            Some(a) => Ok(Clip::Min(a)),
            None => Err(Fault::BadClipAnchor),
        },
        Some(ClipKind::Middle) => match clip_anchor(rest, anchor) {
            Some(a) => Ok(Clip::Middle(a)),
            None => Err(Fault::BadClipAnchor),
        },
        Some(ClipKind::Nth) => {
            let n: Result<Option<usize>, Fault> = if rest.len() == 0 {
                Ok(nth_env)
            } else {
                match number(rest, usize::MAX as nat) {
                    Ok(n) => Ok(Some(n as usize)),
                    Err(e) => Err(Fault::BadClipCount(e)),
                }
            };
            match n {
                Err(e) => Err(e),
                Ok(n) => if n == Some(0usize) {
                    Err(Fault::ZeroClipCount)
                } else {
                    Ok(Clip::Nth(n))
                },
            }
        },
    }
}

fn anchor_behind(rest: &[char], anchor: Anchor) -> (r: Option<Anchor>)
    ensures
        r == clip_anchor(rest@, anchor),
{
    if rest.len() == 0 {
        Some(anchor)
    } else {
        anchor_of(rest)
    }
}

/// Reads a clip.
pub fn parse_clip(v: &str, nth_env: Option<usize>, anchor: Anchor) -> (r: Result<Clip, Error>)
    ensures
        match r {
            Ok(c) => parsed_clip(v@, nth_env, anchor) == Ok::<Clip, Fault>(c),
            Err(e) => parsed_clip(v@, nth_env, anchor) == Err::<Clip, Fault>(e.fault) && e.says(
                e.fault,
                "ROT_CLIP"@,
                v@,
            ),
        },
        r matches Ok(c) ==> c != Clip::Nth(Some(0)),
{
    let text = chars_of(v);
    let s = to_lower(trimmed(&text));
    let at = find(&s, ':', '=');
    let kind = slice_subrange(&s, 0, at);
    assert(kind@ =~= s@.take(at as int));
    let empty: Vec<char> = Vec::new();
    let rest = if at < s.len() {
        slice_subrange(&s, at + 1, s.len())
    } else {
        &empty
    };
    assert(rest@ =~= if at < s@.len() {
        s@.skip(at + 1)
    } else {
        Seq::empty()
    });
    let outcome: Result<Clip, Fault> = if same(kind, "none") || same(kind, "off") || same(
        kind,
        "input",
    ) {
        Ok(Clip::Whole)
    } else if same(kind, "min") || same(kind, "cube") {
        match anchor_behind(rest, anchor) {
            Some(a) => Ok(Clip::Min(a)),
            None => Err(Fault::BadClipAnchor),
        }
    } else if same(kind, "middle") || same(kind, "mid") || same(kind, "median") {
        match anchor_behind(rest, anchor) {
            Some(a) => Ok(Clip::Middle(a)),
            None => Err(Fault::BadClipAnchor),
        }
    } else if same(kind, "nth") {
        let n: Result<Option<usize>, Fault> = if rest.len() == 0 {
            Ok(nth_env)
        } else {
            match parse_number(rest, usize::MAX as u64) {
                Ok(n) => Ok(Some(n as usize)),
                Err(e) => Err(Fault::BadClipCount(e)),
            }
        };
        match n {
            Err(e) => Err(e),
            Ok(n) => match n {
                Some(0) => Err(Fault::ZeroClipCount),
                _ => Ok(Clip::Nth(n)),
            },
        }
    } else {
        Err(Fault::BadClip)
    };
    match outcome {
        Ok(c) => Ok(c),
        Err(fault) => Err(Error::new(fault, "ROT_CLIP", v)),
    }
}

/// Everything that can be set.
#[derive(Clone, Debug)]
pub struct Config {
    pub threads: usize,
    pub quiet: bool,
    pub dry_run: bool,
    pub keep_temp: bool,
    pub tmpdir: Option<String>,
    pub force: bool,
    pub mode: Mode,
    pub in_memory_pct: Float,
    pub chunk_mb: usize,
    pub clip: Clip,
    pub order: [Axis; 3],
    pub interp: Interp,
    pub output: OutputSize,
    /// The output window follows the content.
    pub crop: bool,
    pub fill_spec: String,
    pub even_dims: bool,
    pub audio_mode: AudioMode,
    pub audio_reverse: Option<bool>,
    pub ffmpeg: String,
    pub ffprobe: String,
    pub loglevel: String,
    pub global_args: Vec<String>,
    pub in_args: Vec<String>,
    pub vmap: String,
    pub amap: String,
    pub fps: Option<String>,
    pub pix_fmt: String,
    pub vf: Option<String>,
    pub decode_args: Vec<String>,
    pub temp_vcodec: Option<String>,
    pub temp_vcodec_args: Option<Vec<String>>,
    pub audio_codec: String,
    pub audio_ext: String,
    pub audio_args: Vec<String>,
    pub no_audio: bool,
    pub out_fps: Option<String>,
    pub vcodec: Option<String>,
    pub vcodec_args: Option<Vec<String>>,
    pub out_pix_fmt: String,
    pub acodec: Option<String>,
    pub acodec_args: Option<Vec<String>>,
    pub audio_filters: Option<String>,
    pub encode_args: Option<Vec<String>>,
    pub color_args: Option<Vec<String>>,
}

/// What is wrong with a setting.
pub open spec fn issue<T>(r: Result<T, Issue>) -> Option<Issue> {
    match r {
        Ok(_) => None,
        Err(i) => Some(i),
    }
}

/// The first one of two issues.
pub open spec fn first(a: Option<Issue>, b: Option<Issue>) -> Option<Issue> {
    match a {
        Some(i) => Some(i),
        None => b,
    }
}

/// The text of an optional string.
pub open spec fn text_of(s: Option<String>) -> Option<Seq<char>> {
    match s {
        Some(s) => Some(s@),
        None => None,
    }
}

/// The texts of an optional list of arguments.
pub open spec fn texts_of(v: Option<Vec<String>>) -> Option<Seq<Seq<char>>> {
    match v {
        Some(v) => Some(texts(v@)),
        None => None,
    }
}

impl Env {
    /// The worker threads: as many as there are processors unless a number is asked for.
    pub open spec fn threads(self, cpus: usize) -> Result<usize, Issue> {
        match self.count("ROT_THREADS"@) {
            Err(i) => Err(i),
            Ok(Some(n)) => Ok(
                if n == 0 {
                    cpus
                } else {
                    n
                },
            ),
            Ok(None) => Ok(cpus),
        }
    }

    /// What happens to the audio.
    pub open spec fn audio_mode(self) -> Result<AudioMode, Issue> {
        let t = lower(self.setting_or("ROT_AUDIO_MODE"@, "tempo"@));
        if t == "tempo"@ || t == "atempo"@ || t == "stretch"@ {
            Ok(AudioMode::Tempo)
        } else if t == "rate"@ || t == "resample"@ || t == "tape"@ || t == "pitch"@ {
            Ok(AudioMode::Rate)
        } else if t == "none"@ || t == "keep"@ || t == "off"@ {
            Ok(AudioMode::Keep)
        } else {
            Err(Issue { fault: Fault::BadAudioMode, name: "ROT_AUDIO_MODE"@, text: t })
        }
    }

    /// Whether the audio is reversed; nothing when the rotation decides.
    pub open spec fn audio_reverse(self) -> Result<Option<bool>, Issue> {
        let t = lower(self.setting_or("ROT_AUDIO_REVERSE"@, "auto"@));
        if t == "auto"@ {
            Ok(None)
        } else if t == "1"@ || t == "true"@ || t == "yes"@ || t == "on"@ {
            Ok(Some(true))
        } else if t == "0"@ || t == "false"@ || t == "no"@ || t == "off"@ {
            Ok(Some(false))
        } else {
            Err(Issue { fault: Fault::BadAudioReverse, name: "ROT_AUDIO_REVERSE"@, text: t })
        }
    }

    /// Where the volume is held.
    pub open spec fn mode(self) -> Result<Mode, Issue> {
        let t = lower(self.setting_or("ROT_MODE"@, "auto"@));
        if t == "auto"@ {
            Ok(Mode::Auto)
        } else if t == "stream"@ || t == "planar"@ {
            Ok(Mode::Stream)
        } else if t == "ram"@ || t == "memory"@ || t == "mem"@ {
            Ok(Mode::Ram)
        } else if t == "disk"@ || t == "mmap"@ {
            Ok(Mode::Disk)
        } else {
            Err(Issue { fault: Fault::BadMode, name: "ROT_MODE"@, text: t })
        }
    }

    /// The share of memory that the volume may take, in percent.
    pub open spec fn in_memory(self) -> Result<int, Issue> {
        match self.setting("ROT_IN_MEMORY"@) {
            None => Ok((80 * one()) as int),
            Some(v) => match real_number(v) {
                None => Err(Issue { fault: Fault::BadReal, name: "ROT_IN_MEMORY"@, text: v }),
                Some(x) => match x {
                    RealView::Finite(p) if 0 <= p <= 100 * one() => Ok(p),
                    RealView::NegativeZero => Ok(0),
                    _ => Err(
                        Issue { fault: Fault::MemoryOutOfRange, name: "ROT_IN_MEMORY"@, text: v },
                    ),
                },
            },
        }
    }

    /// Megabytes per chunk.
    pub open spec fn chunk_mb(self) -> Result<usize, Issue> {
        match self.count("ROT_CHUNK_MB"@) {
            Err(i) => Err(i),
            Ok(None) => Ok(512),
            Ok(Some(n)) => Ok(
                if n < 1 {
                    1
                } else {
                    n
                },
            ),
        }
    }

    /// The default time anchor.
    pub open spec fn clip_time(self) -> Result<Anchor, Issue> {
        let v = self.setting_or("ROT_CLIP_TIME"@, "middle"@);
        match named_anchor(v) {
            Some(a) => Ok(a),
            None => Err(Issue { fault: Fault::BadAnchor, name: "ROT_CLIP_TIME"@, text: v }),
        }
    }

    /// How the input volume is clipped, once its parts are known.
    pub open spec fn clip(self) -> Result<Clip, Issue> {
        match (self.clip_time(), self.count("ROT_NTH"@)) {
            (Ok(anchor), Ok(nth)) => {
                let v = self.setting_or("ROT_CLIP"@, "none"@);
                match parsed_clip(v, nth, anchor) {
                    Ok(c) => Ok(c),
                    Err(fault) => Err(Issue { fault, name: "ROT_CLIP"@, text: v }),
                }
            },
            (Err(i), _) => Err(i),
            (_, Err(i)) => Err(i),
        }
    }

    /// The order of the rotations.
    pub open spec fn order(self) -> Result<(Axis, Axis, Axis), Issue> {
        let t = lower(trim(self.setting_or("ROT_ORDER"@, "xyz"@)));
        match order_of(t) {
            Some(o) => Ok(o),
            None => Err(Issue { fault: Fault::BadOrder, name: "ROT_ORDER"@, text: t }),
        }
    }

    /// The interpolation.
    pub open spec fn interp(self) -> Result<Interp, Issue> {
        let v = self.setting_or("ROT_INTERP"@, "trilinear"@);
        match named_interp(v) {
            Some(i) => Ok(i),
            None => Err(Issue { fault: Fault::BadInterp, name: "ROT_INTERP"@, text: v }),
        }
    }

    /// The output size.
    pub open spec fn output(self) -> Result<OutputSize, Issue> {
        let v = self.setting_or("ROT_OUTPUT"@, "fit"@);
        match named_output(v) {
            Ok(o) => Ok(o),
            Err(fault) => Err(Issue { fault, name: "ROT_OUTPUT"@, text: v }),
        }
    }

    /// A list of arguments, empty unless set.
    pub open spec fn extra(self, name: Seq<char>) -> Result<Seq<Seq<char>>, Issue> {
        self.arguments(name, Seq::empty())
    }

    /// A list of arguments that takes the place of a default when it is set.
    pub open spec fn replacement(self, name: Seq<char>) -> Result<Option<Seq<Seq<char>>>, Issue> {
        match self.setting(name) {
            None => Ok(None),
            Some(_) => match self.extra(name) {
                Ok(v) => Ok(Some(v)),
                Err(i) => Err(i),
            },
        }
    }

    /// The decode filters, unless set to none.
    pub open spec fn filters(self) -> Option<Seq<char>> {
        match self.setting("FF_VF"@) {
            Some(v) => if lower(v) == lower("none"@) {
                None
            } else {
                Some(v)
            },
            None => None,
        }
    }

    /// The first thing that is wrong with the settings of the rotation.
    pub open spec fn rotation_issue(self, cpus: usize) -> Option<Issue> {
        first(
            issue(self.threads(cpus)),
            first(
                issue(self.audio_mode()),
                first(
                    issue(self.audio_reverse()),
                    first(
                        issue(self.mode()),
                        first(
                            issue(self.in_memory()),
                            first(
                                issue(self.chunk_mb()),
                                first(
                                    issue(self.clip()),
                                    first(
                                        issue(self.switch("ROT_QUIET"@, false)),
                                        first(
                                            issue(self.switch("ROT_DRY_RUN"@, false)),
                                            first(
                                                issue(self.switch("ROT_KEEP_TEMP"@, false)),
                                                self.shape_issue(),
                                            ),
                                        ),
                                    ),
                                ),
                            ),
                        ),
                    ),
                ),
            ),
        )
    }

    /// The first thing that is wrong with the settings of the output.
    pub open spec fn shape_issue(self) -> Option<Issue> {
        first(
            issue(self.switch("ROT_FORCE"@, false)),
            first(
                issue(self.order()),
                first(
                    issue(self.interp()),
                    first(
                        issue(self.output()),
                        first(
                            issue(self.switch("ROT_CROP"@, false)),
                            issue(self.switch("ROT_EVEN_DIMS"@, true)),
                        ),
                    ),
                ),
            ),
        )
    }

    /// The first thing that is wrong with the settings of the tools.
    pub open spec fn tool_issue(self) -> Option<Issue> {
        first(
            issue(self.extra("FF_GLOBAL_ARGS"@)),
            first(
                issue(self.extra("FF_IN_ARGS"@)),
                first(
                    issue(self.extra("FF_DECODE_ARGS"@)),
                    first(
                        issue(self.replacement("FF_TEMP_VCODEC_ARGS"@)),
                        first(
                            issue(self.extra("FF_AUDIO_ARGS"@)),
                            first(
                                issue(self.switch("FF_NO_AUDIO"@, false)),
                                first(
                                    issue(self.replacement("FF_VCODEC_ARGS"@)),
                                    first(
                                        issue(self.replacement("FF_ACODEC_ARGS"@)),
                                        first(
                                            issue(self.replacement("FF_ENCODE_ARGS"@)),
                                            issue(self.replacement("FF_COLOR_ARGS"@)),
                                        ),
                                    ),
                                ),
                            ),
                        ),
                    ),
                ),
            ),
        )
    }
}

impl Config {
    /// The settings of the rotation are those in the environment.
    pub open spec fn rotates_as(self, env: Env, cpus: usize) -> bool {
        &&& env.threads(cpus) == Ok::<usize, Issue>(self.threads)
        &&& env.audio_mode() == Ok::<AudioMode, Issue>(self.audio_mode)
        &&& env.audio_reverse() == Ok::<Option<bool>, Issue>(self.audio_reverse)
        &&& env.mode() == Ok::<Mode, Issue>(self.mode)
        &&& env.in_memory() == Ok::<int, Issue>(self.in_memory_pct.value())
        &&& env.chunk_mb() == Ok::<usize, Issue>(self.chunk_mb)
        &&& env.clip() == Ok::<Clip, Issue>(self.clip)
        &&& env.switch("ROT_QUIET"@, false) == Ok::<bool, Issue>(self.quiet)
        &&& env.switch("ROT_DRY_RUN"@, false) == Ok::<bool, Issue>(self.dry_run)
        &&& env.switch("ROT_KEEP_TEMP"@, false) == Ok::<bool, Issue>(self.keep_temp)
        &&& env.setting("ROT_TMPDIR"@) == text_of(self.tmpdir)
        &&& env.switch("ROT_FORCE"@, false) == Ok::<bool, Issue>(self.force)
        &&& env.order() == Ok::<(Axis, Axis, Axis), Issue>(
            (self.order[0], self.order[1], self.order[2]),
        )
        &&& env.interp() == Ok::<Interp, Issue>(self.interp)
        &&& env.output() == Ok::<OutputSize, Issue>(self.output)
        &&& env.switch("ROT_CROP"@, false) == Ok::<bool, Issue>(self.crop)
        &&& env.setting_or("ROT_FILL"@, "0,0,0"@) == self.fill_spec@
        &&& env.switch("ROT_EVEN_DIMS"@, true) == Ok::<bool, Issue>(self.even_dims)
    }

    /// The settings of the tools are those in the environment.
    pub open spec fn uses(self, env: Env) -> bool {
        &&& env.setting_or("FF_FFMPEG"@, "ffmpeg"@) == self.ffmpeg@
        &&& env.setting_or("FF_FFPROBE"@, "ffprobe"@) == self.ffprobe@
        &&& env.setting_or("FF_LOGLEVEL"@, "error"@) == self.loglevel@
        &&& env.extra("FF_GLOBAL_ARGS"@) == Ok::<Seq<Seq<char>>, Issue>(texts(self.global_args@))
        &&& env.extra("FF_IN_ARGS"@) == Ok::<Seq<Seq<char>>, Issue>(texts(self.in_args@))
        &&& env.setting_or("FF_VMAP"@, "0:v:0"@) == self.vmap@
        &&& env.setting_or("FF_AMAP"@, "0:a:0"@) == self.amap@
        &&& env.setting("FF_FPS"@) == text_of(self.fps)
        &&& env.setting_or("FF_PIX_FMT"@, "auto"@) == self.pix_fmt@
        &&& env.filters() == text_of(self.vf)
        &&& env.extra("FF_DECODE_ARGS"@) == Ok::<Seq<Seq<char>>, Issue>(texts(self.decode_args@))
        &&& env.setting("FF_TEMP_VCODEC"@) == text_of(self.temp_vcodec)
        &&& env.replacement("FF_TEMP_VCODEC_ARGS"@) == Ok::<Option<Seq<Seq<char>>>, Issue>(
            texts_of(self.temp_vcodec_args),
        )
        &&& env.setting_or("FF_AUDIO_CODEC"@, "pcm_f32le"@) == self.audio_codec@
        &&& env.setting_or("FF_AUDIO_EXT"@, "wav"@) == self.audio_ext@
        &&& env.extra("FF_AUDIO_ARGS"@) == Ok::<Seq<Seq<char>>, Issue>(texts(self.audio_args@))
        &&& env.switch("FF_NO_AUDIO"@, false) == Ok::<bool, Issue>(self.no_audio)
        &&& env.setting("FF_OUT_FPS"@) == text_of(self.out_fps)
        &&& env.setting("FF_VCODEC"@) == text_of(self.vcodec)
        &&& env.replacement("FF_VCODEC_ARGS"@) == Ok::<Option<Seq<Seq<char>>>, Issue>(
            texts_of(self.vcodec_args),
        )
        &&& env.setting_or("FF_OUT_PIX_FMT"@, "auto"@) == self.out_pix_fmt@
        &&& env.setting("FF_ACODEC"@) == text_of(self.acodec)
        &&& env.replacement("FF_ACODEC_ARGS"@) == Ok::<Option<Seq<Seq<char>>>, Issue>(
            texts_of(self.acodec_args),
        )
        &&& env.setting("FF_AUDIO_FILTERS"@) == text_of(self.audio_filters)
        &&& env.replacement("FF_ENCODE_ARGS"@) == Ok::<Option<Seq<Seq<char>>>, Issue>(
            texts_of(self.encode_args),
        )
        &&& env.replacement("FF_COLOR_ARGS"@) == Ok::<Option<Seq<Seq<char>>>, Issue>(
            texts_of(self.color_args),
        )
    }

    /// The settings are such as the settings in an environment can be.
    pub open spec fn wf(self) -> bool {
        &&& self.in_memory_pct.wf()
        &&& self.in_memory_pct.e <= 971
        &&& 0 <= self.in_memory_pct.value() <= 100 * one()
        &&& self.chunk_mb >= 1
        &&& self.clip != Clip::Nth(Some(0))
    }
}

fn lowered(env: &Env, name: &str, default: &str) -> (r: Vec<char>)
    ensures
        r@ == lower(env.setting_or(name@, default@)),
{
    to_lower(&chars_of(env_or(env, name, default).as_str()))
}

fn read_threads(env: &Env, cpus: usize) -> (r: Result<usize, Error>)
    ensures
        match r {
            Ok(n) => env.threads(cpus) == Ok::<usize, Issue>(n),
            Err(e) => env.threads(cpus) matches Err(i) && e.reports(i),
        },
{
    match env_parse(env, "ROT_THREADS") {
        Err(e) => Err(e),
        Ok(Some(n)) => Ok(
            if n == 0 {
                cpus
            } else {
                n
            },
        ),
        Ok(None) => Ok(cpus),
    }
}

fn read_audio_mode(env: &Env) -> (r: Result<AudioMode, Error>)
    ensures
        match r {
            Ok(m) => env.audio_mode() == Ok::<AudioMode, Issue>(m),
            Err(e) => env.audio_mode() matches Err(i) && e.reports(i),
        },
{
    let t = lowered(env, "ROT_AUDIO_MODE", "tempo");
    if same(&t, "tempo") || same(&t, "atempo") || same(&t, "stretch") {
        Ok(AudioMode::Tempo)
    } else if same(&t, "rate") || same(&t, "resample") || same(&t, "tape") || same(&t, "pitch") {
        Ok(AudioMode::Rate)
    } else if same(&t, "none") || same(&t, "keep") || same(&t, "off") {
        Ok(AudioMode::Keep)
    } else {
        Err(Error::new(Fault::BadAudioMode, "ROT_AUDIO_MODE", string_of(&t).as_str()))
    }
}

fn read_audio_reverse(env: &Env) -> (r: Result<Option<bool>, Error>)
    ensures
        match r {
            Ok(b) => env.audio_reverse() == Ok::<Option<bool>, Issue>(b),
            Err(e) => env.audio_reverse() matches Err(i) && e.reports(i),
        },
{
    let t = lowered(env, "ROT_AUDIO_REVERSE", "auto");
    if same(&t, "auto") {
        Ok(None)
    } else if same(&t, "1") || same(&t, "true") || same(&t, "yes") || same(&t, "on") {
        Ok(Some(true))
    } else if same(&t, "0") || same(&t, "false") || same(&t, "no") || same(&t, "off") {
        Ok(Some(false))
    } else {
        Err(Error::new(Fault::BadAudioReverse, "ROT_AUDIO_REVERSE", string_of(&t).as_str()))
    }
}

fn read_mode(env: &Env) -> (r: Result<Mode, Error>)
    ensures
        match r {
            Ok(m) => env.mode() == Ok::<Mode, Issue>(m),
            Err(e) => env.mode() matches Err(i) && e.reports(i),
        },
{
    let t = lowered(env, "ROT_MODE", "auto");
    if same(&t, "auto") {
        Ok(Mode::Auto)
    } else if same(&t, "stream") || same(&t, "planar") {
        Ok(Mode::Stream)
    } else if same(&t, "ram") || same(&t, "memory") || same(&t, "mem") {
        Ok(Mode::Ram)
    } else if same(&t, "disk") || same(&t, "mmap") {
        Ok(Mode::Disk)
    } else {
        Err(Error::new(Fault::BadMode, "ROT_MODE", string_of(&t).as_str()))
    }
}

fn read_in_memory(env: &Env) -> (r: Result<Float, Error>)
    ensures
        match r {
            Ok(p) => {
                &&& env.in_memory() == Ok::<int, Issue>(p.value())
                &&& p.wf() && p.e <= 971
                &&& 0 <= p.value() <= 100 * one()
            },
            Err(e) => env.in_memory() matches Err(i) && e.reports(i),
        },
{
    let v = match env_str(env, "ROT_IN_MEMORY") {
        None => {
            return Ok(Float::from_int(80));
        },
        Some(v) => v,
    };
    match parse_real(&chars_of(v.as_str())) {
        None => {
            return Err(Error::new(Fault::BadReal, "ROT_IN_MEMORY", v.as_str()));
        },
        Some(Real::Finite(p)) => {
            if !p.less(Float::zero()) && !Float::from_int(100).less(p) {
                return Ok(p);
            }
        },
        Some(_) => {},
    }
    Err(Error::new(Fault::MemoryOutOfRange, "ROT_IN_MEMORY", v.as_str()))
}

fn read_chunk_mb(env: &Env) -> (r: Result<usize, Error>)
    ensures
        match r {
            Ok(n) => env.chunk_mb() == Ok::<usize, Issue>(n) && n >= 1,
            Err(e) => env.chunk_mb() matches Err(i) && e.reports(i),
        },
{
    match env_parse(env, "ROT_CHUNK_MB") {
        Err(e) => Err(e),
        Ok(None) => Ok(512),
        Ok(Some(n)) => Ok(
            if n < 1 {
                1
            } else {
                n
            },
        ),
    }
}

fn read_clip(env: &Env) -> (r: Result<Clip, Error>)
    ensures
        match r {
            Ok(c) => env.clip() == Ok::<Clip, Issue>(c) && c != Clip::Nth(Some(0)),
            Err(e) => env.clip() matches Err(i) && e.reports(i),
        },
{
    let anchor = match parse_anchor(env_or(env, "ROT_CLIP_TIME", "middle").as_str()) {
        Ok(a) => a,
        Err(e) => {
            return Err(e);
        },
    };
    let nth = match env_parse(env, "ROT_NTH") {
        Ok(n) => n,
        Err(e) => {
            return Err(e);
        },
    };
    parse_clip(env_or(env, "ROT_CLIP", "none").as_str(), nth, anchor)
}

fn read_extra(env: &Env, name: &str) -> (r: Result<Vec<String>, Error>)
    ensures
        match r {
            Ok(v) => env.extra(name@) == Ok::<Seq<Seq<char>>, Issue>(texts(v@)),
            Err(e) => env.extra(name@) matches Err(i) && e.reports(i),
        },
{
    let none: [&str; 0] = [];
    assert(str_texts(none@) =~= Seq::empty());
    env_args(env, name, &none)
}

fn read_replacement(env: &Env, name: &str) -> (r: Result<Option<Vec<String>>, Error>)
    ensures
        match r {
            Ok(v) => env.replacement(name@) == Ok::<Option<Seq<Seq<char>>>, Issue>(texts_of(v)),
            Err(e) => env.replacement(name@) matches Err(i) && e.reports(i),
        },
{
    match env_str(env, name) {
        None => Ok(None),
        Some(_) => match read_extra(env, name) {
            Ok(v) => Ok(Some(v)),
            Err(e) => Err(e),
        },
    }
}

fn read_filters(env: &Env) -> (r: Option<String>)
    ensures
        text_of(r) == env.filters(),
{
    match env_str(env, "FF_VF") {
        Some(v) => if same_ignoring_case(v.as_str(), "none") {
            None
        } else {
            Some(v)
        },
        None => None,
    }
}

impl Config {
    /// Reads every setting. `cpus` is the number of processors.
    pub fn from_env(env: &Env, cpus: usize) -> (r: Result<Config, Error>)
        ensures
            match r {
                Ok(c) => {
                    &&& env.rotation_issue(cpus) is None
                    &&& env.tool_issue() is None
                    &&& c.rotates_as(*env, cpus)
                    &&& c.uses(*env)
                    &&& c.wf()
                },
                Err(e) => first(env.rotation_issue(cpus), env.tool_issue()) matches Some(i)
                    && e.reports(i),
            },
    {
        let threads = match read_threads(env, cpus) {
            Ok(x) => x,
            Err(e) => {
                return Err(e);
            },
        };
        let audio_mode = match read_audio_mode(env) {
            Ok(x) => x,
            Err(e) => {
                return Err(e);
            },
        };
        let audio_reverse = match read_audio_reverse(env) {
            Ok(x) => x,
            Err(e) => {
                return Err(e);
            },
        };
        let mode = match read_mode(env) {
            Ok(x) => x,
            Err(e) => {
                return Err(e);
            },
        };
        let in_memory_pct = match read_in_memory(env) {
            Ok(x) => x,
            Err(e) => {
                return Err(e);
            },
        };
        let chunk_mb = match read_chunk_mb(env) {
            Ok(x) => x,
            Err(e) => {
                return Err(e);
            },
        };
        let clip = match read_clip(env) {
            Ok(x) => x,
            Err(e) => {
                return Err(e);
            },
        };
        let quiet = match env_bool(env, "ROT_QUIET", false) {
            Ok(x) => x,
            Err(e) => {
                return Err(e);
            },
        };
        let dry_run = match env_bool(env, "ROT_DRY_RUN", false) {
            Ok(x) => x,
            Err(e) => {
                return Err(e);
            },
        };
        let keep_temp = match env_bool(env, "ROT_KEEP_TEMP", false) {
            Ok(x) => x,
            Err(e) => {
                return Err(e);
            },
        };
        let force = match env_bool(env, "ROT_FORCE", false) {
            Ok(x) => x,
            Err(e) => {
                return Err(e);
            },
        };
        let order = match parse_order(env_or(env, "ROT_ORDER", "xyz").as_str()) {
            Ok(x) => x,
            Err(e) => {
                return Err(e);
            },
        };
        let interp = match parse_interp(env_or(env, "ROT_INTERP", "trilinear").as_str()) {
            Ok(x) => x,
            Err(e) => {
                return Err(e);
            },
        };
        let output = match parse_output_size(env_or(env, "ROT_OUTPUT", "fit").as_str()) {
            Ok(x) => x,
            Err(e) => {
                return Err(e);
            },
        };
        let crop = match env_bool(env, "ROT_CROP", false) {
            Ok(x) => x,
            Err(e) => {
                return Err(e);
            },
        };
        let even_dims = match env_bool(env, "ROT_EVEN_DIMS", true) {
            Ok(x) => x,
            Err(e) => {
                return Err(e);
            },
        };
        assert(env.rotation_issue(cpus) is None);
        let global_args = match read_extra(env, "FF_GLOBAL_ARGS") {
            Ok(x) => x,
            Err(e) => {
                return Err(e);
            },
        };
        let in_args = match read_extra(env, "FF_IN_ARGS") {
            Ok(x) => x,
            Err(e) => {
                return Err(e);
            },
        };
        let decode_args = match read_extra(env, "FF_DECODE_ARGS") {
            Ok(x) => x,
            Err(e) => {
                return Err(e);
            },
        };
        let temp_vcodec_args = match read_replacement(env, "FF_TEMP_VCODEC_ARGS") {
            Ok(x) => x,
            Err(e) => {
                return Err(e);
            },
        };
        let audio_args = match read_extra(env, "FF_AUDIO_ARGS") {
            Ok(x) => x,
            Err(e) => {
                return Err(e);
            },
        };
        let no_audio = match env_bool(env, "FF_NO_AUDIO", false) {
            Ok(x) => x,
            Err(e) => {
                return Err(e);
            },
        };
        let vcodec_args = match read_replacement(env, "FF_VCODEC_ARGS") {
            Ok(x) => x,
            Err(e) => {
                return Err(e);
            },
        };
        let acodec_args = match read_replacement(env, "FF_ACODEC_ARGS") {
            Ok(x) => x,
            Err(e) => {
                return Err(e);
            },
        };
        let encode_args = match read_replacement(env, "FF_ENCODE_ARGS") {
            Ok(x) => x,
            Err(e) => {
                return Err(e);
            },
        };
        let color_args = match read_replacement(env, "FF_COLOR_ARGS") {
            Ok(x) => x,
            Err(e) => {
                return Err(e);
            },
        };
        Ok(
            Config {
                threads,
                quiet,
                dry_run,
                keep_temp,
                tmpdir: env_str(env, "ROT_TMPDIR"),
                force,
                mode,
                in_memory_pct,
                chunk_mb,
                clip,
                order,
                interp,
                output,
                crop,
                fill_spec: env_or(env, "ROT_FILL", "0,0,0"),
                even_dims,
                audio_mode,
                audio_reverse,
                ffmpeg: env_or(env, "FF_FFMPEG", "ffmpeg"),
                ffprobe: env_or(env, "FF_FFPROBE", "ffprobe"),
                loglevel: env_or(env, "FF_LOGLEVEL", "error"),
                global_args,
                in_args,
                vmap: env_or(env, "FF_VMAP", "0:v:0"),
                amap: env_or(env, "FF_AMAP", "0:a:0"),
                fps: env_str(env, "FF_FPS"),
                pix_fmt: env_or(env, "FF_PIX_FMT", "auto"),
                vf: read_filters(env),
                decode_args,
                temp_vcodec: env_str(env, "FF_TEMP_VCODEC"),
                temp_vcodec_args,
                audio_codec: env_or(env, "FF_AUDIO_CODEC", "pcm_f32le"),
                audio_ext: env_or(env, "FF_AUDIO_EXT", "wav"),
                audio_args,
                no_audio,
                out_fps: env_str(env, "FF_OUT_FPS"),
                vcodec: env_str(env, "FF_VCODEC"),
                vcodec_args,
                out_pix_fmt: env_or(env, "FF_OUT_PIX_FMT", "auto"),
                acodec: env_str(env, "FF_ACODEC"),
                acodec_args,
                audio_filters: env_str(env, "FF_AUDIO_FILTERS"),
                encode_args,
                color_args,
            },
        )
    }
}

/// Per-container encoder defaults (used unless the matching FF_* variable is set).
#[derive(Clone, Debug)]
pub struct EncodeDefaults {
    pub vcodec: &'static str,
    pub vcodec_args: Vec<&'static str>,
    pub acodec: &'static str,
    pub acodec_args: Vec<&'static str>,
    pub encode_args: Vec<&'static str>,
}

/// Encoder defaults as a value.
#[verifier::ext_equal]
pub struct DefaultsView {
    pub vcodec: Seq<char>,
    pub vcodec_args: Seq<Seq<char>>,
    pub acodec: Seq<char>,
    pub acodec_args: Seq<Seq<char>>,
    pub encode_args: Seq<Seq<char>>,
}

impl View for EncodeDefaults {
    type V = DefaultsView;

    open spec fn view(&self) -> DefaultsView {
        DefaultsView {
            vcodec: self.vcodec@,
            vcodec_args: str_texts(self.vcodec_args@),
            acodec: self.acodec@,
            acodec_args: str_texts(self.acodec_args@),
            encode_args: str_texts(self.encode_args@),
        }
    }
}

/// The default arguments of x265.
pub open spec fn x265_args() -> Seq<Seq<char>> {
    seq!["-crf"@, "16"@, "-preset"@, "medium"@, "-x265-params"@, "log-level=error"@]
}

/// The extension is that of an MP4-like container.
pub open spec fn is_mp4(ext: Seq<char>) -> bool {
    ext == "mp4"@ || ext == "m4v"@ || ext == "mov"@
}

/// The defaults for a file extension.
pub open spec fn defaults_for(ext: Seq<char>) -> DefaultsView {
    let t = lower(ext);
    if is_mp4(t) {
        DefaultsView {
            vcodec: "libx265"@,
            vcodec_args: x265_args(),
            acodec: "aac"@,
            acodec_args: seq!["-b:a"@, "192k"@],
            encode_args: seq!["-movflags"@, "+faststart"@],
        }
    } else if t == "webm"@ {
        DefaultsView {
            vcodec: "libvpx-vp9"@,
            vcodec_args: seq!["-crf"@, "30"@, "-b:v"@, "0"@, "-row-mt"@, "1"@],
            acodec: "libopus"@,
            acodec_args: seq!["-b:a"@, "192k"@],
            encode_args: Seq::empty(),
        }
    } else if t == "avi"@ {
        DefaultsView {
            vcodec: "mpeg4"@,
            vcodec_args: seq!["-q:v"@, "2"@],
            acodec: "libmp3lame"@,
            acodec_args: seq!["-b:a"@, "192k"@],
            encode_args: Seq::empty(),
        }
    } else {
        DefaultsView {
            vcodec: "libx265"@,
            vcodec_args: x265_args(),
            acodec: "aac"@,
            acodec_args: seq!["-b:a"@, "192k"@],
            encode_args: Seq::empty(),
        }
    }
}

fn x265() -> (r: Vec<&'static str>)
    ensures
        str_texts(r@) == x265_args(),
{
    let r = vec!["-crf", "16", "-preset", "medium", "-x265-params", "log-level=error"];
    assert(str_texts(r@) =~= x265_args());
    r
}

/// The encoder defaults for a file extension.
pub fn encode_defaults(ext: &str) -> (r: EncodeDefaults)
    ensures
        r@ == defaults_for(ext@),
{
    let t = to_lower(&chars_of(ext));
    let r = if same(&t, "mp4") || same(&t, "m4v") || same(&t, "mov") {
        EncodeDefaults {
            vcodec: "libx265",
            vcodec_args: x265(),
            acodec: "aac",
            acodec_args: vec!["-b:a", "192k"],
            encode_args: vec!["-movflags", "+faststart"],
        }
    } else if same(&t, "webm") {
        EncodeDefaults {
            vcodec: "libvpx-vp9",
            vcodec_args: vec!["-crf", "30", "-b:v", "0", "-row-mt", "1"],
            acodec: "libopus",
            acodec_args: vec!["-b:a", "192k"],
            encode_args: Vec::new(),
        }
    } else if same(&t, "avi") {
        EncodeDefaults {
            vcodec: "mpeg4",
            vcodec_args: vec!["-q:v", "2"],
            acodec: "libmp3lame",
            acodec_args: vec!["-b:a", "192k"],
            encode_args: Vec::new(),
        }
    } else {
        EncodeDefaults {
            vcodec: "libx265",
            vcodec_args: x265(),
            acodec: "aac",
            acodec_args: vec!["-b:a", "192k"],
            encode_args: Vec::new(),
        }
    };
    proof {
        let want = defaults_for(ext@);
        assert(r@.vcodec_args =~= want.vcodec_args);
        assert(r@.acodec_args =~= want.acodec_args);
        assert(r@.encode_args =~= want.encode_args);
    }
    r
}

/// Every setting that is left out or empty has its default.
pub proof fn settings_are_optional(env: Env, name: Seq<char>, default: Seq<char>, on: bool)
    requires
        lookup(env.vars@, name) is None || lookup(env.vars@, name) == Some(Seq::<char>::empty()),
    ensures
        env.setting(name) is None,
        env.setting_or(name, default) == default,
        env.switch(name, on) == Ok::<bool, Issue>(on),
        env.count(name) == Ok::<Option<usize>, Issue>(None),
        env.extra(name) == Ok::<Seq<Seq<char>>, Issue>(Seq::empty()),
        env.replacement(name) == Ok::<Option<Seq<Seq<char>>>, Issue>(None),
{
}

/// The value "none" clears the default of an argument list.
pub proof fn none_clears_arguments(env: Env, name: Seq<char>, default: Seq<Seq<char>>)
    requires
        lookup(env.vars@, name) matches Some(v) && lower(v) == lower("none"@),
    ensures
        env.arguments(name, default) == Ok::<Seq<Seq<char>>, Issue>(Seq::empty()),
        env.replacement(name) == Ok::<Option<Seq<Seq<char>>>, Issue>(Some(Seq::empty())),
{
    let v = lookup(env.vars@, name)->Some_0;
    reveal_strlit("none");
    assert(lower(v).len() == lower("none"@).len());
}

} // verus!
