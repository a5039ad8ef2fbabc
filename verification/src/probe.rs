//! What is known of the input.

use vstd::prelude::*;
use vstd::slice::slice_subrange;
use crate::config::{text_of, Config};
use crate::decimals::{parse_real, real_number, Real, RealView};
use crate::error::{Error, Fault};
use crate::ffmpeg::ColorInfo;
use crate::number::{decimal, decimal_reads_back, number, parse_number};
use crate::reals::{divide, is_above_zero, positive, real_quotient};
use crate::text::{chars_of, find, position, same, trim, trimmed};
use crate::util::Issue;

verus! {

/// The frame rate that a text stands for: "num/den" or a number, positive above the bar.
pub open spec fn rate_of(s: Seq<char>) -> Option<RealView> {
    let t = trim(s);
    let p = position(t, '/', '/') as int;
    if p < t.len() {
        match (real_number(trim(t.take(p))), real_number(trim(t.skip(p + 1)))) {
            (Some(n), Some(d)) => if !d.is_zero() && positive(n) {
                Some(real_quotient(n, d))
            } else {
                None
            },
            _ => None,
        }
    } else {
        match real_number(t) {
            Some(v) => if positive(v) {
                Some(v)
            } else {
                None
            },
            None => None,
        }
    }
}

fn is_zero(x: Real) -> (r: bool)
    ensures
        r == x@.is_zero(),
{
    match x {
        Real::Finite(v) => {
            proof {
                v.lemma_nonzero();
            }
            v.m == 0
        },
        _ => false,
    }
}

/// Reads a frame rate.
pub fn parse_rate(s: &str) -> (r: Option<Real>)
    ensures
        match r {
            Some(x) => rate_of(s@) == Some(x@) && x.wf(),
            None => rate_of(s@) is None,
        },
{
    let c = chars_of(s);
    let t = trimmed(&c);
    let p = find(t, '/', '/');
    if p < t.len() {
        let left = slice_subrange(t, 0, p);
        let right = slice_subrange(t, p + 1, t.len());
        assert(left@ =~= t@.take(p as int));
        assert(right@ =~= t@.skip(p + 1));
        match (parse_real(trimmed(left)), parse_real(trimmed(right))) {
            (Some(n), Some(d)) => if is_zero(d) || !is_above_zero(n) {
                None
            } else {
                Some(divide(n, d))
            },
            _ => None,
        }
    } else {
        match parse_real(t) {
            Some(v) => if is_above_zero(v) {
                Some(v)
            } else {
                None
            },
            None => None,
        }
    }
}

/// A stream of the input, as the probe reports it.
#[derive(Clone, Debug)]
pub struct Stream {
    pub codec_type: Option<String>,
    pub codec_name: Option<String>,
    pub width: Option<u64>,
    pub height: Option<u64>,
    pub pix_fmt: Option<String>,
    pub r_frame_rate: Option<String>,
    pub avg_frame_rate: Option<String>,
    pub nb_frames: Option<String>,
    pub duration: Option<String>,
    pub sample_rate: Option<String>,
    pub channels: Option<u64>,
    pub color_range: Option<String>,
    pub color_space: Option<String>,
    pub color_transfer: Option<String>,
    pub color_primaries: Option<String>,
}

/// The audio of the input.
#[derive(Clone, Debug)]
pub struct AudioInfo {
    pub codec: String,
    pub sample_rate: u32,
    pub channels: u64,
}

/// What is known of the input.
#[derive(Clone, Debug)]
pub struct ProbeInfo {
    pub vcodec: String,
    pub width: usize,
    pub height: usize,
    pub pix_fmt: String,
    pub fps: String,
    pub fps_f: Real,
    pub nb_frames: Option<u64>,
    pub duration: Option<Real>,
    pub audio: Option<AudioInfo>,
    pub color: ColorInfo,
}

/// The first stream of a kind.
pub open spec fn first_stream(streams: Seq<Stream>, kind: Seq<char>) -> Option<Stream>
    decreases streams.len(),
{
    if streams.len() == 0 {
        None
    } else if text_of(streams[0].codec_type) == Some(kind) {
        Some(streams[0])
    } else {
        first_stream(streams.drop_first(), kind)
    }
}

/// The size of a stream, when it is known.
pub open spec fn size_of(v: Stream) -> Option<(u64, u64)> {
    match (v.width, v.height) {
        (Some(w), Some(h)) => if w > 0 && h > 0 {
            Some((w, h))
        } else {
            None
        },
        _ => None,
    }
}

/// A rate that can be read.
pub open spec fn usable(rate: Option<String>) -> Option<Seq<char>> {
    match rate {
        Some(t) => if rate_of(t@) is Some {
            Some(t@)
        } else {
            None
        },
        None => None,
    }
}

/// The frame rate of the frames: the one that is asked for, else the average one of the stream,
/// else its base rate.
pub open spec fn source_rate(cfg: Config, v: Stream) -> Option<Seq<char>> {
    match cfg.fps {
        Some(f) => Some(f@),
        None => match usable(v.avg_frame_rate) {
            Some(t) => Some(t),
            None => usable(v.r_frame_rate),
        },
    }
}

/// What keeps the input from being used.
pub open spec fn probe_issue(cfg: Config, streams: Seq<Stream>) -> Option<Issue> {
    let none = Seq::<char>::empty();
    match first_stream(streams, "video"@) {
        None => Some(Issue { fault: Fault::NoVideoStream, name: none, text: none }),
        Some(v) => if size_of(v) is None {
            Some(Issue { fault: Fault::NoDimensions, name: none, text: none })
        } else {
            match source_rate(cfg, v) {
                None => Some(Issue { fault: Fault::NoFrameRate, name: none, text: none }),
                Some(fps) => if rate_of(fps) is None {
                    Some(Issue { fault: Fault::BadFrameRate, name: none, text: fps })
                } else {
                    None
                },
            }
        },
    }
}

/// A text, empty when there is none.
pub open spec fn text_or_empty(s: Option<String>) -> Seq<char> {
    match s {
        Some(s) => s@,
        None => Seq::empty(),
    }
}

/// The number of frames that a stream reports.
pub open spec fn frame_count(s: Option<String>) -> Option<nat> {
    match s {
        Some(s) => match number(s@, u64::MAX as nat) {
            Ok(n) => if n > 0 {
                Some(n)
            } else {
                None
            },
            Err(_) => None,
        },
        None => None,
    }
}

/// A duration that can be read.
pub open spec fn duration_of(s: Option<Seq<char>>) -> Option<RealView> {
    match s {
        Some(s) => real_number(s),
        None => None,
    }
}

/// The duration of the stream, else that of the file.
pub open spec fn known_duration(stream: Option<Seq<char>>, file: Option<Seq<char>>) -> Option<
    RealView,
> {
    match duration_of(stream) {
        Some(d) => Some(d),
        None => duration_of(file),
    }
}

/// The sample rate that a stream reports, else 48000.
pub open spec fn sample_rate_of(s: Option<String>) -> nat {
    match s {
        Some(s) => match number(s@, u32::MAX as nat) {
            Ok(n) => n,
            Err(_) => 48000,
        },
        None => 48000,
    }
}

/// A colour tag that says something.
pub open spec fn known_tag(s: Option<String>) -> Option<Seq<char>> {
    match s {
        Some(s) => if s@ == "unknown"@ || s@ == "unspecified"@ || s@.len() == 0 {
            None
        } else {
            Some(s@)
        },
        None => None,
    }
}

impl ColorInfo {
    /// The tags are those of a stream.
    pub open spec fn tags(self, v: Stream) -> bool {
        &&& text_of(self.range) == known_tag(v.color_range)
        &&& text_of(self.space) == known_tag(v.color_space)
        &&& text_of(self.transfer) == known_tag(v.color_transfer)
        &&& text_of(self.primaries) == known_tag(v.color_primaries)
    }
}

impl AudioInfo {
    /// The audio is that of a stream.
    pub open spec fn describes(self, a: Stream) -> bool {
        &&& self.codec@ == text_or_empty(a.codec_name)
        &&& self.sample_rate == sample_rate_of(a.sample_rate)
        &&& self.channels == (match a.channels {
            Some(n) => n,
            None => 0,
        })
    }
}

impl ProbeInfo {
    /// The numbers are numbers of the format.
    pub open spec fn wf(self) -> bool {
        &&& self.fps_f.wf()
        &&& self.duration matches Some(d) ==> d.wf()
    }

    /// This is what the probe found.
    pub open spec fn describes(
        self,
        cfg: Config,
        streams: Seq<Stream>,
        format_duration: Option<Seq<char>>,
    ) -> bool {
        let v = first_stream(streams, "video"@)->0;
        &&& self.vcodec@ == text_or_empty(v.codec_name)
        &&& size_of(v) matches Some((w, h)) && self.width == w as usize && self.height == h as usize
        &&& self.pix_fmt@ == text_or_empty(v.pix_fmt)
        &&& source_rate(cfg, v) == Some(self.fps@)
        &&& rate_of(self.fps@) == Some(self.fps_f@)
        &&& frame_count(v.nb_frames) == (match self.nb_frames {
            Some(n) => Some(n as nat),
            None => None,
        })
        &&& known_duration(text_of(v.duration), format_duration) == (match self.duration {
            Some(d) => Some(d@),
            None => None,
        })
        &&& match (first_stream(streams, "audio"@), self.audio) {
            (Some(s), Some(a)) => a.describes(s),
            (None, None) => true,
            _ => false,
        }
        &&& self.color.tags(v)
    }
}

fn find_stream<'a>(streams: &'a [Stream], kind: &str) -> (r: Option<&'a Stream>)
    ensures
        match r {
            Some(s) => first_stream(streams@, kind@) == Some(*s),
            None => first_stream(streams@, kind@) is None,
        },
{
    assert(streams@.skip(0) =~= streams@);
    for i in 0..streams.len()
        invariant
            first_stream(streams@, kind@) == first_stream(streams@.skip(i as int), kind@),
    {
        assert(streams@.skip(i as int).drop_first() =~= streams@.skip(i + 1));
        if let Some(t) = &streams[i].codec_type {
            if same(&chars_of(t.as_str()), kind) {
                return Some(&streams[i]);
            }
        }
    }
    None
}

fn frame_size(v: &Stream) -> (r: Option<(u64, u64)>)
    ensures
        r == size_of(*v),
{
    match (v.width, v.height) {
        (Some(w), Some(h)) => if w > 0 && h > 0 {
            Some((w, h))
        } else {
            None
        },
        _ => None,
    }
}

fn copy_of(s: &Option<String>) -> (r: String)
    ensures
        r@ == text_or_empty(*s),
{
    match s {
        Some(s) => s.as_str().to_owned(),
        None => String::new(),
    }
}

fn usable_rate(rate: &Option<String>) -> (r: Option<String>)
    ensures
        text_of(r) == usable(*rate),
{
    match rate {
        Some(t) => if parse_rate(t.as_str()).is_some() {
            Some(t.as_str().to_owned())
        } else {
            None
        },
        None => None,
    }
}

fn choose_rate(cfg: &Config, v: &Stream) -> (r: Option<String>)
    ensures
        text_of(r) == source_rate(*cfg, *v),
{
    match &cfg.fps {
        Some(f) => Some(f.as_str().to_owned()),
        None => match usable_rate(&v.avg_frame_rate) {
            Some(t) => Some(t),
            None => usable_rate(&v.r_frame_rate),
        },
    }
}

fn count_frames(s: &Option<String>) -> (r: Option<u64>)
    ensures
        frame_count(*s) == (match r {
            Some(n) => Some(n as nat),
            None => None,
        }),
{
    match s {
        Some(s) => match parse_number(&chars_of(s.as_str()), u64::MAX) {
            Ok(n) => if n > 0 {
                Some(n)
            } else {
                None
            },
            Err(_) => None,
        },
        None => None,
    }
}

fn read_duration(s: Option<&str>) -> (r: Option<Real>)
    ensures
        duration_of(
            match s {
                Some(s) => Some(s@),
                None => None,
            },
        ) == (match r {
            Some(d) => Some(d@),
            None => None,
        }),
        r matches Some(d) ==> d.wf(),
{
    match s {
        Some(s) => parse_real(&chars_of(s)),
        None => None,
    }
}

fn read_sample_rate(s: &Option<String>) -> (r: u32)
    ensures
        r == sample_rate_of(*s),
{
    match s {
        Some(s) => match parse_number(&chars_of(s.as_str()), u32::MAX as u64) {
            Ok(n) => n as u32,
            Err(_) => 48000,
        },
        None => 48000,
    }
}

fn known(s: &Option<String>) -> (r: Option<String>)
    ensures
        text_of(r) == known_tag(*s),
{
    match s {
        Some(s) => {
            let c = chars_of(s.as_str());
            if same(&c, "unknown") || same(&c, "unspecified") || c.len() == 0 {
                None
            } else {
                Some(s.as_str().to_owned())
            }
        },
        None => None,
    }
}

fn borrowed(s: &Option<String>) -> (r: Option<&str>)
    ensures
        text_of(*s) == (match r {
            Some(s) => Some(s@),
            None => None,
        }),
{
    match s {
        Some(s) => Some(s.as_str()),
        None => None,
    }
}

/// Reads what the probe reports of the streams and of the file.
pub fn probe_input(cfg: &Config, streams: &[Stream], format_duration: Option<&str>) -> (r: Result<
    ProbeInfo,
    Error,
>)
    ensures
        match r {
            Ok(info) => {
                &&& probe_issue(*cfg, streams@) is None
                &&& info.wf()
                &&& info.describes(
                    *cfg,
                    streams@,
                    match format_duration {
                        Some(d) => Some(d@),
                        None => None,
                    },
                )
            },
            Err(e) => probe_issue(*cfg, streams@) matches Some(i) && e.reports(i),
        },
{
    let v = match find_stream(streams, "video") {
        Some(v) => v,
        None => {
            return Err(Error::plain(Fault::NoVideoStream));
        },
    };
    let (width, height) = match frame_size(v) {
        Some(s) => s,
        None => {
            return Err(Error::plain(Fault::NoDimensions));
        },
    };
    let fps = match choose_rate(cfg, v) {
        Some(f) => f,
        None => {
            return Err(Error::plain(Fault::NoFrameRate));
        },
    };
    let fps_f = match parse_rate(fps.as_str()) {
        Some(x) => x,
        None => {
            return Err(Error::about(Fault::BadFrameRate, fps.as_str()));
        },
    };
    let duration = match read_duration(borrowed(&v.duration)) {
        Some(d) => Some(d),
        None => read_duration(format_duration),
    };
    let audio = match find_stream(streams, "audio") {
        Some(a) => Some(
            AudioInfo {
                codec: copy_of(&a.codec_name),
                sample_rate: read_sample_rate(&a.sample_rate),
                channels: match a.channels {
                    Some(n) => n,
                    None => 0,
                },
            },
        ),
        None => None,
    };
    let color = ColorInfo {
        range: known(&v.color_range),
        space: known(&v.color_space),
        transfer: known(&v.color_transfer),
        primaries: known(&v.color_primaries),
    };
    Ok(
        ProbeInfo {
            vcodec: copy_of(&v.codec_name),
            width: width as usize,
            height: height as usize,
            pix_fmt: copy_of(&v.pix_fmt),
            fps,
            fps_f,
            nb_frames: count_frames(&v.nb_frames),
            duration,
            audio,
            color,
        },
    )
}

/// Width/height/pix_fmt of the single-frame NUT probe.
pub fn probe_frame_size(streams: &[Stream]) -> (r: Result<(usize, usize, String), Error>)
    ensures
        match (first_stream(streams@, "video"@), r) {
            (None, Err(e)) => e.says(Fault::NoVideoStream, Seq::empty(), Seq::empty()),
            (Some(v), Err(e)) => size_of(v) is None && e.says(
                Fault::NoDimensions,
                Seq::empty(),
                Seq::empty(),
            ),
            (Some(v), Ok((w, h, f))) => size_of(v) matches Some((x, y)) && w == x as usize && h
                == y as usize && f@ == text_or_empty(v.pix_fmt),
            (None, Ok(_)) => false,
        },
{
    let v = match find_stream(streams, "video") {
        Some(v) => v,
        None => {
            return Err(Error::plain(Fault::NoVideoStream));
        },
    };
    match frame_size(v) {
        Some((w, h)) => Ok((w as usize, h as usize, copy_of(&v.pix_fmt))),
        None => Err(Error::plain(Fault::NoDimensions)),
    }
}

/// Stream `i` is the first one of a kind.
pub open spec fn comes_first(streams: Seq<Stream>, i: int, kind: Seq<char>) -> bool {
    &&& 0 <= i < streams.len()
    &&& streams[i].codec_type matches Some(t) && t@ == kind
    &&& forall|j: int|
        0 <= j < i ==> !(#[trigger] streams[j].codec_type matches Some(t) && t@ == kind)
}

/// A text is there, and a rate can be read from it.
pub open spec fn readable(rate: Option<String>) -> bool {
    rate matches Some(t) && rate_of(t@) is Some
}

/// A text is there, and it says this duration.
pub open spec fn timed(duration: Option<String>, d: RealView) -> bool {
    duration matches Some(t) && real_number(t@) == Some(d)
}

/// No duration can be read.
pub open spec fn untimed(duration: Option<String>) -> bool {
    duration matches Some(t) ==> real_number(t@) is None
}

pub proof fn lemma_first(streams: Seq<Stream>, i: int, kind: Seq<char>)
    requires
        comes_first(streams, i, kind),
    ensures
        first_stream(streams, kind) == Some(streams[i]),
    decreases streams.len(),
{
    if i > 0 {
        let rest = streams.drop_first();
        assert(!(streams[0].codec_type matches Some(t) && t@ == kind));
        assert forall|j: int| 0 <= j < i - 1 implies !(#[trigger] rest[j].codec_type matches Some(t)
            && t@ == kind) by {
            assert(rest[j] == streams[j + 1]);
        }
        lemma_first(rest, i - 1, kind);
    }
}

proof fn lemma_no_first(streams: Seq<Stream>, kind: Seq<char>)
    requires
        forall|j: int|
            0 <= j < streams.len() ==> !(#[trigger] streams[j].codec_type matches Some(t) && t@
                == kind),
    ensures
        first_stream(streams, kind) is None,
    decreases streams.len(),
{
    if streams.len() > 0 {
        let rest = streams.drop_first();
        assert(!(streams[0].codec_type matches Some(t) && t@ == kind));
        assert forall|j: int| 0 <= j < rest.len() implies !(#[trigger] rest[j].codec_type matches Some(
            t,
        ) && t@ == kind) by {
            assert(rest[j] == streams[j + 1]);
        }
        lemma_no_first(rest, kind);
    }
}

/// The frame rate is the one that is asked for. Where none is, it is the average rate of the first
/// video stream, whatever its base rate is; the base rate counts only where no average rate can be
/// read. The number of frames per second is the one that the chosen text says.
pub proof fn the_average_rate_comes_before_the_base_rate(
    cfg: Config,
    streams: Seq<Stream>,
    i: int,
    file: Option<Seq<char>>,
    info: ProbeInfo,
)
    requires
        comes_first(streams, i, "video"@),
        probe_issue(cfg, streams) is None,
        info.describes(cfg, streams, file),
    ensures
        rate_of(info.fps@) == Some(info.fps_f@),
        cfg.fps matches Some(f) ==> info.fps@ == f@,
        cfg.fps is None && readable(streams[i].avg_frame_rate) ==> info.fps@
            == streams[i].avg_frame_rate->Some_0@,
        cfg.fps is None && !readable(streams[i].avg_frame_rate) ==> {
            &&& readable(streams[i].r_frame_rate)
            &&& info.fps@ == streams[i].r_frame_rate->Some_0@
        },
{
    lemma_first(streams, i, "video"@);
}

/// What the probe says of the video is that of the first video stream: its size, its codec and its
/// pixel format, and its frame count where that is a positive number. Its duration goes before that
/// of the file.
pub proof fn the_first_video_stream_is_described(
    cfg: Config,
    streams: Seq<Stream>,
    i: int,
    file: Option<Seq<char>>,
    info: ProbeInfo,
)
    requires
        comes_first(streams, i, "video"@),
        probe_issue(cfg, streams) is None,
        info.describes(cfg, streams, file),
    ensures
        ({
            let v = streams[i];
            &&& v.width matches Some(w) && w > 0 && info.width == w as usize
            &&& v.height matches Some(h) && h > 0 && info.height == h as usize
            &&& v.codec_name matches Some(t) ==> info.vcodec@ == t@
            &&& v.codec_name is None ==> info.vcodec@.len() == 0
            &&& v.pix_fmt matches Some(t) ==> info.pix_fmt@ == t@
            &&& v.pix_fmt is None ==> info.pix_fmt@.len() == 0
            &&& v.nb_frames is None ==> info.nb_frames is None
            &&& v.nb_frames matches Some(t) ==> {
                &&& forall|n: nat|
                    0 < n <= u64::MAX && t@ == #[trigger] decimal(n) ==> info.nb_frames == Some(
                        n as u64,
                    )
                &&& (t@ == "N/A"@ || t@ == "0"@) ==> info.nb_frames is None
            }
            &&& info.nb_frames != Some(0u64)
            &&& match info.duration {
                Some(d) => timed(v.duration, d@) || (untimed(v.duration) && (
                file matches Some(t) && real_number(t) == Some(d@))),
                None => untimed(v.duration) && (file matches Some(t) ==> real_number(t) is None),
            }
        }),
{
    lemma_first(streams, i, "video"@);
    let v = streams[i];
    if let Some(t) = v.nb_frames {
        reveal_strlit("N/A");
        reveal_strlit("0");
        assert forall|n: nat| 0 < n <= u64::MAX && t@ == #[trigger] decimal(
            n,
        ) implies info.nb_frames == Some(n as u64) by {
            decimal_reads_back(n, u64::MAX as nat);
        }
        if t@ == "N/A"@ {
            lemma_no_number(t@);
        }
        if t@ == "0"@ {
            decimal_reads_back(0, u64::MAX as nat);
            assert(decimal(0) =~= "0"@);
        }
    }
}

proof fn lemma_no_number(t: Seq<char>)
    requires
        t == "N/A"@,
    ensures
        number(t, u64::MAX as nat) is Err,
{
    reveal_strlit("N/A");
}

/// The audio is that of the first audio stream, at its own sample rate, or at 48000 Hz where the
/// stream does not say; without such a stream there is none.
pub proof fn the_first_audio_stream_is_described(
    cfg: Config,
    streams: Seq<Stream>,
    k: int,
    file: Option<Seq<char>>,
    info: ProbeInfo,
)
    requires
        probe_issue(cfg, streams) is None,
        info.describes(cfg, streams, file),
    ensures
        comes_first(streams, k, "audio"@) ==> {
            let s = streams[k];
            &&& info.audio matches Some(a) && {
                &&& s.codec_name matches Some(t) ==> a.codec@ == t@
                &&& s.codec_name is None ==> a.codec@.len() == 0
                &&& s.channels matches Some(n) ==> a.channels == n
                &&& s.channels is None ==> a.channels == 0
                &&& s.sample_rate is None ==> a.sample_rate == 48000
                &&& s.sample_rate matches Some(t) ==> {
                    &&& forall|n: nat|
                        n <= u32::MAX && t@ == #[trigger] decimal(n) ==> a.sample_rate == n
                    &&& t@.len() == 0 ==> a.sample_rate == 48000
                }
            }
        },
        (forall|j: int|
            0 <= j < streams.len() ==> !(#[trigger] streams[j].codec_type matches Some(t) && t@
                == "audio"@)) ==> info.audio is None,
{
    if comes_first(streams, k, "audio"@) {
        lemma_first(streams, k, "audio"@);
        let s = streams[k];
        if let Some(t) = s.sample_rate {
            assert forall|n: nat| n <= u32::MAX && t@ == #[trigger] decimal(
                n,
            ) implies info.audio->Some_0.sample_rate == n by {
                decimal_reads_back(n, u32::MAX as nat);
            }
        }
    }
    if forall|j: int|
        0 <= j < streams.len() ==> !(#[trigger] streams[j].codec_type matches Some(t) && t@
            == "audio"@) {
        lemma_no_first(streams, "audio"@);
    }
}

/// An input can be used exactly when it has a video stream whose size is known and a frame rate that
/// can be read.
pub proof fn an_input_needs_a_video_a_size_and_a_rate(cfg: Config, streams: Seq<Stream>, i: int)
    ensures
        (forall|j: int|
            0 <= j < streams.len() ==> !(#[trigger] streams[j].codec_type matches Some(t) && t@
                == "video"@)) ==> (probe_issue(cfg, streams) matches Some(e) && e.fault
            == Fault::NoVideoStream),
        comes_first(streams, i, "video"@) ==> {
            let v = streams[i];
            let sized = (v.width matches Some(w) && w > 0) && (v.height matches Some(h) && h > 0);
            let rated = match cfg.fps {
                Some(f) => rate_of(f@) is Some,
                None => readable(v.avg_frame_rate) || readable(v.r_frame_rate),
            };
            &&& (probe_issue(cfg, streams) is None) == (sized && rated)
            &&& !sized ==> probe_issue(cfg, streams)->Some_0.fault == Fault::NoDimensions
            &&& sized && !rated ==> probe_issue(cfg, streams)->Some_0.fault == if cfg.fps is Some {
                Fault::BadFrameRate
            } else {
                Fault::NoFrameRate
            }
        },
{
    if comes_first(streams, i, "video"@) {
        lemma_first(streams, i, "video"@);
    }
    if forall|j: int|
        0 <= j < streams.len() ==> !(#[trigger] streams[j].codec_type matches Some(t) && t@
            == "video"@) {
        lemma_no_first(streams, "video"@);
    }
}

} // verus!
