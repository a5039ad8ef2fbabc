//! What the command lines say: which word stands behind which flag, and on which side of the input.

use vstd::prelude::*;
use crate::config::{defaults_for, Config};
use crate::decimals::RealView;
use crate::ffmpeg::{
    base_line, chosen, chosen_args, color_flags, count_args, decode_line, encode_line,
    encoder_inputs, encoder_output, encoder_streams, encoder_video, filter_args, flag, segment_line,
    segment_time, temp_codec, ColorInfo, Decode, EncodeView,
};
use crate::number::decimal;
use crate::path::extension;
use crate::pixfmt::FormatView;
use crate::probe::{comes_first, probe_issue, ProbeInfo, Stream};
use crate::reals::fixed_real;
use crate::text::{lower, occurs, texts};

verus! {

/// Some words stand in a line, one behind the other.
pub open spec fn holds(line: Seq<Seq<char>>, words: Seq<Seq<char>>) -> bool {
    exists|k: int|
        0 <= k <= line.len() - words.len() && #[trigger] line.subrange(k, k + words.len()) == words
}

/// A line begins with some words.
pub open spec fn begins(line: Seq<Seq<char>>, words: Seq<Seq<char>>) -> bool {
    line.len() >= words.len() && line.take(words.len() as int) == words
}

/// A line ends with some words.
pub open spec fn ends(line: Seq<Seq<char>>, words: Seq<Seq<char>>) -> bool {
    line.len() >= words.len() && line.skip(line.len() - words.len()) == words
}

/// A line reads an input: some words stand in front of it, and some behind it.
pub open spec fn reads(
    line: Seq<Seq<char>>,
    front: Seq<Seq<char>>,
    input: Seq<char>,
    back: Seq<Seq<char>>,
) -> bool {
    line == front + seq!["-i"@, input] + back
}

proof fn lemma_holds(front: Seq<Seq<char>>, words: Seq<Seq<char>>, back: Seq<Seq<char>>)
    ensures
        holds(front + words + back, words),
{
    let line = front + words + back;
    let k = front.len() as int;
    assert(line.subrange(k, k + words.len()) =~= words);
}

/// What stands in a part of a line stands in the line.
proof fn lemma_holds_within(
    front: Seq<Seq<char>>,
    part: Seq<Seq<char>>,
    back: Seq<Seq<char>>,
    words: Seq<Seq<char>>,
)
    requires
        holds(part, words),
    ensures
        holds(front + part + back, words),
{
    let k = choose|k: int|
        0 <= k <= part.len() - words.len() && #[trigger] part.subrange(k, k + words.len()) == words;
    let line = front + part + back;
    let n = front.len() + k;
    assert(line.subrange(n, n + words.len()) =~= part.subrange(k, k + words.len()));
}

proof fn lemma_ends(front: Seq<Seq<char>>, words: Seq<Seq<char>>)
    ensures
        ends(front + words, words),
{
    let line = front + words;
    assert(line.skip(line.len() - words.len()) =~= words);
}

proof fn lemma_at(line: Seq<Seq<char>>, k: int, words: Seq<Seq<char>>)
    requires
        0 <= k <= line.len() - words.len(),
        forall|i: int| 0 <= i < words.len() ==> line[k + i] == #[trigger] words[i],
    ensures
        holds(line, words),
{
    assert(line.subrange(k, k + words.len()) =~= words);
}

/// A colour tag of the input that says something, behind its flag.
pub open spec fn tag_words(name: Seq<char>, tag: Option<String>) -> Seq<Seq<char>> {
    match tag {
        Some(t) => if t@ == "unknown"@ || t@ == "unspecified"@ || t@.len() == 0 {
            Seq::empty()
        } else {
            seq![name, t@]
        },
        None => Seq::empty(),
    }
}

/// Nothing is known of the colours.
pub open spec fn untagged(c: ColorInfo) -> bool {
    c.range is None && c.space is None && c.primaries is None && c.transfer is None
}

/// The colour tags of the input are copied to the output: each flag of the encoder is followed by
/// the tag of the same name of the first video stream, and a tag that says nothing has no flag.
/// Nothing else in the command line depends on the colours.
#[verifier::rlimit(40)]
pub proof fn the_encoder_copies_the_tags_of_the_input(
    cfg: Config,
    streams: Seq<Stream>,
    i: int,
    file: Option<Seq<char>>,
    info: ProbeInfo,
    p: EncodeView,
    plain: ColorInfo,
)
    requires
        comes_first(streams, i, "video"@),
        probe_issue(cfg, streams) is None,
        info.describes(cfg, streams, file),
        p.color == info.color,
        cfg.color_args is None,
        untagged(plain),
    ensures
        ({
            let v = streams[i];
            let line = encode_line(cfg, p);
            let tags = tag_words("-color_range"@, v.color_range) + tag_words(
                "-colorspace"@,
                v.color_space,
            ) + tag_words("-color_primaries"@, v.color_primaries) + tag_words(
                "-color_trc"@,
                v.color_transfer,
            );
            &&& exists|a: Seq<Seq<char>>, b: Seq<Seq<char>>|
                line == #[trigger] (a + tags + b) && encode_line(
                    cfg,
                    EncodeView { color: plain, ..p },
                ) == a + b
            &&& holds(line, tag_words("-color_range"@, v.color_range))
            &&& holds(line, tag_words("-colorspace"@, v.color_space))
            &&& holds(line, tag_words("-color_primaries"@, v.color_primaries))
            &&& holds(line, tag_words("-color_trc"@, v.color_transfer))
        }),
{
    crate::probe::lemma_first(streams, i, "video"@);
    let v = streams[i];
    let c = p.color;
    assert(flag("-color_range"@, c.range) == tag_words("-color_range"@, v.color_range));
    assert(flag("-colorspace"@, c.space) == tag_words("-colorspace"@, v.color_space));
    assert(flag("-color_primaries"@, c.primaries) == tag_words(
        "-color_primaries"@,
        v.color_primaries,
    ));
    assert(flag("-color_trc"@, c.transfer) == tag_words("-color_trc"@, v.color_transfer));
    let (t0, t1, t2, t3) = (
        tag_words("-color_range"@, v.color_range),
        tag_words("-colorspace"@, v.color_space),
        tag_words("-color_primaries"@, v.color_primaries),
        tag_words("-color_trc"@, v.color_transfer),
    );
    let tags = t0 + t1 + t2 + t3;
    let d = defaults_for(extension(p.output));
    let q = EncodeView { color: plain, ..p };
    assert(color_flags(plain) =~= Seq::empty());
    let coded = seq!["-c:v"@, chosen(cfg.vcodec, d.vcodec)] + chosen_args(
        cfg.vcodec_args,
        d.vcodec_args,
    ) + (if lower(p.out_pix_fmt) != lower("none"@) {
        seq!["-pix_fmt"@, p.out_pix_fmt]
    } else {
        Seq::empty()
    });
    let a = base_line(cfg, true) + encoder_inputs(p) + encoder_streams(cfg, p) + coded;
    let b = encoder_output(cfg, p);
    assert(encode_line(cfg, p) =~= a + tags + b);
    assert(encoder_inputs(q) == encoder_inputs(p));
    assert(encoder_streams(cfg, q) == encoder_streams(cfg, p));
    assert(encoder_output(cfg, q) == encoder_output(cfg, p));
    assert(encode_line(cfg, q) =~= a + b);
    lemma_holds(a, t0, t1 + t2 + t3 + b);
    assert(a + t0 + (t1 + t2 + t3 + b) =~= a + tags + b);
    lemma_holds(a + t0, t1, t2 + t3 + b);
    assert(a + t0 + t1 + (t2 + t3 + b) =~= a + tags + b);
    lemma_holds(a + t0 + t1, t2, t3 + b);
    assert(a + t0 + t1 + t2 + (t3 + b) =~= a + tags + b);
    lemma_holds(a + t0 + t1 + t2, t3, b);
    assert(a + t0 + t1 + t2 + t3 + b =~= a + tags + b);
}

/// Colour arguments that are given stand in the place of all tags, whatever the input says.
#[verifier::rlimit(40)]
pub proof fn given_colour_arguments_replace_the_tags(cfg: Config, p: EncodeView, c: ColorInfo)
    requires
        cfg.color_args is Some,
    ensures
        encode_line(cfg, EncodeView { color: c, ..p }) == encode_line(cfg, p),
        holds(encode_line(cfg, p), texts(cfg.color_args->Some_0@)),
{
    let q = EncodeView { color: c, ..p };
    let words = texts(cfg.color_args->Some_0@);
    assert(encoder_inputs(q) == encoder_inputs(p));
    assert(encoder_streams(cfg, q) == encoder_streams(cfg, p));
    assert(encoder_output(cfg, q) == encoder_output(cfg, p));
    assert(encoder_video(cfg, q) == encoder_video(cfg, p));
    let v = encoder_video(cfg, p);
    let front = v.take(v.len() - words.len());
    assert(v =~= front + words + Seq::empty());
    lemma_holds(front, words, Seq::empty());
    let head = base_line(cfg, true) + encoder_inputs(p) + encoder_streams(cfg, p);
    lemma_holds_within(head, v, encoder_output(cfg, p), words);
}

/// The encoder reads raw frames of the rendered size, format and rate from a pipe: their flags stand
/// in front of that input. The output is the last word of the line, and is overwritten.
#[verifier::rlimit(40)]
pub proof fn the_encoder_reads_the_rendered_frames(cfg: Config, p: EncodeView)
    ensures
        exists|a: Seq<Seq<char>>, b: Seq<Seq<char>>|
            {
                &&& #[trigger] reads(encode_line(cfg, p), a, "pipe:0"@, b)
                &&& begins(a, seq![cfg.ffmpeg@])
                &&& holds(a, seq!["-loglevel"@, cfg.loglevel@])
                &&& holds(a, texts(cfg.global_args@))
                &&& holds(a, seq!["-f"@, "rawvideo"@])
                &&& holds(a, seq!["-pix_fmt"@, p.pix_fmt])
                &&& holds(a, seq!["-video_size"@, decimal(p.width) + "x"@ + decimal(p.height)])
                &&& holds(a, seq!["-framerate"@, p.out_fps])
                &&& holds(b, seq!["-map"@, "0:v:0"@])
                &&& ends(b, seq!["-y"@, p.output])
            },
{
    let base = base_line(cfg, true);
    let size = decimal(p.width) + "x"@ + decimal(p.height);
    let w = seq![
        "-thread_queue_size"@,
        "1024"@,
        "-f"@,
        "rawvideo"@,
        "-pix_fmt"@,
        p.pix_fmt,
        "-video_size"@,
        size,
        "-framerate"@,
        p.out_fps,
    ];
    let a = base + w;
    let more = match p.audio {
        Some((path, _)) => seq!["-thread_queue_size"@, "1024"@, "-i"@, path],
        None => Seq::empty(),
    };
    let out = encoder_output(cfg, p);
    let b = more + encoder_streams(cfg, p) + encoder_video(cfg, p) + out;
    assert(encode_line(cfg, p) =~= a + seq!["-i"@, "pipe:0"@] + b);
    assert(reads(encode_line(cfg, p), a, "pipe:0"@, b));
    assert(a.take(1) =~= seq![cfg.ffmpeg@]);
    let n = base.len() as int;
    lemma_at(a, 2, seq!["-loglevel"@, cfg.loglevel@]);
    lemma_at(a, 4, texts(cfg.global_args@));
    lemma_at(a, n + 2, seq!["-f"@, "rawvideo"@]);
    lemma_at(a, n + 4, seq!["-pix_fmt"@, p.pix_fmt]);
    lemma_at(a, n + 6, seq!["-video_size"@, size]);
    lemma_at(a, n + 8, seq!["-framerate"@, p.out_fps]);
    let k = more.len() as int;
    lemma_at(b, k, seq!["-map"@, "0:v:0"@]);
    let front = b.take(b.len() - 2);
    assert(out.skip(out.len() - 2) =~= seq!["-y"@, p.output]);
    assert(b =~= front + seq!["-y"@, p.output]);
    lemma_ends(front, seq!["-y"@, p.output]);
}

/// The encoder takes the audio from its file, with the filters that make it fit and the codec that is
/// set, else the one of the container; the audio is mapped behind that input. Without audio there is
/// none in the output.
#[verifier::rlimit(40)]
pub proof fn the_encoder_fits_the_audio(cfg: Config, p: EncodeView)
    ensures
        match p.audio {
            Some((path, filter)) => exists|a: Seq<Seq<char>>, b: Seq<Seq<char>>|
                {
                    &&& #[trigger] reads(encode_line(cfg, p), a, path, b)
                    &&& holds(a, seq!["-i"@, "pipe:0"@])
                    &&& holds(b, seq!["-map"@, "1:a:0"@, "-af"@, filter])
                    &&& cfg.acodec matches Some(c) ==> holds(b, seq!["-c:a"@, c@])
                    &&& cfg.acodec is None ==> holds(
                        b,
                        seq!["-c:a"@, defaults_for(extension(p.output)).acodec],
                    )
                    &&& cfg.acodec_args matches Some(v) ==> holds(b, texts(v@))
                    &&& cfg.acodec_args is None ==> holds(
                        b,
                        defaults_for(extension(p.output)).acodec_args,
                    )
                },
            None => holds(encode_line(cfg, p), seq!["-map"@, "0:v:0"@, "-an"@]),
        },
{
    let d = defaults_for(extension(p.output));
    let base = base_line(cfg, true);
    let ins = encoder_inputs(p);
    let st = encoder_streams(cfg, p);
    let tail = encoder_video(cfg, p) + encoder_output(cfg, p);
    match p.audio {
        Some((path, filter)) => {
            let args = chosen_args(cfg.acodec_args, d.acodec_args);
            let a = base + ins.take(ins.len() - 2);
            let b = st + tail;
            assert(encode_line(cfg, p) =~= a + seq!["-i"@, path] + b);
            assert(reads(encode_line(cfg, p), a, path, b));
            let n = base.len() as int;
            lemma_at(a, n + 10, seq!["-i"@, "pipe:0"@]);
            lemma_at(b, 2, seq!["-map"@, "1:a:0"@, "-af"@, filter]);
            lemma_at(b, 6, seq!["-c:a"@, chosen(cfg.acodec, d.acodec)]);
            lemma_at(b, 8, args);
        },
        None => {
            let line = encode_line(cfg, p);
            let k = (base.len() + ins.len()) as int;
            lemma_at(line, k, seq!["-map"@, "0:v:0"@, "-an"@]);
        },
    }
}

/// The video codec is the one that is set, else the one of the container, followed by the arguments
/// that are set, else those of the container, and by the output's pixel format, unless that is left
/// to the encoder.
#[verifier::rlimit(40)]
pub proof fn the_encoder_uses_the_codec_that_is_set(cfg: Config, p: EncodeView)
    ensures
        ({
            let d = defaults_for(extension(p.output));
            let codec = match cfg.vcodec {
                Some(c) => c@,
                None => d.vcodec,
            };
            let args = match cfg.vcodec_args {
                Some(v) => texts(v@),
                None => d.vcodec_args,
            };
            let line = encode_line(cfg, p);
            &&& holds(line, seq!["-c:v"@, codec] + args)
            &&& lower(p.out_pix_fmt) != lower("none"@) ==> holds(
                line,
                seq!["-c:v"@, codec] + args + seq!["-pix_fmt"@, p.out_pix_fmt],
            )
        }),
{
    let d = defaults_for(extension(p.output));
    let head = base_line(cfg, true) + encoder_inputs(p) + encoder_streams(cfg, p);
    let v = encoder_video(cfg, p);
    let words = seq!["-c:v"@, chosen(cfg.vcodec, d.vcodec)] + chosen_args(
        cfg.vcodec_args,
        d.vcodec_args,
    );
    let rest = v.skip(words.len() as int);
    assert(v =~= Seq::empty() + words + rest);
    lemma_holds(Seq::empty(), words, rest);
    lemma_holds_within(head, v, encoder_output(cfg, p), words);
    if lower(p.out_pix_fmt) != lower("none"@) {
        let all = words + seq!["-pix_fmt"@, p.out_pix_fmt];
        let end = v.skip(all.len() as int);
        assert(v =~= Seq::empty() + all + end);
        lemma_holds(Seq::empty(), all, end);
        lemma_holds_within(head, v, encoder_output(cfg, p), all);
    }
}

/// Arguments for the output that are given replace those of the container, and stand in front of the
/// output. Where none are given, the container's stand there, and HEVC in an MP4-like container, and
/// nothing else, is tagged for players.
#[verifier::rlimit(40)]
pub proof fn the_output_is_tagged_for_its_container(cfg: Config, p: EncodeView)
    ensures
        ({
            let line = encode_line(cfg, p);
            let ext = extension(p.output);
            let d = defaults_for(ext);
            let codec = match cfg.vcodec {
                Some(c) => c@,
                None => d.vcodec,
            };
            let hevc = occurs(codec, "265"@) || occurs(codec, "hevc"@);
            let mp4 = ext == "mp4"@ || ext == "m4v"@ || ext == "mov"@;
            let last = seq!["-y"@, p.output];
            &&& cfg.encode_args matches Some(v) ==> ends(line, texts(v@) + last)
            &&& cfg.encode_args is None && hevc && mp4 ==> ends(
                line,
                d.encode_args + seq!["-tag:v"@, "hvc1"@] + last,
            )
            &&& cfg.encode_args is None && !(hevc && mp4) ==> ends(line, d.encode_args + last)
        }),
{
    let d = defaults_for(extension(p.output));
    let head = base_line(cfg, true) + encoder_inputs(p) + encoder_streams(cfg, p) + encoder_video(
        cfg,
        p,
    );
    let out = encoder_output(cfg, p);
    lemma_ends(head, out);
    assert(d.encode_args + Seq::<Seq<char>>::empty() =~= d.encode_args);
}

/// Frames are decoded from the input with the arguments for the input in front of it, and what the
/// frames shall be behind it: the stream, the rate, the filters, the format and the count. Neither
/// sound nor subtitles are decoded.
#[verifier::rlimit(40)]
pub proof fn decoding_reads_the_input_as_told(cfg: Config, dec: Decode, input: Seq<char>)
    ensures
        exists|a: Seq<Seq<char>>, b: Seq<Seq<char>>|
            {
                &&& #[trigger] reads(decode_line(cfg, dec, input), a, input, b)
                &&& begins(a, seq![cfg.ffmpeg@])
                &&& holds(a, seq!["-nostdin"@])
                &&& holds(a, seq!["-loglevel"@, cfg.loglevel@])
                &&& ends(
                    a,
                    texts(cfg.global_args@) + texts(cfg.in_args@) + texts(dec.video_in_args@),
                )
                &&& begins(b, seq!["-map"@, cfg.vmap@])
                &&& holds(b, seq!["-an"@]) && holds(b, seq!["-sn"@]) && holds(b, seq!["-dn"@])
                &&& holds(b, seq!["-r"@, dec.fps@])
                &&& holds(b, seq!["-pix_fmt"@, dec.pix_fmt@])
                &&& dec.vf@.len() > 0 ==> holds(b, seq!["-vf"@, dec.vf@])
                &&& dec.frames matches Some(n) ==> holds(b, seq!["-frames:v"@, decimal(n as nat)])
                &&& ends(b, texts(cfg.decode_args@))
                &&& dec.vf@.len() == 0 && dec.frames is None ==> b.len() == 9 + cfg.decode_args@.len()
            },
{
    let base = base_line(cfg, false);
    let (g, i, m) = (texts(cfg.global_args@), texts(cfg.in_args@), texts(dec.video_in_args@));
    let a = base + i + m;
    let f = filter_args(dec.vf@);
    let c = count_args(dec.frames);
    let e = texts(cfg.decode_args@);
    let mid = seq!["-map"@, cfg.vmap@, "-an"@, "-sn"@, "-dn"@, "-r"@, dec.fps@];
    let fmt = seq!["-pix_fmt"@, dec.pix_fmt@];
    let b = mid + f + fmt + c + e;
    assert(decode_line(cfg, dec, input) =~= a + seq!["-i"@, input] + b);
    assert(reads(decode_line(cfg, dec, input), a, input, b));
    assert(a.take(1) =~= seq![cfg.ffmpeg@]);
    lemma_at(a, 2, seq!["-loglevel"@, cfg.loglevel@]);
    lemma_at(a, 4, seq!["-nostdin"@]);
    assert(a =~= base.take(5) + (g + i + m));
    lemma_ends(base.take(5), g + i + m);
    assert(b.take(2) =~= seq!["-map"@, cfg.vmap@]);
    lemma_at(b, 2, seq!["-an"@]);
    lemma_at(b, 3, seq!["-sn"@]);
    lemma_at(b, 4, seq!["-dn"@]);
    lemma_at(b, 5, seq!["-r"@, dec.fps@]);
    lemma_holds(mid + f, fmt, c + e);
    assert(mid + f + fmt + (c + e) =~= b);
    lemma_holds(mid, f, fmt + c + e);
    assert(mid + f + (fmt + c + e) =~= b);
    lemma_holds(mid + f + fmt, c, e);
    lemma_ends(mid + f + fmt + c, e);
}

/// The chunks of the intermediate: the codec and its arguments are those that are set, else the ones
/// for the format, a keyframe is forced every `chunk` frames, and the segments go to the files of the
/// pattern, which is the last word.
#[verifier::rlimit(40)]
pub proof fn segments_are_as_long_as_a_chunk(
    cfg: Config,
    dec: Decode,
    input: Seq<char>,
    f: FormatView,
    w: nat,
    h: nat,
    chunk: nat,
    fps: RealView,
    pattern: Seq<char>,
)
    ensures
        ({
            let line = segment_line(cfg, dec, input, f, w, h, chunk, fps, pattern);
            let codec = match cfg.temp_vcodec {
                Some(c) => c@,
                None => temp_codec(f, w, h).0,
            };
            let args = match cfg.temp_vcodec_args {
                Some(v) => texts(v@),
                None => temp_codec(f, w, h).1,
            };
            &&& begins(line, decode_line(cfg, dec, input) + seq!["-c:v"@, codec] + args)
            &&& holds(
                line,
                seq!["-force_key_frames"@, "expr:gte(n,n_forced*"@ + decimal(chunk) + ")"@],
            )
            &&& holds(
                line,
                seq![
                    "-f"@,
                    "segment"@,
                    "-segment_time"@,
                    fixed_real(segment_time(chunk, fps), 6),
                ],
            )
            &&& holds(line, seq!["-segment_format"@, "matroska"@])
            &&& holds(line, seq!["-reset_timestamps"@, "1"@])
            &&& ends(line, seq!["-y"@, pattern])
        }),
{
    let (codec, args) = temp_codec(f, w, h);
    let line = segment_line(cfg, dec, input, f, w, h, chunk, fps, pattern);
    let front = decode_line(cfg, dec, input) + seq!["-c:v"@, chosen(cfg.temp_vcodec, codec)]
        + chosen_args(cfg.temp_vcodec_args, args);
    let n = front.len() as int;
    let time = fixed_real(segment_time(chunk, fps), 6);
    assert(line.take(n) =~= front);
    lemma_at(line, n, seq![
        "-force_key_frames"@,
        "expr:gte(n,n_forced*"@ + decimal(chunk) + ")"@,
    ]);
    lemma_at(line, n + 2, seq!["-f"@, "segment"@, "-segment_time"@, time]);
    lemma_at(line, n + 6, seq!["-segment_format"@, "matroska"@]);
    lemma_at(line, n + 8, seq!["-reset_timestamps"@, "1"@]);
    assert(line.skip(line.len() - 2) =~= seq!["-y"@, pattern]);
}

/// The containers that have defaults of their own: VP9 with Opus in WebM, MPEG-4 with MP3 in AVI. All
/// others get x265 with AAC, and only MP4-like ones are written for a fast start.
#[verifier::rlimit(40)]
pub proof fn containers_have_their_codecs(ext: Seq<char>)
    ensures
        ({
            let d = defaults_for(ext);
            let t = lower(ext);
            &&& d.vcodec == if t == "webm"@ {
                "libvpx-vp9"@
            } else if t == "avi"@ {
                "mpeg4"@
            } else {
                "libx265"@
            }
            &&& d.acodec == if t == "webm"@ {
                "libopus"@
            } else if t == "avi"@ {
                "libmp3lame"@
            } else {
                "aac"@
            }
            &&& d.vcodec_args == if t == "webm"@ {
                seq!["-crf"@, "30"@, "-b:v"@, "0"@, "-row-mt"@, "1"@]
            } else if t == "avi"@ {
                seq!["-q:v"@, "2"@]
            } else {
                seq!["-crf"@, "16"@, "-preset"@, "medium"@, "-x265-params"@, "log-level=error"@]
            }
            &&& d.acodec_args == seq!["-b:a"@, "192k"@]
            &&& d.encode_args == if t == "mp4"@ || t == "m4v"@ || t == "mov"@ {
                seq!["-movflags"@, "+faststart"@]
            } else {
                Seq::<Seq<char>>::empty()
            }
        }),
{
    reveal_strlit("webm");
    reveal_strlit("avi");
    reveal_strlit("mp4");
    reveal_strlit("m4v");
    reveal_strlit("mov");
    assert("webm"@.len() == 4 && "avi"@.len() == 3);
    assert("mp4"@.len() == 3 && "m4v"@.len() == 3 && "mov"@.len() == 3);
    assert("avi"@[0] == 'a' && "mp4"@[0] == 'm' && "m4v"@[0] == 'm' && "mov"@[0] == 'm');
}

} // verus!
