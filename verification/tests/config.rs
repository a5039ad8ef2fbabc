use rotatevideo::config::{
    encode_defaults, parse_anchor, parse_clip, Anchor, AudioMode, Clip, Config, Mode,
};
use rotatevideo::error::Fault;
use rotatevideo::geometry::{Axis, DimSpec, OutputSize};
use rotatevideo::number::NumberFault;
use rotatevideo::util::Env;
use rotatevideo::volume::Interp;

fn env(pairs: &[(&str, &str)]) -> Env {
    Env { vars: pairs.iter().map(|(k, v)| (k.to_string(), v.to_string())).collect() }
}

fn read(pairs: &[(&str, &str)]) -> Config {
    Config::from_env(&env(pairs), 4).unwrap()
}

fn fault(pairs: &[(&str, &str)]) -> (Fault, String, String) {
    let e = Config::from_env(&env(pairs), 4).unwrap_err();
    (e.fault, e.name, e.text)
}

#[test]
fn clip_parsing() {
    let m = Anchor::Middle;
    assert_eq!(parse_clip("none", None, m).unwrap(), Clip::Whole);
    assert_eq!(parse_clip("MIN", None, m).unwrap(), Clip::Min(Anchor::Middle));
    assert_eq!(parse_clip("middle", None, m).unwrap(), Clip::Middle(Anchor::Middle));
    assert_eq!(parse_clip("min", None, Anchor::End).unwrap(), Clip::Min(Anchor::End));
    assert_eq!(parse_clip("min:start", None, Anchor::End).unwrap(), Clip::Min(Anchor::Start));
    assert_eq!(parse_clip("MIDDLE:End", None, m).unwrap(), Clip::Middle(Anchor::End));
    assert_eq!(parse_clip("cube=begin", None, m).unwrap(), Clip::Min(Anchor::Start));
    assert_eq!(parse_clip("nth", None, m).unwrap(), Clip::Nth(None));
    assert_eq!(parse_clip("nth", Some(7), m).unwrap(), Clip::Nth(Some(7)));
    assert_eq!(parse_clip("nth:50", Some(7), m).unwrap(), Clip::Nth(Some(50)));
    assert_eq!(parse_clip("nth=3", None, m).unwrap(), Clip::Nth(Some(3)));
    assert!(parse_clip("nth:0", None, m).is_err());
    assert!(parse_clip("nth:x", None, m).is_err());
    assert!(parse_clip("cube3", None, m).is_err());
    assert!(parse_clip("min:late", None, m).is_err());
    assert_eq!(parse_anchor("END").unwrap(), Anchor::End);
    assert!(parse_anchor("x").is_err());
}

#[test]
fn x265_is_default() {
    for ext in ["mp4", "mkv", "mov", "MP4", "hevc", ""] {
        assert_eq!(encode_defaults(ext).vcodec, "libx265", "{ext}");
    }
    assert_eq!(encode_defaults("webm").vcodec, "libvpx-vp9");
    for ext in ["webm", "avi", "mp4", "mkv", ""] {
        assert_eq!(encode_defaults(ext).acodec_args, ["-b:a", "192k"]);
    }
    assert_eq!(encode_defaults("avi").vcodec, "mpeg4");
}

#[test]
fn nothing_set_gives_the_defaults() {
    let c = read(&[]);
    assert_eq!(c.threads, 4);
    assert!(!c.quiet && !c.dry_run && !c.keep_temp && !c.force && !c.no_audio && !c.crop);
    assert!(c.even_dims);
    assert_eq!(c.mode, Mode::Auto);
    assert_eq!(f64::from_bits(c.in_memory_pct.to_bits()), 80.0);
    assert_eq!(c.chunk_mb, 512);
    assert_eq!(c.clip, Clip::Whole);
    assert_eq!(c.order, [Axis::X, Axis::Y, Axis::Z]);
    assert_eq!(c.interp, Interp::Trilinear);
    assert_eq!(c.output, OutputSize::Fit);
    assert_eq!(c.fill_spec, "0,0,0");
    assert_eq!(c.audio_mode, AudioMode::Tempo);
    assert_eq!(c.audio_reverse, None);
    assert_eq!((c.ffmpeg.as_str(), c.ffprobe.as_str(), c.loglevel.as_str()), ("ffmpeg", "ffprobe", "error"));
    assert_eq!((c.vmap.as_str(), c.amap.as_str()), ("0:v:0", "0:a:0"));
    assert_eq!((c.pix_fmt.as_str(), c.out_pix_fmt.as_str()), ("auto", "auto"));
    assert_eq!((c.audio_codec.as_str(), c.audio_ext.as_str()), ("pcm_f32le", "wav"));
    assert!(c.tmpdir.is_none() && c.fps.is_none() && c.vf.is_none() && c.vcodec.is_none());
    assert!(c.global_args.is_empty() && c.in_args.is_empty() && c.decode_args.is_empty());
}

#[test]
fn settings_are_read() {
    let c = read(&[
        ("ROT_CLIP", "nth"),
        ("ROT_NTH", "5"),
        ("ROT_MODE", "mem"),
        ("ROT_IN_MEMORY", "12.5"),
        ("ROT_ORDER", "zyx"),
        ("ROT_INTERP", "nearest"),
        ("ROT_OUTPUT", "100x-1x0"),
        ("ROT_AUDIO_MODE", "none"),
        ("ROT_AUDIO_REVERSE", "1"),
        ("ROT_EVEN_DIMS", "off"),
        ("FF_IN_ARGS", "-ss 10 -t '20 s'"),
        ("FF_VCODEC_ARGS", "none"),
        ("FF_FPS", "25"),
    ]);
    assert_eq!(c.clip, Clip::Nth(Some(5)));
    assert_eq!(c.mode, Mode::Ram);
    assert_eq!(f64::from_bits(c.in_memory_pct.to_bits()), 12.5);
    assert_eq!(c.order, [Axis::Z, Axis::Y, Axis::X]);
    assert_eq!(c.interp, Interp::Nearest);
    assert_eq!(c.output, OutputSize::Custom([DimSpec::Exact(100), DimSpec::Input, DimSpec::Fit]));
    assert_eq!(c.audio_mode, AudioMode::Keep);
    assert_eq!(c.audio_reverse, Some(true));
    assert!(!c.even_dims);
    assert_eq!(c.in_args, ["-ss", "10", "-t", "20 s"]);
    assert_eq!(c.vcodec_args, Some(Vec::new()));
    assert_eq!(c.fps.as_deref(), Some("25"));
}

#[test]
fn empty_settings_count_as_unset() {
    let c = read(&[("ROT_MODE", ""), ("FF_FFMPEG", ""), ("ROT_NTH", "")]);
    assert_eq!(c.mode, Mode::Auto);
    assert_eq!(c.ffmpeg, "ffmpeg");
}

#[test]
fn every_bad_setting_is_reported() {
    assert_eq!(fault(&[("ROT_QUIET", "maybe")]).0, Fault::BadBool);
    assert_eq!(fault(&[("ROT_THREADS", "x")]).0, Fault::BadNumber(NumberFault::InvalidDigit));
    assert_eq!(
        fault(&[("ROT_THREADS", "99999999999999999999999")]).0,
        Fault::BadNumber(NumberFault::Overflow)
    );
    let (f, n, t) = fault(&[("ROT_IN_MEMORY", "lots")]);
    assert_eq!((f, n.as_str(), t.as_str()), (Fault::BadReal, "ROT_IN_MEMORY", "lots"));
    for v in ["100.5", "-1", "nan", "inf", "1e400"] {
        assert_eq!(fault(&[("ROT_IN_MEMORY", v)]).0, Fault::MemoryOutOfRange, "{v}");
    }
    assert_eq!(fault(&[("ROT_MODE", "cloud")]).0, Fault::BadMode);
    assert_eq!(fault(&[("ROT_CLIP", "cube3")]).0, Fault::BadClip);
    assert_eq!(fault(&[("ROT_CLIP", "min:late")]).0, Fault::BadClipAnchor);
    assert_eq!(fault(&[("ROT_CLIP", "nth:0")]).0, Fault::ZeroClipCount);
    assert_eq!(
        fault(&[("ROT_CLIP", "nth:x")]).0,
        Fault::BadClipCount(NumberFault::InvalidDigit)
    );
    assert_eq!(fault(&[("ROT_CLIP_TIME", "late")]).0, Fault::BadAnchor);
    assert_eq!(fault(&[("ROT_INTERP", "cubic")]).0, Fault::BadInterp);
    assert_eq!(fault(&[("ROT_ORDER", "xyy")]).0, Fault::BadOrder);
    assert_eq!(fault(&[("ROT_OUTPUT", "10x10")]).0, Fault::BadOutputSize);
    assert!(matches!(fault(&[("ROT_OUTPUT", "10xax10")]).0, Fault::BadDimension(_)));
    assert_eq!(fault(&[("ROT_AUDIO_MODE", "loud")]).0, Fault::BadAudioMode);
    assert_eq!(fault(&[("ROT_AUDIO_REVERSE", "perhaps")]).0, Fault::BadAudioReverse);
    assert_eq!(fault(&[("FF_IN_ARGS", "'a")]).0, Fault::UnterminatedSingleQuote);
    assert_eq!(fault(&[("FF_IN_ARGS", "\"a")]).0, Fault::UnterminatedDoubleQuote);
    assert_eq!(fault(&[("FF_IN_ARGS", "a\\")]).0, Fault::TrailingBackslash);
}
