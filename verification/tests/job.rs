use rotatevideo::audio::can_reach;
use rotatevideo::binary64::Float;
use rotatevideo::clip::plan;
use rotatevideo::config::{Anchor, Clip, Config, Mode};
use rotatevideo::decimals::Real;
use rotatevideo::error::Fault;
use rotatevideo::ffmpeg::ColorInfo;
use rotatevideo::geometry::{parse_output_size, rotation_matrix, Angle, Axis, Mat3, OutputSize};
use rotatevideo::job::{
    audio_rate, choose_mode, chunk_frames, counts_exactly, decode_limit, decode_settings, decoded_rate,
    describe_audio, exceeds_disk, exceeds_memory, is_full_range, known_frames, memory_budget,
    output_format, output_rate, parse_angle, raw_bytes, raw_file_frames, reverses_audio, streams,
    total_frames, working_format, Job,
};
use rotatevideo::pixfmt::PixelFormat;
use rotatevideo::probe::{probe_frame_size, probe_input, ProbeInfo, Stream};
use rotatevideo::util::{shell_join, Env};

fn float(x: f64) -> Float {
    Float::from_bits(x.to_bits()).unwrap()
}

fn double(x: Real) -> f64 {
    match x {
        Real::Finite(f) => f64::from_bits(f.to_bits()),
        Real::Infinite(neg) => if neg { f64::NEG_INFINITY } else { f64::INFINITY },
        Real::Undefined => f64::NAN,
    }
}

fn config() -> Config {
    Config::from_env(&Env { vars: Vec::new() }, 4).unwrap()
}

fn stream(kind: &str) -> Stream {
    Stream {
        codec_type: Some(kind.into()),
        codec_name: None,
        width: None,
        height: None,
        pix_fmt: None,
        r_frame_rate: None,
        avg_frame_rate: None,
        nb_frames: None,
        duration: None,
        sample_rate: None,
        channels: None,
        color_range: None,
        color_space: None,
        color_transfer: None,
        color_primaries: None,
    }
}

fn video() -> Stream {
    Stream {
        codec_name: Some("h264".into()),
        width: Some(1920),
        height: Some(1080),
        pix_fmt: Some("yuv420p".into()),
        r_frame_rate: Some("100/1".into()),
        avg_frame_rate: Some("100/1".into()),
        nb_frames: Some("60000".into()),
        duration: Some("600.0".into()),
        color_range: Some("tv".into()),
        color_space: Some("unknown".into()),
        ..stream("video")
    }
}

fn info() -> ProbeInfo {
    probe_input(&config(), &[video()], None).unwrap()
}

fn rotation(deg: [f64; 3]) -> Mat3 {
    let angles = deg.map(|d| {
        let (s, c) = d.to_radians().sin_cos();
        Angle { sin: float(s), cos: float(c) }
    });
    rotation_matrix(angles, [Axis::X, Axis::Y, Axis::Z])
}

#[test]
fn streams_are_probed() {
    let audio = Stream {
        codec_name: Some("aac".into()),
        sample_rate: Some("44100".into()),
        channels: Some(2),
        ..stream("audio")
    };
    let i = probe_input(&config(), &[audio, stream("data"), video()], Some("1.5")).unwrap();
    assert_eq!((i.vcodec.as_str(), i.width, i.height, i.pix_fmt.as_str()), ("h264", 1920, 1080, "yuv420p"));
    assert_eq!((i.fps.as_str(), double(i.fps_f)), ("100/1", 100.0));
    assert_eq!((i.nb_frames, i.duration.map(double)), (Some(60000), Some(600.0)));
    let a = i.audio.unwrap();
    assert_eq!((a.codec.as_str(), a.sample_rate, a.channels), ("aac", 44100, 2));
    assert_eq!(i.color.range.as_deref(), Some("tv"));
    assert_eq!((i.color.space, i.color.transfer, i.color.primaries), (None, None, None));
}

#[test]
fn probing_falls_back() {
    let mut v = video();
    v.avg_frame_rate = Some("0/0".into());
    v.r_frame_rate = Some("25/1".into());
    v.nb_frames = Some("N/A".into());
    v.duration = Some("N/A".into());
    let i = probe_input(&config(), &[v, stream("audio")], Some("12.5")).unwrap();
    assert_eq!((i.fps.as_str(), i.nb_frames, i.duration.map(double)), ("25/1", None, Some(12.5)));
    let a = i.audio.unwrap();
    assert_eq!((a.codec.as_str(), a.sample_rate, a.channels), ("", 48000, 0));
    let mut c = config();
    c.fps = Some("12".into());
    assert_eq!(probe_input(&c, &[video()], None).unwrap().fps, "12");
    c.fps = Some("inf".into());
    let mut v = video();
    v.duration = Some("-inf".into());
    let i = probe_input(&c, &[v], Some("3")).unwrap();
    assert_eq!((double(i.fps_f), i.duration.map(double)), (f64::INFINITY, Some(f64::NEG_INFINITY)));
}

#[test]
fn probing_faults() {
    let c = config();
    assert_eq!(probe_input(&c, &[stream("audio")], None).unwrap_err().fault, Fault::NoVideoStream);
    let mut v = video();
    v.width = Some(0);
    assert_eq!(probe_input(&c, &[v], None).unwrap_err().fault, Fault::NoDimensions);
    let mut v = video();
    v.avg_frame_rate = None;
    v.r_frame_rate = Some("0/0".into());
    assert_eq!(probe_input(&c, &[v], None).unwrap_err().fault, Fault::NoFrameRate);
    let mut bad = config();
    bad.fps = Some("fast".into());
    let e = probe_input(&bad, &[video()], None).unwrap_err();
    assert_eq!((e.fault, e.text.as_str()), (Fault::BadFrameRate, "fast"));
    assert_eq!(probe_frame_size(&[video()]).unwrap(), (1920, 1080, "yuv420p".to_string()));
    assert_eq!(probe_frame_size(&[]).unwrap_err().fault, Fault::NoVideoStream);
    assert_eq!(probe_frame_size(&[stream("video")]).unwrap_err().fault, Fault::NoDimensions);
}

#[test]
fn formats_are_chosen() {
    let mut c = config();
    let mut i = info();
    assert_eq!(working_format(&c, &i), ("yuv420p".to_string(), Some("tv".to_string())));
    i.pix_fmt = "nv12".into();
    assert_eq!(working_format(&c, &i).0, "rgb24");
    i.pix_fmt = "yuvj422p".into();
    assert_eq!(working_format(&c, &i), ("yuv422p".to_string(), Some("pc".to_string())));
    c.pix_fmt = "gray".into();
    assert_eq!(working_format(&c, &i), ("gray".to_string(), Some("tv".to_string())));
    assert!(is_full_range(&Some("pc".into()), false));
    assert!(!is_full_range(&Some("tv".into()), true));
    assert!(is_full_range(&None, true));
    assert!(!is_full_range(&None, false));
    let rgb = PixelFormat::parse("rgb24").unwrap();
    let y10 = PixelFormat::parse("yuv420p10le").unwrap();
    assert_eq!((output_format(&c, &rgb), output_format(&c, &y10)), ("yuv420p".into(), "yuv420p10le".into()));
    c.out_pix_fmt = "none".into();
    assert_eq!(output_format(&c, &rgb), "none");
}

#[test]
fn output_rates() {
    let mut c = config();
    let (t, x) = output_rate(&c, &info()).unwrap();
    assert_eq!((t.as_str(), double(x)), ("100/1", 100.0));
    c.out_fps = Some("30000/1001".into());
    assert_eq!(double(output_rate(&c, &info()).unwrap().1), 30000.0 / 1001.0);
    c.out_fps = Some("quick".into());
    let e = output_rate(&c, &info()).unwrap_err();
    assert_eq!((e.fault, e.name.as_str(), e.text.as_str()), (Fault::BadFrameRate, "FF_OUT_FPS", "quick"));
}

#[test]
fn frames_are_counted() {
    let mut c = config();
    let mut i = info();
    assert!(counts_exactly(&c, &i));
    assert_eq!(total_frames(&c, &i), Some(60000));
    c.fps = Some("25".into());
    i.fps_f = Real::Finite(float(25.0));
    assert!(!counts_exactly(&c, &i));
    assert_eq!(total_frames(&c, &i), Some(15000));
    i.duration = Some(Real::Finite(float(0.01)));
    assert_eq!(total_frames(&c, &i), None);
    i.duration = Some(Real::Infinite(false));
    assert_eq!(total_frames(&c, &i), Some(usize::MAX));
    i.duration = Some(Real::Infinite(true));
    assert_eq!(total_frames(&c, &i), None);
    i.duration = Some(Real::Undefined);
    assert_eq!(total_frames(&c, &i), None);
    i.duration = None;
    assert_eq!(total_frames(&c, &i), None);
    let p = plan(Clip::Nth(Some(50)), 1920, 1080, Some(60000), true).unwrap();
    assert_eq!((known_frames(&p, true), known_frames(&p, false)), (Some(1200), None));
    let p = plan(Clip::Min(Anchor::Middle), 1920, 1080, Some(60000), true).unwrap();
    assert_eq!(known_frames(&p, false), Some(1080));
    assert_eq!(double(decoded_rate(&info(), &p)), 100.0);
}

#[test]
fn clipped_input_is_decoded() {
    let mut c = config();
    c.vf = Some("hflip".into());
    let p = plan(Clip::Min(Anchor::Middle), 1920, 1080, Some(60000), true).unwrap();
    let d = decode_settings(&c, &info(), "yuv420p", &p);
    assert_eq!((d.vf.as_str(), d.fps.as_str(), d.frames), ("hflip,crop=1080:1080", "100/1", Some(1080)));
    assert_eq!(d.video_in_args, ["-ss", "294.597500"]);
    assert_eq!(d.audio_in_args, ["-ss", "294.600000", "-t", "10.800000"]);
    let p = plan(Clip::Nth(Some(50)), 1920, 1080, Some(60000), true).unwrap();
    let d = decode_settings(&config(), &info(), "gray", &p);
    assert_eq!((d.vf.as_str(), d.fps.as_str(), d.frames, d.pix_fmt.as_str()), ("framestep=50", "100/50", None, "gray"));
    assert!(d.video_in_args.is_empty() && d.audio_in_args.is_empty());
    assert_eq!(double(decoded_rate(&info(), &p)), 2.0);
}

#[test]
fn modes_are_chosen() {
    assert_eq!(choose_mode(Mode::Auto, true, None, None).unwrap(), Mode::Stream);
    assert_eq!(choose_mode(Mode::Auto, false, Some(10), Some(10)).unwrap(), Mode::Ram);
    assert_eq!(choose_mode(Mode::Auto, false, Some(11), Some(10)).unwrap(), Mode::Disk);
    assert_eq!(choose_mode(Mode::Auto, false, None, Some(10)).unwrap(), Mode::Disk);
    assert_eq!(choose_mode(Mode::Ram, true, Some(11), Some(10)).unwrap(), Mode::Ram);
    assert_eq!(choose_mode(Mode::Stream, true, None, None).unwrap(), Mode::Stream);
    assert_eq!(choose_mode(Mode::Stream, false, None, None).unwrap_err().fault, Fault::StreamNeedsTime);
}

#[test]
fn sizes_are_checked() {
    assert_eq!(raw_bytes(Some(1000), 3_110_400), Some(3_110_400_000));
    assert_eq!(raw_bytes(None, 10), None);
    for (p, pct) in [(16_000_000_000u64, 80.0f64), (12345, 33.3), (u64::MAX, 100.0), (7, 0.0)] {
        assert_eq!(memory_budget(Some(p), float(pct)), Some((p as f64 * pct / 100.0) as u64));
    }
    assert_eq!(memory_budget(None, float(80.0)), None);
    assert!(exceeds_memory(false, Some(11), Some(10)));
    assert!(!exceeds_memory(true, Some(11), Some(10)));
    assert!(!exceeds_memory(false, Some(10), Some(10)));
    assert!(!exceeds_memory(false, None, Some(10)));
    assert!(exceeds_disk(false, Some(100), Some(104)));
    assert!(!exceeds_disk(false, Some(100), Some(105)));
    assert!(!exceeds_disk(true, Some(100), Some(1)));
    assert!(exceeds_disk(false, Some(u64::MAX), Some(u64::MAX)));
    assert_eq!(decode_limit(false, Some(100)), Some(100));
    assert_eq!(decode_limit(false, Some(u64::MAX)), Some(u64::MAX));
    assert_eq!(decode_limit(true, Some(100)), None);
    assert_eq!(decode_limit(false, None), None);
    assert_eq!(chunk_frames(512, 3_110_400), 172);
    assert_eq!(chunk_frames(1, 3_110_400), 1);
    assert_eq!(chunk_frames(512, 10), 1000);
    assert_eq!(raw_file_frames(120, 40).unwrap(), 3);
    assert_eq!(raw_file_frames(0, 40).unwrap_err().fault, Fault::NoFrames);
    assert_eq!(raw_file_frames(121, 40).unwrap_err().fault, Fault::RaggedFile);
}

fn job<'a>(cfg: &'a Config, pf: &'a PixelFormat, color: &'a ColorInfo, rot: Mat3) -> Job<'a> {
    Job {
        cfg,
        pf,
        rot,
        output: "out.mp4",
        out_fps: "25".into(),
        out_fps_f: Real::Finite(float(25.0)),
        out_pix_fmt: "yuv420p".into(),
        color,
        audio: Some(("a.wav".into(), 48000)),
        audio_reverse: true,
        in_fps_f: Real::Finite(float(25.0)),
        nth: 1,
    }
}

#[test]
fn jobs_put_it_together() {
    let mut cfg = config();
    let pf = PixelFormat::parse("yuv420p").unwrap();
    let color = ColorInfo::default();
    let j = job(&cfg, &pf, &color, rotation([90.0, 0.0, 0.0]));
    let (out, track) = j.out_dims([64, 48, 100]).unwrap();
    assert_eq!(out, [64, 100, 48]);
    assert_eq!(j.describe_window([64, 48, 100], out, &track), None);
    let p = j.audio_plan(Some(100), Some(48)).unwrap();
    assert_eq!(p.filter, "areverse,atempo=2.0,atempo=1.041666667,atrim=duration=1.920000,asetpts=PTS-STARTPTS");
    assert_eq!(
        describe_audio(&p),
        "reversed, speed x2.0833, 2s, filter: areverse,atempo=2.0,atempo=1.041666667,atrim=duration=1.920000,asetpts=PTS-STARTPTS"
    );
    let s = shell_join(&j.encode_cmd(out[0], out[1], Some(&p)));
    assert!(s.contains("-video_size 64x100 -framerate 25 -i pipe:0 -thread_queue_size 1024 -i a.wav"), "{s}");
    assert!(shell_join(&j.encode_cmd(2, 2, None)).contains(" -an "));
    cfg.crop = true;
    let j = job(&cfg, &pf, &color, rotation([10.0, 0.0, 0.0]));
    let (out, track) = j.out_dims([4, 6, 60]).unwrap();
    let text = j.describe_window([4, 6, 60], out, &track).unwrap();
    assert!(text.starts_with("window: 4x8 follows content, centre moves (+0.000, "), "{text}");
    assert!(text.ends_with(") px/frame (full box 4x18)"), "{text}");
}

#[test]
fn small_decisions() {
    let mut c = config();
    let mut i = probe_input(&c, &[video(), stream("audio")], None).unwrap();
    assert_eq!(audio_rate(&c, &i), Some(48000));
    c.no_audio = true;
    assert_eq!(audio_rate(&c, &i), None);
    c.no_audio = false;
    i.audio = None;
    assert_eq!(audio_rate(&c, &i), None);
    let still = rotation([0.0, 0.0, 0.0]);
    let back = rotation([0.0, 180.0, 0.0]);
    let tilted = rotation([90.0, 0.0, 0.0]);
    assert_eq!((reverses_audio(&c, &still), reverses_audio(&c, &back)), (false, true));
    c.audio_reverse = Some(true);
    assert!(reverses_audio(&c, &still));
    c.audio_reverse = Some(false);
    assert!(!reverses_audio(&c, &back));
    let deep = parse_output_size("0x0x30").unwrap();
    assert!(streams(&back, OutputSize::Fit) && streams(&back, OutputSize::Crop));
    assert!(!streams(&tilted, OutputSize::Fit) && !streams(&back, deep));
    for (s, want) in [(" 30 ", Some(30.0)), ("-1e1", Some(-10.0)), ("inf", Some(f64::INFINITY)), ("x", None), ("", None)] {
        assert_eq!(parse_angle(s).map(double), want, "{s}");
    }
    for (speed, want) in [(2.0, true), (0.0, false), (-1.0, false), (f64::INFINITY, false), (f64::NAN, true)] {
        let x = match Float::from_bits(f64::to_bits(speed)) {
            Some(f) => Real::Finite(f),
            None => if speed > 0.0 { Real::Infinite(false) } else { Real::Undefined },
        };
        assert_eq!(can_reach(x), want, "{speed}");
    }
}
