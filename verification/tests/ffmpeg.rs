use rotatevideo::audio::{audio_plan, audio_speed, AudioPlan};
use rotatevideo::binary64::Float;
use rotatevideo::config::{AudioMode, Config};
use rotatevideo::decimals::Real;
use rotatevideo::ffmpeg::{
    audio_cmd, chunk_cmd, decode_file_cmd, decode_pipe_cmd, encode_cmd, probe_frame_cmd, segment_cmd,
    temp_base, temp_codec_defaults, ColorInfo, Decode, EncodeParams,
};
use rotatevideo::path::lower_extension;
use rotatevideo::pixfmt::PixelFormat;
use rotatevideo::probe::parse_rate;
use rotatevideo::util::{shell_join, Env};

fn as_real(x: f64) -> Real {
    match Float::from_bits(x.to_bits()) {
        Some(f) => Real::Finite(f),
        None if x.is_nan() => Real::Undefined,
        None => Real::Infinite(x < 0.0),
    }
}

fn double(x: Real) -> f64 {
    match x {
        Real::Finite(f) => f64::from_bits(f.to_bits()),
        Real::Infinite(neg) => if neg { f64::NEG_INFINITY } else { f64::INFINITY },
        Real::Undefined => f64::NAN,
    }
}

fn rate(s: &str) -> Option<f64> {
    parse_rate(s).map(double)
}

fn config() -> Config {
    Config::from_env(&Env { vars: Vec::new() }, 4).unwrap()
}

fn cfg(mode: AudioMode) -> Config {
    let mut c = config();
    c.audio_mode = mode;
    c.audio_filters = None;
    c
}

fn planned(
    cfg: &Config,
    reversed: bool,
    in_frames: Option<usize>,
    in_fps: f64,
    nth: usize,
    out_frames: Option<usize>,
    out_fps: f64,
    sample_rate: u32,
) -> AudioPlan {
    audio_plan(cfg, reversed, in_frames, as_real(in_fps), nth, out_frames, as_real(out_fps), sample_rate)
}

#[test]
fn rates() {
    assert_eq!(rate("30/1"), Some(30.0));
    assert!((rate("30000/1001").unwrap() - 29.97).abs() < 0.01);
    assert_eq!(rate("25"), Some(25.0));
    assert_eq!(rate("0/0"), None);
    assert_eq!(rate("x"), None);
}

#[test]
fn tempo_chain() {
    // 3600 -> 1080 frames: 3.33x faster => 2.0, 1.6667
    let p = planned(&cfg(AudioMode::Tempo), false, Some(3600), 30.0, 1, Some(1080), 30.0, 48000);
    assert!((double(p.speed) - 3600.0 / 1080.0).abs() < 1e-9);
    assert!(p.filter.starts_with("atempo=2.0,atempo=1.666666667,atrim=duration=36.000000,asetpts"), "{}", p.filter);
    // 1080 -> 3600 frames: 0.3x => 0.5, 0.6
    let p = planned(&cfg(AudioMode::Tempo), true, Some(1080), 30.0, 1, Some(3600), 30.0, 48000);
    assert!(p.filter.starts_with("areverse,atempo=0.5,atempo=0.600000000,atrim=duration=120.000000"), "{}", p.filter);
    // same length: no tempo stage
    let p = planned(&cfg(AudioMode::Tempo), false, Some(100), 25.0, 1, Some(100), 25.0, 48000);
    assert_eq!(p.filter, "atrim=duration=4.000000,asetpts=PTS-STARTPTS");
    // every 50th frame at unchanged fps: 50x faster
    let p = planned(&cfg(AudioMode::Tempo), false, Some(1200), 100.0, 50, Some(1200), 100.0, 48000);
    assert!((double(p.speed) - 50.0).abs() < 1e-9);
    assert_eq!(p.new_duration.map(double), Some(12.0));
}

#[test]
fn unknown_frame_count_uses_rates_only() {
    let p = planned(&cfg(AudioMode::Tempo), true, None, 30.0, 1, None, 30.0, 48000);
    assert_eq!(p.filter, "areverse,asetpts=PTS-STARTPTS");
    assert_eq!(p.new_duration.map(double), None);
    let p = planned(&cfg(AudioMode::Tempo), false, None, 30.0, 1, None, 60.0, 48000);
    assert!((double(p.speed) - 2.0).abs() < 1e-9);
    assert_eq!(p.filter, "atempo=2.0,asetpts=PTS-STARTPTS");
    let p = planned(&cfg(AudioMode::Tempo), false, None, 100.0, 4, None, 100.0, 48000);
    assert_eq!(p.filter, "atempo=2.0,atempo=2.0,asetpts=PTS-STARTPTS");
}

#[test]
fn rate_chain() {
    let p = planned(&cfg(AudioMode::Rate), false, Some(200), 30.0, 1, Some(100), 30.0, 44100);
    assert_eq!(p.filter, "asetrate=88200,aresample=44100,atrim=duration=3.333333,asetpts=PTS-STARTPTS");
    let p = planned(&cfg(AudioMode::Keep), true, Some(200), 30.0, 1, Some(100), 30.0, 44100);
    assert_eq!(p.filter, "areverse,atrim=duration=3.333333,asetpts=PTS-STARTPTS");
}

#[test]
fn encode_defaults_by_ext() {
    let mut c = config();
    c.vcodec = None;
    c.vcodec_args = None;
    c.encode_args = None;
    c.acodec = None;
    c.acodec_args = None;
    c.color_args = None;
    let color = ColorInfo { range: Some("tv".into()), space: Some("bt709".into()), ..Default::default() };
    let plan = planned(&c, false, Some(10), 10.0, 1, Some(10), 10.0, 48000);
    let cmd = encode_cmd(
        &c,
        &EncodeParams {
            output: "out.mp4",
            width: 640,
            height: 480,
            out_fps: "30000/1001",
            pix_fmt: "yuv420p",
            out_pix_fmt: "yuv420p",
            audio: Some(("/t/a.wav", &plan)),
            color: &color,
        },
    );
    let s = shell_join(&cmd);
    assert!(s.contains("-f rawvideo -pix_fmt yuv420p -video_size 640x480 -framerate 30000/1001 -i pipe:0"), "{s}");
    assert!(
        s.contains("-c:v libx265 -crf 16 -preset medium -x265-params log-level=error -pix_fmt yuv420p -color_range tv -colorspace bt709 -movflags +faststart -tag:v hvc1 -y out.mp4"),
        "{s}"
    );
    assert!(s.contains("-map 1:a:0 -af "), "{s}");
    let none = ColorInfo::default();
    let webm = EncodeParams {
        output: "x/out.webm",
        width: 2,
        height: 2,
        out_fps: "25",
        pix_fmt: "rgb24",
        out_pix_fmt: "yuv420p",
        audio: None,
        color: &none,
    };
    let s = shell_join(&encode_cmd(&c, &webm));
    assert!(s.contains("-an -c:v libvpx-vp9 -crf 30 -b:v 0 -row-mt 1 -pix_fmt yuv420p -y x/out.webm"), "{s}");
    // x264 only on request, and then no hvc1 tag
    c.vcodec = Some("libx264".into());
    c.vcodec_args = Some(vec!["-crf".into(), "18".into()]);
    let s = shell_join(&encode_cmd(&c, &EncodeParams { output: "o.mp4", audio: None, ..webm }));
    assert!(s.contains("-c:v libx264 -crf 18 -pix_fmt yuv420p -movflags +faststart -y o.mp4"), "{s}");
    assert!(!s.contains("hvc1"));
    // mkv: x265 without mp4 flags
    c.vcodec = None;
    c.vcodec_args = None;
    let s = shell_join(&encode_cmd(&c, &EncodeParams { output: "o.mkv", ..webm }));
    assert!(s.contains("-c:v libx265 -crf 16 -preset medium -x265-params log-level=error -pix_fmt yuv420p -y o.mkv"), "{s}");
}

#[test]
fn decode_commands() {
    let mut c = config();
    c.in_args.clear();
    c.decode_args.clear();
    c.temp_vcodec = None;
    c.temp_vcodec_args = None;
    let dec = Decode {
        pix_fmt: "yuv420p".into(),
        fps: "100/50".into(),
        vf: "crop=1080:1080,framestep=50".into(),
        frames: Some(1080),
        video_in_args: vec!["-ss".into(), "294.595".into()],
        audio_in_args: vec!["-ss".into(), "294.6".into(), "-t".into(), "10.8".into()],
    };
    let s = shell_join(&decode_pipe_cmd(&c, &dec, "in.mp4"));
    assert!(s.contains("-ss 294.595 -i in.mp4 -map 0:v:0 -an -sn -dn -r 100/50 -vf crop=1080:1080,framestep=50 -pix_fmt yuv420p -frames:v 1080 -f rawvideo pipe:1"), "{s}");
    let s = shell_join(&probe_frame_cmd(&c, &dec, "in.mp4", "p.nut"));
    assert!(s.ends_with("-frames:v 1080 -frames:v 1 -c:v rawvideo -f nut -y p.nut"), "{s}");
    let s = shell_join(&audio_cmd(&c, &dec, "in.mp4", "a.wav"));
    assert!(s.contains("-ss 294.6 -t 10.8 -i in.mp4 -map 0:a:0 -vn -sn -dn -c:a pcm_f32le -y a.wav"), "{s}");
    let pf = PixelFormat::parse("yuv420p").unwrap();
    let s = shell_join(&segment_cmd(&c, &dec, "in.mp4", &pf, [1080, 1080], 200, as_real(100.0), "/t/chunk-%06d.mkv"));
    assert!(s.contains("-c:v libx264 -crf 10 -preset veryfast -force_key_frames 'expr:gte(n,n_forced*200)' -f segment -segment_time 1.995000 -segment_format matroska -reset_timestamps 1 -y /t/chunk-%06d.mkv"), "{s}");
    let s = shell_join(&chunk_cmd(&c, "yuv420p", "/t/chunk-000001.mkv"));
    assert!(s.ends_with("-i /t/chunk-000001.mkv -map 0:v:0 -an -sn -dn -fps_mode passthrough -pix_fmt yuv420p -f rawvideo pipe:1"), "{s}");
}

#[test]
fn temp_codecs() {
    let f = |n: &str| temp_codec_defaults(&PixelFormat::parse(n).unwrap(), 320, 240).0;
    assert_eq!(f("yuv420p"), "libx264");
    assert_eq!(temp_codec_defaults(&PixelFormat::parse("yuv420p").unwrap(), 321, 239).0, "ffv1");
    assert_eq!(temp_codec_defaults(&PixelFormat::parse("yuv422p").unwrap(), 320, 239).0, "libx264");
    assert_eq!(temp_codec_defaults(&PixelFormat::parse("yuv444p").unwrap(), 321, 239).0, "libx264");
    assert_eq!(f("yuv444p10le"), "libx264");
    assert_eq!(f("gray"), "libx264");
    assert_eq!(f("rgb24"), "libx264rgb");
    assert_eq!(f("bgr0"), "libx264rgb");
    assert_eq!(f("yuv420p12le"), "ffv1");
    assert_eq!(f("yuva420p"), "ffv1");
    assert_eq!(f("rgba"), "ffv1");
    assert_eq!(f("rgb48le"), "ffv1");
}

#[test]
fn whole_commands() {
    let c = config();
    let dec = Decode { pix_fmt: "gray".into(), fps: "25".into(), ..Default::default() };
    assert_eq!(
        shell_join(&decode_file_cmd(&c, &dec, "a b.mp4", "o.raw")),
        "ffmpeg -hide_banner -loglevel error -nostdin -i 'a b.mp4' -map 0:v:0 -an -sn -dn -r 25 -pix_fmt gray -f rawvideo -y o.raw"
    );
    let color = ColorInfo::default();
    let p = EncodeParams {
        output: "o.avi",
        width: 8,
        height: 6,
        out_fps: "25",
        pix_fmt: "gray",
        out_pix_fmt: "NONE",
        audio: None,
        color: &color,
    };
    assert_eq!(
        shell_join(&encode_cmd(&c, &p)),
        "ffmpeg -hide_banner -loglevel error -thread_queue_size 1024 -f rawvideo -pix_fmt gray -video_size 8x6 -framerate 25 -i pipe:0 -map 0:v:0 -an -c:v mpeg4 -q:v 2 -y o.avi"
    );
}

#[test]
fn extensions_are_those_of_paths() {
    for p in [
        "out.mp4", "x/out.WebM", "a/b.c/d", "a/.hidden", ".hidden.mkv", "x.tar.gz", "dir.d/", "a/..", "..", ".",
        "", "/", "a/.", "no_dot", "a.", "a..b", "x/./y.MOV", "x.mp4//", "…é.MKV",
    ] {
        let want = std::path::Path::new(p).extension().and_then(|e| e.to_str()).unwrap_or("").to_ascii_lowercase();
        assert_eq!(lower_extension(p), want, "{p:?}");
    }
}

#[test]
fn temporary_files_go_next_to_the_output() {
    let mut c = config();
    assert_eq!(temp_base(&c, Some("out/dir")), "out/dir");
    assert_eq!(temp_base(&c, Some("")), ".");
    assert_eq!(temp_base(&c, None), ".");
    c.tmpdir = Some("/big".into());
    assert_eq!(temp_base(&c, Some("out/dir")), "/big");
}

#[test]
fn tempo_stages_multiply_to_the_speed() {
    for (i, o) in [(3600usize, 1080usize), (7, 9000), (1_000_000, 3), (500, 500), (1024, 1), (1, 4096)] {
        let p = planned(&cfg(AudioMode::Tempo), false, Some(i), 30.0, 1, Some(o), 30.0, 48000);
        let product: f64 = p
            .filter
            .split(',')
            .filter_map(|f| f.strip_prefix("atempo="))
            .map(|t| t.parse::<f64>().unwrap())
            .product();
        let speed = double(p.speed);
        assert!((product / speed - 1.0).abs() < 1e-6, "{} for {speed}", p.filter);
        let (s, d) = audio_speed(Some(i), as_real(30.0), 1, Some(o), as_real(30.0));
        assert_eq!((double(s), d.map(double)), (speed, p.new_duration.map(double)));
        assert_eq!(speed, (i as f64 * 1.0 / 30.0) / (o as f64 / 30.0));
    }
}

#[test]
fn rates_are_read_as_doubles() {
    for s in ["30000/1001", "24000/1001", " 60 / 1 ", "23.976", "1e2/3", "25/-1"] {
        let want = match s.trim().split_once('/') {
            Some((n, d)) => n.trim().parse::<f64>().unwrap() / d.trim().parse::<f64>().unwrap(),
            None => s.trim().parse::<f64>().unwrap(),
        };
        assert_eq!(rate(s), Some(want), "{s}");
    }
    for s in ["", "/", "1/", "/1", "-5", "0", "0/1", "1/0", "nan", "-inf", "1/2/3", "nan/1"] {
        assert_eq!(rate(s), None, "{s}");
    }
    for s in ["inf", "1e400", "inf/2", "1e308/1e-308"] {
        assert_eq!(rate(s), Some(f64::INFINITY), "{s}");
    }
    for s in ["inf/-2", "1e308/-1e-308"] {
        assert_eq!(rate(s), Some(f64::NEG_INFINITY), "{s}");
    }
    assert_eq!(rate("5/inf"), Some(0.0));
    assert_eq!(rate("1e-200/1e200"), Some(0.0));
    for s in ["5/nan", "inf/inf"] {
        assert!(rate(s).unwrap().is_nan(), "{s}");
    }
}

#[test]
fn durations_past_the_largest_number_are_infinite() {
    let p = planned(&cfg(AudioMode::Keep), false, Some(10), 30.0, 1, Some(10), 1e-320, 48000);
    assert_eq!(p.filter, "atrim=duration=inf,asetpts=PTS-STARTPTS");
    assert_eq!((double(p.speed), p.new_duration.map(double)), (0.0, Some(f64::INFINITY)));
    let p = planned(&cfg(AudioMode::Rate), false, Some(10), 1e-320, 1, Some(10), 30.0, 48000);
    assert_eq!(p.filter, format!("asetrate={},aresample=48000,atrim=duration=0.333333,asetpts=PTS-STARTPTS", u64::MAX));
    let p = planned(&cfg(AudioMode::Tempo), false, Some(10), 1e-320, 1, Some(10), 1e-320, 48000);
    assert!(double(p.speed).is_nan());
    assert_eq!(p.filter, "atrim=duration=inf,asetpts=PTS-STARTPTS");
    let dec = Decode::default();
    let pf = PixelFormat::parse("yuv420p").unwrap();
    let v = segment_cmd(&config(), &dec, "in", &pf, [64, 64], 10, as_real(1e-320), "out");
    assert!(shell_join(&v).contains("-segment_time inf "));
}

#[test]
fn rates_of_zero_take_forever() {
    let mut tested = 0;
    for (in_fps, out_fps) in [(0.0, 30.0), (30.0, 0.0), (0.0, 0.0), (-0.0, 25.0), (30.0, f64::INFINITY), (f64::NAN, 25.0)] {
        for counts in [Some(10), None] {
            let p = planned(&cfg(AudioMode::Keep), false, counts, in_fps, 2, counts, out_fps, 48000);
            let (speed, length) = match counts {
                Some(n) => {
                    let (old, new) = (n as f64 * 2.0 / in_fps, n as f64 / out_fps);
                    (if new > 0.0 { old / new } else { 1.0 }, Some(new))
                }
                None => (2.0 * out_fps / in_fps, None),
            };
            let got = double(p.speed);
            assert!(got == speed || (got.is_nan() && speed.is_nan()), "{in_fps} {out_fps}: {got} for {speed}");
            assert_eq!(p.new_duration.map(|d| double(d).to_bits()), length.map(f64::to_bits), "{in_fps} {out_fps}");
            if let Some(d) = length {
                assert!(p.filter.starts_with(&format!("atrim=duration={d:.6},")), "{}", p.filter);
            }
            tested += 1;
        }
    }
    assert_eq!(tested, 12);
    let pf = PixelFormat::parse("yuv420p").unwrap();
    for (fps, time) in [(0.0, "inf"), (-0.0, "-inf"), (f64::NEG_INFINITY, "-0.000000"), (f64::NAN, "NaN")] {
        let v = segment_cmd(&config(), &Decode::default(), "in", &pf, [64, 64], 10, as_real(fps), "out");
        assert!(shell_join(&v).contains(&format!("-segment_time {time} ")), "{fps}");
    }
}
