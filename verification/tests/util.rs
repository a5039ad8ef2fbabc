use rotatevideo::binary64::Float;
use rotatevideo::progress::{Elapsed, Progress};
use rotatevideo::text::is_white;
use rotatevideo::decimals::Real;
use rotatevideo::util::{fmt_bytes, fmt_dur, rate_div, shell_join, split_args};

#[test]
fn split() {
    assert_eq!(split_args("").unwrap(), Vec::<String>::new());
    assert_eq!(split_args("  -vf  scale=960:-2 ").unwrap(), vec!["-vf", "scale=960:-2"]);
    assert_eq!(
        split_args(r#"-vf "scale=960:-2, fps=15" -x 'a b' c\ d"#).unwrap(),
        vec!["-vf", "scale=960:-2, fps=15", "-x", "a b", "c d"]
    );
    assert_eq!(split_args(r#""a\"b""#).unwrap(), vec!["a\"b"]);
    assert_eq!(split_args("''").unwrap(), vec![""]);
    assert!(split_args("'abc").is_err());
    assert_eq!(split_args("a\\\nb").unwrap(), vec!["ab"]);
    assert_eq!(split_args("\"a\\\nb\"").unwrap(), vec!["ab"]);
    assert_eq!(split_args("a \\\n b").unwrap(), vec!["a", "b"]);
    assert_eq!(split_args("'a\\\nb'").unwrap(), vec!["a\\\nb"]);
}

#[test]
fn rate_division() {
    assert_eq!(rate_div("30000/1001", 1), "30000/1001");
    assert_eq!(rate_div("30000/1001", 3), "30000/3003");
    assert_eq!(rate_div("100", 50), "2");
    assert_eq!(rate_div("29.97", 2), "14.985");
}

#[test]
fn join() {
    let a: Vec<String> = vec!["ffmpeg".into(), "-vf".into(), "a b".into(), "".into()];
    assert_eq!(shell_join(&a), "ffmpeg -vf 'a b' ''");
}

#[test]
fn joined_arguments_split_again() {
    let all = ["plain", "a b", "", "it's", "tab\there", "back\\slash", "\"q\"", "ümläut", "$x;`y`", "'", "''"];
    let args: Vec<String> = all.iter().map(|s| s.to_string()).collect();
    assert_eq!(split_args(&shell_join(&args)).unwrap(), args);
}

#[test]
fn rates_that_are_no_fractions_are_divided_as_doubles() {
    for rate in ["23.976", "59.94", " 25 ", "1e-7", "123456.789", "0.1", "1e21", "2.5e-10"] {
        for n in [2usize, 3, 7, 10, 1000] {
            let f: f64 = rate.trim().parse().unwrap();
            assert_eq!(rate_div(rate, n), format!("{}", f / n as f64), "{rate} {n}");
        }
    }
    assert_eq!(rate_div("x", 2), "x");
    assert_eq!(rate_div("a/b", 2), "a/b");
    assert_eq!(rate_div("inf", 2), "inf");
    assert_eq!(rate_div("-inf", 2), "-inf");
    assert_eq!(rate_div("nan", 2), "NaN");
    assert_eq!(rate_div("-0", 2), "-0");
    assert_eq!(rate_div("-1e-400", 2), "-0");
    assert_eq!(rate_div("0", 2), "0");
}

#[test]
fn white_space_is_that_of_unicode() {
    for c in '\u{0}'..='\u{ffff}' {
        assert_eq!(is_white(c), c.is_whitespace(), "{:?}", c);
    }
}

fn float(x: f64) -> Float {
    Float::from_bits(x.to_bits()).unwrap()
}

#[test]
fn durations_in_words() {
    assert_eq!(fmt_dur(Real::Infinite(false)), "5124095576030431h00m15s");
    assert_eq!(fmt_dur(Real::Undefined), "0s");
    assert_eq!(fmt_dur(Real::Finite(float(0.4))), "0s");
    assert_eq!(fmt_dur(Real::Finite(float(0.5))), "1s");
    assert_eq!(fmt_dur(Real::Finite(float(59.4))), "59s");
    assert_eq!(fmt_dur(Real::Finite(float(61.0))), "1m01s");
    assert_eq!(fmt_dur(Real::Finite(float(3599.6))), "1h00m00s");
    assert_eq!(fmt_dur(Real::Finite(float(36_061.2))), "10h01m01s");
    assert_eq!(fmt_dur(Real::Finite(float(-3.0))), "0s");
}

#[test]
fn byte_counts_in_words() {
    assert_eq!(fmt_bytes(0), "0 B");
    assert_eq!(fmt_bytes(1023), "1023 B");
    assert_eq!(fmt_bytes(1024), "1.00 KiB");
    assert_eq!(fmt_bytes(1536), "1.50 KiB");
    assert_eq!(fmt_bytes(129_000_000_000), "120.14 GiB");
    for b in [1025u64, 1_048_575, 1_048_576, 987_654_321, 1 << 40, 3 << 50, u64::MAX] {
        let units = ["B", "KiB", "MiB", "GiB", "TiB", "PiB"];
        let mut v = b as f64;
        let mut i = 0;
        while v >= 1024.0 && i < 5 {
            v /= 1024.0;
            i += 1;
        }
        assert_eq!(fmt_bytes(b), format!("{v:.2} {}", units[i]));
    }
}

fn at(ms: u32) -> Elapsed {
    Elapsed { secs: (ms / 1000) as u64, nanos: (ms % 1000) * 1_000_000 }
}

#[test]
fn progress_lines_come_at_most_every_two_seconds() {
    let mut p = Progress::new("encode", Some(200), false);
    assert_eq!(p.total(), Some(200));
    assert_eq!(
        p.update(50, at(10_000)).unwrap(),
        "\rencode: 50/200 (25.0%), 10s elapsed, 5.0 frames/s, ETA 30s   "
    );
    assert_eq!(p.update(51, at(11_999)), None);
    assert!(p.update(52, at(12_000)).is_some());
    // the last frame is always shown
    assert_eq!(
        p.update(200, at(12_500)).unwrap(),
        "\rencode: 200/200 (100.0%), 13s elapsed, 16.0 frames/s   "
    );
    assert_eq!(
        p.finish(150, at(20_000)).unwrap(),
        "\rencode: 150/150 (100.0%), 20s elapsed, 7.5 frames/s   \n"
    );
}

#[test]
fn progress_without_a_total_or_quiet() {
    let mut p = Progress::new("stream", None, false);
    assert_eq!(p.update(0, at(0)).unwrap(), "\rstream: 0 frames, 0s elapsed   ");
    assert_eq!(
        p.update(90, at(3_000)).unwrap(),
        "\rstream: 90 frames, 3s elapsed, 30.0 frames/s   "
    );
    let mut q = Progress::new("encode", None, true);
    assert_eq!(q.update(1, at(9_000)), None);
    assert_eq!(q.finish(1, at(9_999)), None);
}
