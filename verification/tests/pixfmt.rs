use rotatevideo::error::Fault;
use rotatevideo::number::NumberFault;
use rotatevideo::pixfmt::{PixelFormat, Region};

#[test]
fn parse_formats() {
    let f = PixelFormat::parse("yuv420p").unwrap();
    assert_eq!((f.bytes, f.depth, f.planes.len()), (1, 8, 3));
    assert_eq!((f.planes[1].sx, f.planes[1].sy), (1, 1));
    assert!(f.is_yuv() && !f.has_alpha());
    let f = PixelFormat::parse("yuv422p10le").unwrap();
    assert_eq!((f.bytes, f.depth), (2, 10));
    assert_eq!((f.planes[1].sx, f.planes[1].sy), (1, 0));
    let f = PixelFormat::parse("yuva444p").unwrap();
    assert_eq!(f.planes.len(), 4);
    assert!(f.has_alpha());
    assert_eq!(f.encoder_default(), "yuv420p");
    let f = PixelFormat::parse("gray16le").unwrap();
    assert!(f.is_gray() && f.bytes == 2 && f.depth == 16);
    let f = PixelFormat::parse("rgb24").unwrap();
    assert_eq!(f.planes[0].channels, 3);
    assert_eq!(f.bpp(0), 3);
    assert_eq!(f.encoder_default(), "yuv420p");
    assert_eq!(PixelFormat::parse("yuvj420p").unwrap().encoder_default(), "yuvj420p");
    assert!(PixelFormat::parse("nv12").is_err());
    assert!(PixelFormat::parse("yuv420p17le").is_err());
    for name in ["yuv420p010le", "yuv420p+10le", "gray010le", "gray+10le", "yuva420p0010le", "yuv420p8le", "yuv420ple"] {
        assert!(PixelFormat::parse(name).is_err(), "{name}");
    }
    assert!(PixelFormat::parse("yuv421p").is_err());
}

#[test]
fn layouts() {
    let f = PixelFormat::parse("yuv420p").unwrap();
    assert_eq!(f.frame_bytes(1920, 1080), 1920 * 1080 * 3 / 2);
    let l = f.layout(5, 3);
    assert_eq!(l[0], Region { offset: 0, w: 5, h: 3, bytes: 15 });
    assert_eq!(l[1], Region { offset: 15, w: 3, h: 2, bytes: 6 });
    assert_eq!(l[2], Region { offset: 21, w: 3, h: 2, bytes: 6 });
    assert_eq!(f.frame_bytes(5, 3), 27);
    assert_eq!(PixelFormat::parse("yuv444p16le").unwrap().frame_bytes(4, 4), 4 * 4 * 3 * 2);
    assert_eq!(PixelFormat::parse("rgba").unwrap().frame_bytes(4, 4), 64);
    assert!(PixelFormat::parse("yuv420p").unwrap().same_layout(&PixelFormat::parse("yuvj420p").unwrap()));
}

#[test]
fn fills() {
    let rgb = PixelFormat::parse("rgb24").unwrap();
    assert_eq!(rgb.fill("#ff8000", false).unwrap(), vec![vec![255, 128, 0]]);
    assert_eq!(rgb.fill("1,2,3", false).unwrap(), vec![vec![1, 2, 3]]);
    assert_eq!(rgb.fill("7", false).unwrap(), vec![vec![7, 7, 7]]);
    let bgra = PixelFormat::parse("bgra").unwrap();
    assert_eq!(bgra.fill("#01020304", false).unwrap(), vec![vec![3, 2, 1, 4]]);
    assert_eq!(PixelFormat::parse("gray16le").unwrap().fill("255", true).unwrap(), vec![vec![255, 255]]);
    assert_eq!(
        PixelFormat::parse("rgb48le").unwrap().fill("255,0,0", false).unwrap(),
        vec![vec![255, 255, 0, 0, 0, 0]]
    );
    let yuv = PixelFormat::parse("yuv420p").unwrap();
    assert_eq!(yuv.fill("0,0,0", false).unwrap(), vec![vec![16], vec![128], vec![128]]);
    assert_eq!(yuv.fill("0,0,0", true).unwrap(), vec![vec![0], vec![128], vec![128]]);
    assert_eq!(yuv.fill("255,255,255", false).unwrap(), vec![vec![235], vec![128], vec![128]]);
    assert_eq!(yuv.fill("255,255,255", true).unwrap(), vec![vec![255], vec![128], vec![128]]);
    let red = yuv.fill("255,0,0", false).unwrap();
    assert_eq!(red[0], vec![63]);
    assert!(red[1][0] < 128 && red[2][0] > 200);
    let y10 = PixelFormat::parse("yuv420p10le").unwrap();
    assert_eq!(y10.fill("0", false).unwrap(), vec![vec![64, 0], vec![0, 2], vec![0, 2]]);
    let ya = PixelFormat::parse("yuva420p").unwrap();
    assert_eq!(
        ya.fill("0,0,0,255", false).unwrap(),
        vec![vec![16], vec![128], vec![128], vec![255]]
    );
    assert_eq!(PixelFormat::parse("gray").unwrap().fill("0", true).unwrap(), vec![vec![0]]);
    assert!(rgb.fill("#12", false).is_err());
    assert!(rgb.fill("1,2,3,4,5", false).is_err());
    assert!(rgb.fill("300", false).is_err());
}

#[test]
fn fill_faults() {
    let rgb = PixelFormat::parse("rgb24").unwrap();
    assert_eq!(rgb.fill("#12", false).unwrap_err().fault, Fault::FillHexLength);
    assert_eq!(rgb.fill("1,2,3,4,5", false).unwrap_err().fault, Fault::FillComponents);
    assert_eq!(
        rgb.fill("a", false).unwrap_err().fault,
        Fault::FillNumber(NumberFault::InvalidDigit)
    );
    assert_eq!(
        PixelFormat::parse("nv12").unwrap_err().fault,
        Fault::UnsupportedPixelFormat
    );
}

#[test]
fn yuv_fill_follows_the_formula() {
    for (name, depth) in [("yuv444p", 8u32), ("yuv420p10le", 10), ("yuva444p16le", 16)] {
        let f = PixelFormat::parse(name).unwrap();
        for (r, g, b) in [(255u32, 0u32, 0u32), (0, 255, 0), (0, 0, 255), (12, 200, 77), (90, 90, 91)] {
            for full in [false, true] {
                let maxv = ((1u64 << depth) - 1) as f64;
                let sc = (1u64 << (depth - 8)) as f64;
                let (rf, gf, bf) = (r as f64 / 255.0, g as f64 / 255.0, b as f64 / 255.0);
                let y = 0.2126 * rf + 0.7152 * gf + 0.0722 * bf;
                let (cb, cr) = ((bf - y) / 1.8556, (rf - y) / 1.5748);
                let want = if full {
                    let mid = (1u64 << (depth - 1)) as f64;
                    [y * maxv, mid + cb * maxv, mid + cr * maxv]
                } else {
                    [(16.0 + 219.0 * y) * sc, (128.0 + 224.0 * cb) * sc, (128.0 + 224.0 * cr) * sc]
                };
                let v = f.fill(&format!("{r},{g},{b}"), full).unwrap();
                for p in 0..3 {
                    let n = want[p].round().clamp(0.0, maxv) as u32;
                    let bytes = n.to_le_bytes();
                    assert_eq!(v[p], bytes[..f.bytes].to_vec(), "{name} {r},{g},{b} {full} plane {p}");
                }
            }
        }
    }
}

#[test]
fn raw_sizes() {
    for (name, twice) in [("yuv420p", 3), ("yuv444p", 6), ("rgb24", 6), ("yuv420p10le", 6), ("rgb48le", 12), ("gray", 2)] {
        let f = PixelFormat::parse(name).unwrap();
        assert_eq!(2 * f.frame_bytes(1920, 1080), twice * 1920 * 1080, "{name}");
        assert_eq!(f.checked_frame_bytes(1920, 1080), Some(f.frame_bytes(1920, 1080)));
        assert_eq!(f.checked_frame_bytes(usize::MAX, 2), None);
    }
}

#[test]
fn hexadecimal_colours_are_digits() {
    let rgb = PixelFormat::parse("rgb24").unwrap();
    for spec in ["#+1+2+3", "#12 456", "#g00000", "#1234567+"] {
        let e = rgb.fill(spec, false).unwrap_err();
        assert_eq!(e.fault, Fault::FillNumber(NumberFault::InvalidDigit), "{spec}");
    }
}

#[test]
fn notations_of_a_colour_agree() {
    for name in ["rgb24", "bgra", "gray", "gray12le", "yuv420p", "yuva444p10le", "ya16le"] {
        let f = PixelFormat::parse(name).unwrap();
        for full in [false, true] {
            let fill = |s: &str| f.fill(s, full).unwrap();
            assert_eq!(fill("#0aff7f"), fill("10,255,127"));
            assert_eq!(fill("#0AFF7F"), fill(" 10 , 255 , 127 "));
            assert_eq!(fill("#01020380"), fill("1,2,3,128"));
            assert_eq!(fill("77"), fill("77,77,77"));
        }
    }
}

#[test]
fn deeper_formats_take_twice_the_bytes() {
    for name in ["gray", "yuv444p", "yuv422p", "yuv420p", "yuv440p", "yuv411p", "yuv410p", "yuva420p"] {
        let f = PixelFormat::parse(name).unwrap();
        for d in 9..=16 {
            let g = PixelFormat::parse(&format!("{name}{d}le")).unwrap();
            assert_eq!(g.depth, d);
            for (w, h) in [(1920, 1080), (33, 7)] {
                assert_eq!(g.frame_bytes(w, h), 2 * f.frame_bytes(w, h));
            }
        }
    }
}
