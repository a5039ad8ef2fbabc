use rotatevideo::binary64::Float;
use rotatevideo::geometry::{output_dims, planar_xy, rotation_matrix, Angle, Axis, Mat3, OutputSize};
use rotatevideo::pixfmt::PixelFormat;
use rotatevideo::render::Renderer;
use rotatevideo::track::{tracked_output, Track};
use rotatevideo::volume::{Flat, Frames, Interp};

const XYZ: [Axis; 3] = [Axis::X, Axis::Y, Axis::Z];
const W: usize = 4;
const H: usize = 3;
const D: usize = 2;

fn float(x: f64) -> Float {
    Float::from_bits(x.to_bits()).unwrap()
}

fn rotation(deg: [f64; 3]) -> Mat3 {
    let angles = deg.map(|d| {
        let (s, c) = d.to_radians().sin_cos();
        Angle { sin: float(s), cos: float(c) }
    });
    rotation_matrix(angles, XYZ)
}

fn volume() -> Vec<u8> {
    let mut v = Vec::new();
    for z in 0..D {
        for y in 0..H {
            for x in 0..W {
                v.extend_from_slice(&[(x * 10) as u8, (y * 10) as u8, (z * 10 + 100) as u8]);
            }
        }
    }
    v
}

fn render<F: Frames>(rd: &Renderer, frames: &F, z: usize) -> Vec<u8> {
    let mut out = vec![0u8; rd.out_frame_bytes()];
    rd.render_frame(frames, z, &mut out);
    out
}

fn render_all(deg: [f64; 3], interp: Interp, size: OutputSize) -> (Vec<u8>, [usize; 3]) {
    let pf = PixelFormat::parse("rgb24").unwrap();
    let r = rotation(deg);
    let out_dims = output_dims(&r, [W, H, D], size, false);
    let rd = Renderer::new(&pf, &r, [W, H, D], out_dims, Track::default(), interp, pf.fill("0", false).unwrap());
    let vol = volume();
    let frames = Flat { data: &vol, frame_bytes: W * H * 3 };
    let mut out = Vec::new();
    for z in 0..out_dims[2] {
        out.extend(render(&rd, &frames, z));
    }
    (out, out_dims)
}

fn px(buf: &[u8], dims: [usize; 3], x: usize, y: usize, z: usize) -> [u8; 3] {
    let i = ((z * dims[1] + y) * dims[0] + x) * 3;
    [buf[i], buf[i + 1], buf[i + 2]]
}

#[test]
fn identity_is_exact() {
    for interp in [Interp::Nearest, Interp::Trilinear] {
        let (out, dims) = render_all([0.0, 0.0, 0.0], interp, OutputSize::Fit);
        assert_eq!(dims, [W, H, D]);
        assert_eq!(out, volume(), "{interp:?}");
    }
}

#[test]
fn z90_is_clockwise_on_screen() {
    for interp in [Interp::Nearest, Interp::Trilinear] {
        let (out, dims) = render_all([0.0, 0.0, 90.0], interp, OutputSize::Fit);
        assert_eq!(dims, [H, W, D]);
        let vol = volume();
        for z in 0..D {
            for y in 0..W {
                for x in 0..H {
                    // out(x', y') = in(x = y', y = H-1-x')
                    assert_eq!(px(&out, dims, x, y, z), px(&vol, [W, H, D], y, H - 1 - x, z), "{interp:?}");
                }
            }
        }
    }
}

#[test]
fn x180_flips_height_and_time() {
    for interp in [Interp::Nearest, Interp::Trilinear] {
        let (out, dims) = render_all([180.0, 0.0, 0.0], interp, OutputSize::Fit);
        assert_eq!(dims, [W, H, D]);
        let vol = volume();
        for z in 0..D {
            for y in 0..H {
                for x in 0..W {
                    assert_eq!(px(&out, dims, x, y, z), px(&vol, [W, H, D], x, H - 1 - y, D - 1 - z), "{interp:?}");
                }
            }
        }
    }
}

#[test]
fn x90_turns_time_into_height() {
    let (out, dims) = render_all([90.0, 0.0, 0.0], Interp::Nearest, OutputSize::Fit);
    assert_eq!(dims, [W, D, H]);
    let vol = volume();
    // Rx(90): Y -> +Z, Z -> -Y, so out(x, y', z') = in(x, y = z', z = D-1-y')
    for z in 0..H {
        for y in 0..D {
            for x in 0..W {
                assert_eq!(px(&out, dims, x, y, z), px(&vol, [W, H, D], x, z, D - 1 - y));
            }
        }
    }
}

#[test]
fn fit_rotation_has_black_corners_and_keeps_content() {
    let (out, dims) = render_all([0.0, 0.0, 45.0], Interp::Trilinear, OutputSize::Fit);
    assert_eq!(dims[2], D);
    assert!(dims[0] >= 4 && dims[1] >= 4);
    assert_eq!(px(&out, dims, 0, 0, 0), [0, 0, 0]);
    let nonzero = out.chunks(3).filter(|p| p != &[0, 0, 0]).count();
    assert!(nonzero > 0);
}

#[test]
fn crop_keeps_input_dims() {
    let (_, dims) = render_all([30.0, 40.0, 60.0], Interp::Trilinear, OutputSize::Crop);
    assert_eq!(dims, [W, H, D]);
}

// yuv420p volume 4x4x2: Y = 10x + y + 100z, Cb = 50 + 2x + y + 10z, Cr = 200 - ...
const YW: usize = 4;
const YH: usize = 4;

fn yuv_frame(z: usize) -> Vec<u8> {
    let mut f = Vec::new();
    for y in 0..YH {
        for x in 0..YW {
            f.push((10 * x + y + 100 * z) as u8);
        }
    }
    for y in 0..2 {
        for x in 0..2 {
            f.push((50 + 2 * x + y + 10 * z) as u8);
        }
    }
    for y in 0..2 {
        for x in 0..2 {
            f.push((200 - 5 * x - 3 * y - 10 * z) as u8);
        }
    }
    f
}

fn yuv_render(deg: [f64; 3], interp: Interp) -> (Vec<Vec<u8>>, [usize; 3]) {
    let pf = PixelFormat::parse("yuv420p").unwrap();
    let r = rotation(deg);
    let out_dims = output_dims(&r, [YW, YH, D], OutputSize::Fit, true);
    let rd = Renderer::new(&pf, &r, [YW, YH, D], out_dims, Track::default(), interp, pf.fill("0", false).unwrap());
    let frames: Vec<Vec<u8>> = (0..D).map(yuv_frame).collect();
    let out = (0..out_dims[2]).map(|z| render(&rd, &frames, z)).collect();
    (out, out_dims)
}

#[test]
fn yuv420p_identity_and_flips_are_exact() {
    for interp in [Interp::Nearest, Interp::Trilinear] {
        let (out, dims) = yuv_render([0.0, 0.0, 0.0], interp);
        assert_eq!(dims, [YW, YH, D]);
        assert_eq!(out, (0..D).map(yuv_frame).collect::<Vec<_>>(), "{interp:?}");

        // Ry(180) = hflip + time reversal, on every plane.
        let (out, dims) = yuv_render([0.0, 180.0, 0.0], interp);
        assert_eq!(dims, [YW, YH, D]);
        for z in 0..D {
            let src = yuv_frame(D - 1 - z);
            let (o, s) = (&out[z], &src);
            for y in 0..YH {
                for x in 0..YW {
                    assert_eq!(o[y * YW + x], s[y * YW + (YW - 1 - x)], "{interp:?} luma");
                }
            }
            for y in 0..2 {
                for x in 0..2 {
                    assert_eq!(o[16 + y * 2 + x], s[16 + y * 2 + (1 - x)], "{interp:?} cb");
                    assert_eq!(o[20 + y * 2 + x], s[20 + y * 2 + (1 - x)], "{interp:?} cr");
                }
            }
        }
    }
}

#[test]
fn yuv420p_z90_rotates_chroma_consistently() {
    let (out, dims) = yuv_render([0.0, 0.0, 90.0], Interp::Trilinear);
    assert_eq!(dims, [YH, YW, D]);
    for z in 0..D {
        let s = yuv_frame(z);
        for y in 0..YW {
            for x in 0..YH {
                assert_eq!(out[z][y * YH + x], s[(YH - 1 - x) * YW + y]);
            }
        }
        for y in 0..2 {
            for x in 0..2 {
                assert_eq!(out[z][16 + y * 2 + x], s[16 + (1 - x) * 2 + y]);
            }
        }
    }
}

#[test]
fn planar_rotation_equals_per_frame_rendering() {
    // Ry(180) via the full volume must equal the streaming path: 2D part per frame, reversed order.
    let pf = PixelFormat::parse("yuv420p").unwrap();
    let r = rotation([0.0, 180.0, 0.0]);
    let (full, dims) = yuv_render([0.0, 180.0, 0.0], Interp::Trilinear);
    let r2 = planar_xy(&r);
    let rd = Renderer::new(
        &pf,
        &r2,
        [YW, YH, 1],
        [dims[0], dims[1], 1],
        Track::default(),
        Interp::Trilinear,
        pf.fill("0", false).unwrap(),
    );
    for z in 0..D {
        let src = yuv_frame(D - 1 - z);
        let o = render(&rd, &Flat { data: &src, frame_bytes: src.len() }, 0);
        assert_eq!(o, full[z]);
    }
}

#[test]
fn yuv_fill_is_black_not_green() {
    let pf = PixelFormat::parse("yuv420p").unwrap();
    let r = rotation([0.0, 0.0, 45.0]);
    let out_dims = output_dims(&r, [YW, YH, D], OutputSize::Fit, true);
    let rd = Renderer::new(
        &pf,
        &r,
        [YW, YH, D],
        out_dims,
        Track::default(),
        Interp::Nearest,
        pf.fill("0", false).unwrap(),
    );
    let frames: Vec<Vec<u8>> = (0..D).map(yuv_frame).collect();
    let o = render(&rd, &frames, 0);
    let l = pf.layout(out_dims[0], out_dims[1]);
    assert_eq!(o[0], 16);
    assert_eq!(o[l[1].offset], 128);
    assert_eq!(o[l[2].offset], 128);
}

#[test]
fn any_turn_in_the_plane_can_be_streamed() {
    for (name, deg) in [("yuv420p", [180.0, 0.0, 33.0]), ("rgb24", [0.0, 0.0, 77.7]), ("yuv410p", [0.0, 180.0, 12.0])] {
        let pf = PixelFormat::parse(name).unwrap();
        let (w, h, d) = (9usize, 7usize, 4usize);
        let r = rotation(deg);
        let out = output_dims(&r, [w, h, d], OutputSize::Fit, true);
        let size = pf.frame_bytes(w, h);
        let frames: Vec<Vec<u8>> =
            (0..d).map(|z| (0..size).map(|i| ((i * 37 + z * 91 + i / 5) % 256) as u8).collect()).collect();
        for interp in [Interp::Nearest, Interp::Trilinear] {
            let fill = pf.fill("#203040", false).unwrap();
            let whole = Renderer::new(&pf, &r, [w, h, d], out, Track::default(), interp, fill.clone());
            let one = Renderer::new(
                &pf,
                &planar_xy(&r),
                [w, h, 1],
                [out[0], out[1], 1],
                Track::default(),
                interp,
                fill,
            );
            for z in 0..d {
                let src = if deg[2] == 77.7 { z } else { d - 1 - z };
                let flat = Flat { data: &frames[src], frame_bytes: size };
                assert_eq!(render(&whole, &frames, z), render(&one, &flat, 0), "{name} {interp:?} {z}");
            }
        }
    }
}

#[test]
fn sixteen_bit_frames_turn_exactly() {
    let pf = PixelFormat::parse("gray16le").unwrap();
    let (w, h) = (5usize, 4usize);
    let frame: Vec<u8> = (0..w * h * 2).map(|i| ((i * 71 + 13) % 256) as u8).collect();
    let r = rotation([0.0, 0.0, 90.0]);
    for interp in [Interp::Nearest, Interp::Trilinear] {
        let rd = Renderer::new(&pf, &r, [w, h, 1], [h, w, 1], Track::default(), interp, pf.fill("0", true).unwrap());
        let out = render(&rd, &Flat { data: &frame, frame_bytes: frame.len() }, 0);
        for y in 0..w {
            for x in 0..h {
                let s = ((h - 1 - x) * w + y) * 2;
                let o = (y * h + x) * 2;
                assert_eq!(&out[o..o + 2], &frame[s..s + 2]);
            }
        }
    }
}

/// One pixel of a gray volume, sampled in hardware floating point.
fn sampled(m: &[[f64; 3]; 3], vol: &[Vec<u8>], dims: [usize; 3], out: [usize; 3], at: [usize; 3]) -> u8 {
    let mut p = [0.0f64; 3];
    for (i, v) in p.iter_mut().enumerate() {
        *v = at[i] as f64 + 0.5 - out[i] as f64 / 2.0;
    }
    let mut q = [0.0f64; 3];
    for (j, v) in q.iter_mut().enumerate() {
        *v = m[0][j] * p[0] + m[1][j] * p[1] + m[2][j] * p[2] + dims[j] as f64 / 2.0 - 0.5;
    }
    let base = q.map(|v| v.floor());
    let mut sum = 0.0;
    for k in 0..8 {
        let mut weight = 1.0;
        let mut c = [0i64; 3];
        for j in 0..3 {
            let t = q[j] - base[j];
            let up = (k >> j) & 1;
            weight *= if up == 1 { t } else { 1.0 - t };
            c[j] = base[j] as i64 + up as i64;
        }
        if (0..3).all(|j| c[j] >= 0 && (c[j] as usize) < dims[j]) {
            sum += weight * vol[c[2] as usize][c[1] as usize * dims[0] + c[0] as usize] as f64;
        }
    }
    (sum + 0.5).floor().clamp(0.0, 255.0) as u8
}

#[test]
fn tilted_volumes_are_sampled_as_in_doubles() {
    let pf = PixelFormat::parse("gray").unwrap();
    let dims = [6usize, 5, 4];
    let vol: Vec<Vec<u8>> =
        (0..dims[2]).map(|z| (0..30).map(|i| ((i * 53 + z * 29) % 256) as u8).collect()).collect();
    let r = rotation([30.0, 40.0, 60.0]);
    let m = r.map(|row| row.map(|v| f64::from_bits(v.to_bits())));
    let out = output_dims(&r, dims, OutputSize::Fit, false);
    let rd = Renderer::new(&pf, &r, dims, out, Track::default(), Interp::Trilinear, pf.fill("0", true).unwrap());
    for z in 0..out[2] {
        let f = render(&rd, &vol, z);
        for y in 0..out[1] {
            for x in 0..out[0] {
                let want = sampled(&m, &vol, dims, out, [x, y, z]) as i32;
                let got = f[y * out[0] + x] as i32;
                assert!((want - got).abs() <= 1, "{x} {y} {z}: {got} vs {want}");
            }
        }
    }
}

#[test]
fn rows_make_the_frame() {
    let pf = PixelFormat::parse("yuv422p").unwrap();
    let r = rotation([10.0, 0.0, 20.0]);
    let dims = [8usize, 6, 3];
    let (out, track) = tracked_output(&r, dims, OutputSize::Fit, true);
    let size = pf.frame_bytes(8, 6);
    let vol: Vec<Vec<u8>> = (0..3).map(|z| (0..size).map(|i| (i * 7 + z) as u8).collect()).collect();
    let rd = Renderer::new(&pf, &r, dims, out, track, Interp::Trilinear, pf.fill("0", false).unwrap());
    for z in 0..out[2] {
        let mut rows = Vec::new();
        for (p, reg) in rd.regions().iter().enumerate() {
            for y in 0..reg.h {
                rows.extend(rd.render_row(&vol, p, y, z));
            }
        }
        assert_eq!(rows, render(&rd, &vol, z));
    }
}

#[test]
fn longer_volumes_are_read_as_far_as_needed() {
    let pf = PixelFormat::parse("rgb24").unwrap();
    let r = rotation([0.0, 0.0, 0.0]);
    let rd = Renderer::new(&pf, &r, [W, H, D], [W, H, D], Track::default(), Interp::Trilinear, pf.fill("0", false).unwrap());
    let n = W * H * 3;
    let mut frames: Vec<Vec<u8>> = volume().chunks(n).map(|f| [f, &[1u8, 2, 3][..]].concat()).collect();
    frames.push(vec![9; n]);
    for z in 0..D {
        assert_eq!(render(&rd, &frames, z), volume()[z * n..(z + 1) * n]);
    }
}

#[test]
fn blends_stay_between_their_voxels() {
    let pf = PixelFormat::parse("gray16le").unwrap();
    let r = rotation([20.0, 35.0, 50.0]);
    let dims = output_dims(&r, [5, 4, 3], OutputSize::Fit, false);
    let fill = vec![vec![0x39u8, 0x30]];
    let rd = Renderer::new(&pf, &r, [5, 4, 3], dims, Track::default(), Interp::Trilinear, fill);
    let even: Vec<Vec<u8>> = vec![[0x39u8, 0x30].repeat(20); 3];
    let mixed: Vec<Vec<u8>> = (0..3usize)
        .map(|z| (0..20usize).flat_map(|i| [(i * 37 + z * 11) as u8, 0x2f + (i % 3) as u8]).collect())
        .collect();
    let mut seen = 0;
    for z in 0..dims[2] {
        assert_eq!(render(&rd, &even, z), [0x39u8, 0x30].repeat(dims[0] * dims[1]));
        for s in render(&rd, &mixed, z).chunks(2) {
            let v = u16::from_le_bytes([s[0], s[1]]);
            assert!((0x2f00..=0x31ff).contains(&v));
            seen += (v != 0x3039) as usize;
        }
    }
    assert!(seen > 20);
}
