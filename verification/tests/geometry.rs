use rotatevideo::binary64::Float;
use rotatevideo::decimals::Real;
use rotatevideo::geometry::{
    axis_matrix, checked_output_dims, depth_kept, fit_dims, fmt_mat, is_planar, mat_mul, mat_vec, output_dims, parse_order,
    parse_output_size, planar_xy, rotation_matrix, time_reversed, transpose, Angle, Axis, Mat3,
    OutputSize,
};
use rotatevideo::mapping::Geometry;
use rotatevideo::track::{slice_bbox, tracked_output, Track};

const XYZ: [Axis; 3] = [Axis::X, Axis::Y, Axis::Z];

fn float(x: f64) -> Float {
    Float::from_bits(x.to_bits()).unwrap()
}

fn double(x: Float) -> f64 {
    f64::from_bits(x.to_bits())
}

fn vector(v: [f64; 3]) -> [Float; 3] {
    v.map(float)
}

fn as_double(x: Real) -> f64 {
    match x {
        Real::Finite(f) => double(f),
        Real::Infinite(neg) => if neg { f64::NEG_INFINITY } else { f64::INFINITY },
        Real::Undefined => f64::NAN,
    }
}

fn doubles(v: [Float; 3]) -> [f64; 3] {
    v.map(double)
}

fn matrix(m: &Mat3) -> [[f64; 3]; 3] {
    m.map(doubles)
}

fn angle(deg: f64) -> Angle {
    let (s, c) = deg.to_radians().sin_cos();
    Angle { sin: float(s), cos: float(c) }
}

fn rotation(deg: [f64; 3], order: [Axis; 3]) -> Mat3 {
    rotation_matrix(deg.map(angle), order)
}

fn apply(m: &Mat3, v: [f64; 3]) -> [f64; 3] {
    mat_vec(m, vector(v)).map(as_double)
}

fn map(g: &Geometry, x: f64, y: f64, z: f64) -> [f64; 3] {
    doubles(g.map(float(x), float(y), float(z)))
}

fn approx(a: [f64; 3], b: [f64; 3]) -> bool {
    a.iter().zip(b.iter()).all(|(x, y)| (x - y).abs() < 1e-9)
}

#[test]
fn identity() {
    let r = rotation([0.0, 0.0, 0.0], XYZ);
    assert!(approx(apply(&r, [1.0, 2.0, 3.0]), [1.0, 2.0, 3.0]));
    assert_eq!(fit_dims(&r, [1920, 1080, 3600]), [1920, 1080, 3600]);
    assert!(!time_reversed(&r));
}

#[test]
fn x90_swaps_height_and_time() {
    let r = rotation([90.0, 0.0, 0.0], XYZ);
    assert!(approx(apply(&r, [0.0, 1.0, 0.0]), [0.0, 0.0, 1.0]));
    assert_eq!(fit_dims(&r, [1920, 1080, 3600]), [1920, 3600, 1080]);
    assert!(!time_reversed(&r));
}

#[test]
fn y90_swaps_width_and_time() {
    let r = rotation([0.0, 90.0, 0.0], XYZ);
    assert_eq!(fit_dims(&r, [1920, 1080, 3600]), [3600, 1080, 1920]);
}

#[test]
fn z90_swaps_width_and_height() {
    let r = rotation([0.0, 0.0, 90.0], XYZ);
    assert!(approx(apply(&r, [1.0, 0.0, 0.0]), [0.0, 1.0, 0.0]));
    assert_eq!(fit_dims(&r, [1920, 1080, 3600]), [1080, 1920, 3600]);
}

#[test]
fn x180_reverses_time() {
    assert!(time_reversed(&rotation([180.0, 0.0, 0.0], XYZ)));
    assert!(time_reversed(&rotation([0.0, 180.0, 0.0], XYZ)));
    assert!(!time_reversed(&rotation([0.0, 0.0, 180.0], XYZ)));
    assert!(time_reversed(&rotation([100.0, 0.0, 0.0], XYZ)));
    assert!(!time_reversed(&rotation([80.0, 0.0, 0.0], XYZ)));
}

#[test]
fn order_matters() {
    let a = rotation([90.0, 90.0, 0.0], XYZ);
    let b = rotation([90.0, 90.0, 0.0], parse_order("yxz").unwrap());
    assert!(!approx(apply(&a, [1.0, 2.0, 3.0]), apply(&b, [1.0, 2.0, 3.0])));
    assert!(parse_order("xxz").is_err());
    assert!(parse_order("xy").is_err());
}

#[test]
fn inverse_roundtrip() {
    let r = rotation([30.0, 40.0, 60.0], XYZ);
    let g = Geometry::new(r, [10, 20, 30], [10, 20, 30]);
    let v = [1.0, 2.0, 3.0];
    let back = apply(&g.inv, apply(&r, v));
    assert!(approx(back, v));
    assert!(approx(map(&g, 4.5, 9.5, 14.5), [5.0, 10.0, 15.0]));
}

#[test]
fn output_sizes() {
    let r = rotation([0.0, 0.0, 90.0], XYZ);
    assert_eq!(output_dims(&r, [11, 5, 7], OutputSize::Fit, false), [5, 11, 7]);
    assert_eq!(output_dims(&r, [11, 5, 7], OutputSize::Fit, true), [6, 12, 7]);
    assert_eq!(output_dims(&r, [11, 5, 7], OutputSize::Crop, false), [11, 5, 7]);
    let c = parse_output_size("100x-1x0").unwrap();
    assert_eq!(output_dims(&r, [11, 5, 7], c, false), [100, 5, 7]);
    assert!(depth_kept(c));
    assert!(depth_kept(OutputSize::Fit));
    assert!(!depth_kept(parse_output_size("0x0x50").unwrap()));
    assert!(parse_output_size("10x10").is_err());
    assert!(parse_output_size("axbxc").is_err());
    assert_eq!(parse_output_size("crop").unwrap(), OutputSize::Crop);
}

#[test]
fn snapping_and_planar() {
    let r = rotation([0.0, 180.0, 0.0], XYZ);
    assert_eq!(matrix(&r), [[-1.0, 0.0, 0.0], [0.0, 1.0, 0.0], [0.0, 0.0, -1.0]]);
    assert!(is_planar(&r));
    assert_eq!(matrix(&planar_xy(&r)), [[-1.0, 0.0, 0.0], [0.0, 1.0, 0.0], [0.0, 0.0, 1.0]]);
    assert!(is_planar(&rotation([0.0, 0.0, 33.0], XYZ)));
    assert!(is_planar(&rotation([180.0, 0.0, 45.0], XYZ)));
    assert!(!is_planar(&rotation([90.0, 0.0, 0.0], XYZ)));
    assert!(!is_planar(&rotation([1.0, 0.0, 0.0], XYZ)));
    let z90 = rotation([0.0, 0.0, 90.0], XYZ);
    assert_eq!(matrix(&z90), [[0.0, -1.0, 0.0], [1.0, 0.0, 0.0], [0.0, 0.0, 1.0]]);
}

#[test]
fn subsampled_plane_geometry() {
    let r = rotation([0.0, 0.0, 90.0], XYZ);
    let luma = Geometry::new(r, [8, 6, 2], [6, 8, 2]);
    let chroma = Geometry::plane(&r, [8, 6, 2], [6, 8, 2], Track::default(), 1, 1);
    assert_eq!(chroma.in_dims, [4, 3, 2]);
    assert_eq!(chroma.out_dims, [3, 4, 2]);
    for (x, y, z) in [(0usize, 0usize, 0usize), (2, 3, 1), (1, 2, 0)] {
        let q = map(&luma, 2.0 * x as f64 + 0.5, 2.0 * y as f64 + 0.5, z as f64);
        let c = map(&chroma, x as f64, y as f64, z as f64);
        assert!(approx(c, [q[0] / 2.0, q[1] / 2.0, q[2]]), "{c:?} vs {q:?}");
    }
    let odd = Geometry::plane(&r, [5, 3, 1], [3, 5, 1], Track::default(), 1, 1);
    assert_eq!(odd.in_dims, [3, 2, 1]);
    assert!(approx(doubles(odd.in_center), [1.25, 0.75, 0.5]));
}

/// True when every output voxel that maps inside the input lies inside the tracked window.
fn window_contains_content(r: &Mat3, in_dims: [usize; 3], out: [usize; 3], track: Track) -> bool {
    let full = fit_dims(r, in_dims);
    let g = Geometry::plane(r, in_dims, full, Track::default(), 0, 0);
    let w = Geometry::plane(r, in_dims, out, track, 0, 0);
    let inside = |p: [f64; 3]| (0..3).all(|i| p[i] >= 0.0 && p[i] <= in_dims[i] as f64);
    for z in 0..full[2] {
        let c = track.center(float(z as f64)).map(double);
        let (ox, oy) = (
            full[0] as f64 / 2.0 - out[0] as f64 / 2.0 + c[0],
            full[1] as f64 / 2.0 - out[1] as f64 / 2.0 + c[1],
        );
        for y in 0..full[1] {
            for x in 0..full[0] {
                let p = map(&g, x as f64, y as f64, z as f64);
                if !inside(p) {
                    continue;
                }
                let (wx, wy) = (x as f64 - ox, y as f64 - oy);
                if wx < -0.5 || wy < -0.5 || wx > out[0] as f64 - 0.5 || wy > out[1] as f64 - 0.5 {
                    return false;
                }
                if !approx(map(&w, wx, wy, z as f64), p) {
                    return false;
                }
            }
        }
    }
    true
}

#[test]
fn tracked_identity_and_planar_equal_fit() {
    for deg in [[0.0, 0.0, 0.0], [0.0, 0.0, 90.0], [180.0, 0.0, 30.0]] {
        let r = rotation(deg, XYZ);
        let (out, track) = tracked_output(&r, [16, 10, 6], OutputSize::Fit, false);
        assert_eq!(out, output_dims(&r, [16, 10, 6], OutputSize::Fit, false), "{deg:?}");
        assert_eq!(track.pos.map(double), [0.0, 0.0], "{deg:?}");
        assert_eq!(track.vel.map(double), [0.0, 0.0], "{deg:?}");
        assert_eq!(double(track.zc), out[2] as f64 / 2.0, "{deg:?}");
    }
}

#[test]
fn tracked_corridor_shrinks_and_moves() {
    let r = rotation([10.0, 0.0, 0.0], XYZ);
    let dims = [4, 6, 60];
    let full = output_dims(&r, dims, OutputSize::Fit, false);
    let (out, track) = tracked_output(&r, dims, OutputSize::Fit, false);
    assert_eq!(out[0], full[0]);
    assert_eq!(out[2], full[2]);
    assert!(out[1] < full[1], "{out:?} vs {full:?}");
    assert!(out[1] <= 8, "{out:?}");
    assert_eq!(double(track.vel[0]), 0.0);
    assert!((double(track.vel[1]).abs() - (10f64).to_radians().tan()).abs() < 0.02, "{track:?}");
    assert!(window_contains_content(&r, dims, out, track));
    let (even, _) = tracked_output(&r, dims, OutputSize::Fit, true);
    assert_eq!(even[1] % 2, 0);
}

#[test]
fn tracked_symmetric_cube_is_static_fit() {
    let r = rotation([45.0, 0.0, 0.0], XYZ);
    let dims = [8, 8, 8];
    let (out, track) = tracked_output(&r, dims, OutputSize::Fit, false);
    let full = output_dims(&r, dims, OutputSize::Fit, false);
    assert_eq!([out[0], out[2]], [full[0], full[2]]);
    assert!(out[1] + 1 >= full[1] && out[1] <= full[1], "{out:?} vs {full:?}");
    assert!(track.is_static());
    assert_eq!(track.pos.map(double), [0.0, 0.0]);
    assert!(window_contains_content(&r, dims, out, track));
    let r = rotation([30.0, 40.0, 60.0], XYZ);
    let (out, track) = tracked_output(&r, [7, 9, 11], OutputSize::Fit, false);
    assert!(window_contains_content(&r, [7, 9, 11], out, track));
}

#[test]
fn tracked_short_volume_follows_axis() {
    let r = rotation([10.0, -5.0, 0.0], XYZ);
    let dims = [160, 90, 60];
    let full = output_dims(&r, dims, OutputSize::Fit, true);
    let (out, track) = tracked_output(&r, dims, OutputSize::Fit, true);
    assert!(out[1] < full[1], "{out:?} vs {full:?}");
    assert!(out[1] <= 94, "{out:?}");
    let m = matrix(&r);
    assert!((double(track.vel[1]) - m[1][2] / m[2][2]).abs() < 1e-9, "{track:?}");
    assert!(window_contains_content(&r, dims, out, track));
}

#[test]
fn tracked_respects_output_spec() {
    let r = rotation([10.0, 0.0, 0.0], XYZ);
    let dims = [4, 6, 60];
    assert_eq!(tracked_output(&r, dims, OutputSize::Crop, false).0, dims);
    let c = parse_output_size("0x20x0").unwrap();
    let (out, _) = tracked_output(&r, dims, c, false);
    assert_eq!(out[1], 20);
    assert_eq!(out[0], tracked_output(&r, dims, OutputSize::Fit, false).0[0]);
}

#[test]
fn tracked_plane_scales_offsets() {
    let r = rotation([10.0, 0.0, 0.0], XYZ);
    let dims = [8, 6, 40];
    let (out, track) = tracked_output(&r, dims, OutputSize::Fit, true);
    let luma = Geometry::plane(&r, dims, out, track, 0, 0);
    let chroma = Geometry::plane(&r, dims, out, track, 1, 1);
    for (x, y, z) in [(0usize, 0usize, 0usize), (1, 1, 7), (2, 1, 30)] {
        let q = map(&luma, 2.0 * x as f64 + 0.5, 2.0 * y as f64 + 0.5, z as f64);
        let c = map(&chroma, x as f64, y as f64, z as f64);
        assert!(approx(c, [q[0] / 2.0, q[1] / 2.0, q[2]]), "{c:?} vs {q:?}");
    }
}

/// The rotation as doubles: R = Rz Ry Rx, each around its own axis.
fn reference(deg: [f64; 3]) -> [[f64; 3]; 3] {
    let mut m = [[1.0, 0.0, 0.0], [0.0, 1.0, 0.0], [0.0, 0.0, 1.0]];
    for (k, d) in deg.iter().enumerate() {
        let (s, c) = d.to_radians().sin_cos();
        let a = match k {
            0 => [[1.0, 0.0, 0.0], [0.0, c, -s], [0.0, s, c]],
            1 => [[c, 0.0, s], [0.0, 1.0, 0.0], [-s, 0.0, c]],
            _ => [[c, -s, 0.0], [s, c, 0.0], [0.0, 0.0, 1.0]],
        };
        let mut n = [[0.0; 3]; 3];
        for i in 0..3 {
            for j in 0..3 {
                n[i][j] = a[i][0] * m[0][j] + a[i][1] * m[1][j] + a[i][2] * m[2][j];
            }
        }
        m = n;
    }
    for row in m.iter_mut() {
        for v in row.iter_mut() {
            for t in [0.0, 1.0, -1.0] {
                if (*v - t).abs() < 1e-12 {
                    *v = t;
                }
            }
        }
    }
    m
}

#[test]
fn matrices_are_those_of_double_arithmetic() {
    for deg in [[30.0, 40.0, 60.0], [0.1, 359.0, -77.5], [90.0, 45.0, 180.0], [1e-5, 720.25, 3.0]] {
        assert_eq!(matrix(&rotation(deg, XYZ)), reference(deg), "{deg:?}");
    }
}

#[test]
fn box_sides_are_those_of_double_arithmetic() {
    for deg in [[30.0, 40.0, 60.0], [45.0, 0.0, 0.0], [0.1, 359.0, -77.5], [10.0, -5.0, 0.0]] {
        let m = reference(deg);
        for dims in [[1920usize, 1080, 3600], [3, 5, 7], [1, 1, 1], [640, 480, 10]] {
            let mut want = [0usize; 3];
            for i in 0..3 {
                let e: f64 = (0..3).map(|j| m[i][j].abs() * dims[j] as f64).sum();
                want[i] = ((e - 1e-6).ceil() as usize).max(1);
            }
            assert_eq!(fit_dims(&rotation(deg, XYZ), dims), want, "{deg:?} {dims:?}");
        }
    }
}

#[test]
fn transposing_a_rotation_inverts_it() {
    let r = rotation([12.0, 34.0, 56.0], XYZ);
    let v = apply(&transpose(&r), apply(&r, [3.0, -4.0, 5.0]));
    assert!(approx(v, [3.0, -4.0, 5.0]));
}

#[test]
fn matrices_in_text() {
    let r = rotation([0.0, 0.0, 90.0], XYZ);
    assert_eq!(fmt_mat(&r), "[+0.0000 -1.0000 +0.0000] [+1.0000 +0.0000 +0.0000] [+0.0000 +0.0000 +1.0000]");
    let r = rotation([0.0, 0.0, 30.0], XYZ);
    let still = axis_matrix(Axis::Z, angle(0.0));
    assert_eq!(fmt_mat(&still), "[+1.0000 -0.0000 +0.0000] [+0.0000 +1.0000 +0.0000] [+0.0000 +0.0000 +1.0000]");
    assert_eq!(fmt_mat(&r), "[+0.8660 -0.5000 +0.0000] [+0.5000 +0.8660 +0.0000] [+0.0000 +0.0000 +1.0000]");
}

#[test]
fn sides_that_no_number_counts_are_refused() {
    let r = rotation([0.0, 0.0, 0.0], XYZ);
    assert_eq!(checked_output_dims(&r, [usize::MAX, 2, 2], OutputSize::Crop, true), None);
    assert_eq!(checked_output_dims(&r, [7, 2, 2], OutputSize::Crop, true), Some([8, 2, 2]));
}

#[test]
fn slices_of_a_cube() {
    let r = rotation([0.0, 0.0, 0.0], XYZ);
    let b = slice_bbox(&r, [4, 6, 8], float(0.5)).unwrap().map(double);
    assert_eq!(b, [-2.0, 2.0, -3.0, 3.0]);
    assert!(slice_bbox(&r, [4, 6, 8], float(4.5)).is_none());
}

#[test]
fn subsampled_planes_sample_the_same_places() {
    for deg in [[0.0, 0.0, 0.0], [0.0, 0.0, 90.0], [30.0, 40.0, 60.0], [12.5, -77.0, 251.0]] {
        let r = rotation(deg, XYZ);
        let (dims, out) = ([640, 360, 90], [512, 288, 100]);
        let luma = Geometry::new(r, dims, out);
        for (sx, sy) in [(0u8, 1u8), (1, 0), (1, 1), (2, 2), (2, 0)] {
            let plane = Geometry::plane(&r, dims, out, Track::default(), sx, sy);
            let (kx, ky) = ((1 << sx) as f64, (1 << sy) as f64);
            for (x, y, z) in [(0.0, 0.0, 0.0), (17.0, 40.0, 3.0), (100.0, 2.0, 77.0)] {
                let p = map(&plane, x, y, z);
                let q = map(&luma, kx * (x + 0.5) - 0.5, ky * (y + 0.5) - 0.5, z);
                assert_eq!(p, [q[0] / kx, q[1] / ky, q[2]], "{deg:?} {sx} {sy}");
            }
        }
    }
}

#[test]
fn rotations_are_orthonormal() {
    for order in ["xyz", "zyx", "yxz"] {
        for deg in [[30.0, 40.0, 60.0], [1e-6, 89.999999, -45.0], [123.0, 200.0, 359.0]] {
            let m = matrix(&rotation(deg, parse_order(order).unwrap()));
            for i in 0..3 {
                for j in 0..3 {
                    let dot: f64 = (0..3).map(|k| m[i][k] * m[j][k]).sum();
                    let want = if i == j { 1.0 } else { 0.0 };
                    assert!((dot - want).abs() < 1e-9, "{order} {deg:?}");
                }
            }
        }
    }
}

#[test]
fn slices_lie_within_the_box_and_mirror_each_other() {
    let dims = [64, 48, 30];
    for deg in [[30.0, 40.0, 60.0], [0.0, 45.0, 0.0], [90.0, 0.0, 10.0], [5.0, 85.0, -20.0]] {
        let r = rotation(deg, XYZ);
        let m = matrix(&r);
        let half: Vec<f64> = (0..3).map(|i| (0..3).map(|k| m[i][k].abs() * dims[k] as f64).sum::<f64>() / 2.0).collect();
        for step in 0..20 {
            let z = half[2] * step as f64 / 20.0;
            let b = slice_bbox(&r, dims, float(z)).unwrap().map(double);
            let o = slice_bbox(&r, dims, float(-z)).unwrap().map(double);
            for k in 0..2 {
                assert!(b[2 * k] <= b[2 * k + 1]);
                assert!(b[2 * k] >= -half[k] - 1e-9 && b[2 * k + 1] <= half[k] + 1e-9, "{deg:?} {z}");
                assert!((b[2 * k] + o[2 * k + 1]).abs() < 1e-9, "{deg:?} {z}");
            }
        }
        assert!(slice_bbox(&r, dims, float(half[2] + 1.0)).is_none());
        assert!(slice_bbox(&r, dims, float(-half[2] - 1.0)).is_none());
    }
}

#[test]
fn tracked_windows_hold_every_slice() {
    let dims = [40, 24, 120];
    for deg in [[0.0, 40.0, 0.0], [30.0, 40.0, 60.0], [70.0, 10.0, 5.0]] {
        let r = rotation(deg, XYZ);
        let fit = fit_dims(&r, dims);
        let (out, track) = tracked_output(&r, dims, OutputSize::Fit, false);
        assert!(out[0] <= fit[0] && out[1] <= fit[1] && out[2] == fit[2]);
        for z in 0..out[2] {
            let q = z as f64 + 0.5 - out[2] as f64 / 2.0;
            let Some(b) = slice_bbox(&r, dims, float(q)) else { continue };
            let b = b.map(double);
            let c = track.center(float(z as f64)).map(double);
            for k in 0..2 {
                let w = out[k] as f64 / 2.0;
                assert!(b[2 * k] >= c[k] - w - 1e-4 && b[2 * k + 1] <= c[k] + w + 1e-4, "{deg:?} {z}");
            }
        }
    }
}

#[test]
fn right_angles_turn_exactly() {
    for n in 0..64 {
        let turns = [n % 4, n / 4 % 4, n / 16].map(|k: i32| k - 1);
        let m = matrix(&rotation(turns.map(|k| 90.0 * k as f64), XYZ));
        for row in m {
            assert_eq!(row.iter().filter(|v| v.abs() == 1.0).count(), 1, "{turns:?}");
            assert_eq!(row.iter().filter(|v| **v == 0.0).count(), 2, "{turns:?}");
        }
    }
}

#[test]
fn straight_angles_keep_time() {
    for (x, y) in [(0.0, 0.0), (180.0, 0.0), (0.0, -180.0), (180.0, 180.0), (360.0, 540.0)] {
        for z in [0.0, 17.25, 90.0, -133.0] {
            let r = rotation([x, y, z], XYZ);
            let back = (x / 180.0 + y / 180.0) % 2.0 != 0.0;
            assert!(is_planar(&r), "{x} {y} {z}");
            assert_eq!(time_reversed(&r), back, "{x} {y} {z}");
        }
    }
}

#[test]
fn products_of_matrices() {
    let a = rotation([0.0, 0.0, 90.0], XYZ);
    let b = rotation([90.0, 0.0, 0.0], XYZ);
    let both = rotation([90.0, 0.0, 90.0], XYZ);
    assert_eq!(mat_mul(&a, &b).map(|r| r.map(as_double)), matrix(&both));
    assert_ne!(mat_mul(&b, &a).map(|r| r.map(as_double)), matrix(&both));
    for x in [1e200, -1e300, 1e-200, -0.0, 3.0] {
        for y in [1e160, -1e10, -1e-200, 0.0, 7.0] {
            let m = [[x, y, -x], [0.0, x, x], [y, -y, 1.0]];
            let n = [[y, x, 0.5], [x, -y, -0.0], [-y, 2.0, x]];
            let got = mat_mul(&m.map(vector), &n.map(vector)).map(|r| r.map(as_double));
            for i in 0..3 {
                for j in 0..3 {
                    let want = m[i][0] * n[0][j] + m[i][1] * n[1][j] + m[i][2] * n[2][j];
                    assert!(got[i][j].to_bits() == want.to_bits() || (got[i][j].is_nan() && want.is_nan()));
                }
            }
        }
    }
}

#[test]
fn slices_at_any_depth() {
    let dims = [64, 48, 30];
    for deg in [[0.0, 0.0, 0.0], [30.0, 40.0, 60.0], [0.0, 45.0, 0.0]] {
        let r = rotation(deg, XYZ);
        for z in [1e-300, -1e-300, 5e-324, 1.0 / 3.0, 1e-160, 14.999999999999998] {
            let b = slice_bbox(&r, dims, float(z)).unwrap().map(double);
            let o = slice_bbox(&r, dims, float(-z)).unwrap().map(double);
            for k in 0..2 {
                assert!(b[2 * k] <= b[2 * k + 1] && (b[2 * k] + o[2 * k + 1]).abs() < 1e-9, "{deg:?} {z}");
            }
        }
    }
}

#[test]
fn planes_agree_at_any_place() {
    let r = rotation([30.0, 40.0, 60.0], XYZ);
    let (dims, out) = ([640, 360, 90], [512, 288, 100]);
    let track = Track { pos: vector([1e-310, 3.3, 0.0])[..2].try_into().unwrap(), vel: [float(0.1), float(-1e-300)], zc: float(50.0) };
    let luma = Geometry::plane(&r, dims, out, track, 0, 0);
    let plane = Geometry::plane(&r, dims, out, track, 1, 2);
    for (x, y, z) in [(1e-300, 1.0 / 3.0, 0.0), (17.1, -1e-310, 3.7), (100.0, 2.0, 77.0)] {
        let p = map(&plane, x, y, z);
        let q = map(&luma, 2.0 * x + 0.5, 4.0 * y + 1.5, z);
        assert!(approx(p, [q[0] / 2.0, q[1] / 4.0, q[2]]), "{p:?} {q:?}");
    }
}
