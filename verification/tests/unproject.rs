use fishsense_laz::decode::{Confidence, Intrinsics};
use fishsense_laz::double::{Double, Single};
use fishsense_laz::unproject::{unproject, UnprojectParams};

fn double(x: f64) -> Double {
    Double { bits: x.to_bits() }
}

fn number(x: Double) -> f64 {
    f64::from_bits(x.bits)
}

fn singles(xs: &[f32]) -> Vec<Single> {
    xs.iter().map(|x| Single { bits: x.to_bits() }).collect()
}

fn matrix(fx: f64, fy: f64, cx: f64, cy: f64) -> Intrinsics {
    Intrinsics { fx: double(fx), fy: double(fy), cx: double(cx), cy: double(cy) }
}

fn solid_rgb(w: u32, h: u32, color: [u8; 3]) -> Vec<u8> {
    let mut v = Vec::with_capacity((w as usize) * (h as usize) * 3);
    for _ in 0..(w * h) {
        v.extend_from_slice(&color);
    }
    v
}

#[test]
fn flat_plane_at_constant_depth_unprojects_to_a_grid() {
    // 4x4 depth, all z = 2.0, with the matrix at the same resolution.
    let dw = 4u32;
    let dh = 4u32;
    let intr = matrix(4.0, 4.0, 2.0, 2.0);
    let depth = singles(&vec![2.0_f32; (dw * dh) as usize]);
    let rgb = solid_rgb(dw, dh, [128, 64, 32]);
    let params = UnprojectParams {
        rgb_width: dw,
        rgb_height: dh,
        depth_width: dw,
        depth_height: dh,
        min_confidence: Confidence::High,
    };
    let pts = unproject(&rgb, &depth, None, &intr, &params);
    assert_eq!(pts.len(), 16);

    // Pixel (u=0, v=0): center (0.5, 0.5).
    // x = (0.5 - 2) * 2 / 4 = -0.75; y = -0.75; z = 2.0
    let p0 = pts[0];
    assert!((number(p0.x) - -0.75).abs() < 1e-9);
    assert!((number(p0.y) - -0.75).abs() < 1e-9);
    assert!((number(p0.z) - 2.0).abs() < 1e-9);
    assert_eq!((p0.r, p0.g, p0.b), (128, 64, 32));

    // Pixel (u=3, v=3): center (3.5, 3.5).
    // x = (3.5 - 2) * 2 / 4 = 0.75; y = 0.75
    let p_last = pts.last().unwrap();
    assert!((number(p_last.x) - 0.75).abs() < 1e-9);
    assert!((number(p_last.y) - 0.75).abs() < 1e-9);
}

#[test]
fn nan_and_nonpositive_depth_are_skipped() {
    let dw = 2u32;
    let dh = 2u32;
    let depth = singles(&[1.0_f32, f32::NAN, -1.0, 0.0]);
    let rgb = solid_rgb(dw, dh, [255, 255, 255]);
    let intr = matrix(1.0, 1.0, 1.0, 1.0);
    let params = UnprojectParams {
        rgb_width: dw,
        rgb_height: dh,
        depth_width: dw,
        depth_height: dh,
        min_confidence: Confidence::High,
    };
    let pts = unproject(&rgb, &depth, None, &intr, &params);
    assert_eq!(pts.len(), 1);
}

#[test]
fn confidence_threshold_filters() {
    let dw = 2u32;
    let dh = 2u32;
    let depth = singles(&[1.0_f32; 4]);
    let rgb = solid_rgb(dw, dh, [10, 20, 30]);
    let conf = vec![
        Confidence::Low,
        Confidence::Medium,
        Confidence::High,
        Confidence::Medium,
    ];
    let intr = matrix(1.0, 1.0, 1.0, 1.0);
    let params = UnprojectParams {
        rgb_width: dw,
        rgb_height: dh,
        depth_width: dw,
        depth_height: dh,
        min_confidence: Confidence::Medium,
    };
    let pts = unproject(&rgb, &depth, Some(&conf), &intr, &params);
    // Three of the four samples are >= Medium.
    assert_eq!(pts.len(), 3);
}

#[test]
fn rgb_at_higher_resolution_samples_correctly() {
    // Depth 2x2, RGB 4x4 in four blocks of one colour each.
    let dw = 2u32;
    let dh = 2u32;
    let rw = 4u32;
    let rh = 4u32;
    // RGB rows: TL red, TR green, BL blue, BR white in 2x2 blocks.
    let mut rgb = vec![0u8; (rw * rh * 3) as usize];
    for ry in 0..rh {
        for rx in 0..rw {
            let block_x = rx / 2;
            let block_y = ry / 2;
            let color = match (block_x, block_y) {
                (0, 0) => [255, 0, 0],
                (1, 0) => [0, 255, 0],
                (0, 1) => [0, 0, 255],
                _ => [255, 255, 255],
            };
            let i = ((ry * rw + rx) * 3) as usize;
            rgb[i..i + 3].copy_from_slice(&color);
        }
    }
    let depth = singles(&[1.0_f32; 4]);
    let intr = matrix(4.0, 4.0, 2.0, 2.0);
    let params = UnprojectParams {
        rgb_width: rw,
        rgb_height: rh,
        depth_width: dw,
        depth_height: dh,
        min_confidence: Confidence::High,
    };
    let pts = unproject(&rgb, &depth, None, &intr, &params);
    assert_eq!(pts.len(), 4);
    assert_eq!((pts[0].r, pts[0].g, pts[0].b), (255, 0, 0));
    assert_eq!((pts[1].r, pts[1].g, pts[1].b), (0, 255, 0));
    assert_eq!((pts[2].r, pts[2].g, pts[2].b), (0, 0, 255));
    assert_eq!((pts[3].r, pts[3].g, pts[3].b), (255, 255, 255));
}

/// Compares a whole cloud with the formulas in machine doubles.
fn compare_with_doubles(rw: u32, rh: u32, dw: u32, dh: u32, k: [f64; 4]) {
    let depth: Vec<f32> = (0..dw * dh).map(|i| 0.25 + 0.013 * i as f32).collect();
    let rgb: Vec<u8> = (0..rw * rh * 3).map(|i| (i * 7 + i / 251) as u8).collect();
    let params = UnprojectParams {
        rgb_width: rw,
        rgb_height: rh,
        depth_width: dw,
        depth_height: dh,
        min_confidence: Confidence::Low,
    };
    let intr = matrix(k[0], k[1], k[2], k[3]);
    let pts = unproject(&rgb, &singles(&depth), None, &intr, &params);
    let (sx, sy) = (f64::from(dw) / f64::from(rw), f64::from(dh) / f64::from(rh));
    let (fx, fy, cx, cy) = (k[0] * sx, k[1] * sy, k[2] * sx, k[3] * sy);
    let (rx, ry) = (f64::from(rw) / f64::from(dw), f64::from(rh) / f64::from(dh));
    for v in 0..dh {
        for u in 0..dw {
            let i = (v * dw + u) as usize;
            let z = f64::from(depth[i]);
            let (uc, vc) = (f64::from(u) + 0.5, f64::from(v) + 0.5);
            assert_eq!(number(pts[i].x), (uc - cx) * z / fx);
            assert_eq!(number(pts[i].y), (vc - cy) * z / fy);
            assert_eq!(number(pts[i].z), z);
            let ru = ((uc * rx) as usize).min(rw as usize - 1);
            let rv = ((vc * ry) as usize).min(rh as usize - 1);
            let p = 3 * (rv * rw as usize + ru);
            assert_eq!([pts[i].r, pts[i].g, pts[i].b], [rgb[p], rgb[p + 1], rgb[p + 2]]);
        }
    }
}

#[test]
fn coordinates_and_samples_are_those_of_doubles() {
    compare_with_doubles(64, 48, 16, 12, [60.5, 59.25, 31.7, 23.1]);
    // The exact quotient would pick another column for u = 3.
    compare_with_doubles(122, 5, 7, 3, [100.1, 99.9, 60.3, 2.2]);
    // Fewer image pixels than depth pixels.
    compare_with_doubles(5, 3, 17, 11, [4.0, 4.0, 2.5, 1.5]);
    compare_with_doubles(9, 9, 9, 9, [8.3, 8.1, 4.4, 4.6]);
}

#[test]
fn a_point_takes_the_colour_of_its_own_pixel_at_the_same_size() {
    let (w, h) = (13u32, 7u32);
    let rgb: Vec<u8> = (0..w * h * 3).map(|i| i as u8).collect();
    let params = UnprojectParams {
        rgb_width: w,
        rgb_height: h,
        depth_width: w,
        depth_height: h,
        min_confidence: Confidence::Low,
    };
    let depth = singles(&vec![1.0; (w * h) as usize]);
    let pts = unproject(&rgb, &depth, None, &matrix(1.0, 1.0, 0.0, 0.0), &params);
    for (i, p) in pts.iter().enumerate() {
        assert_eq!([p.r, p.g, p.b], [rgb[3 * i], rgb[3 * i + 1], rgb[3 * i + 2]]);
    }
}

#[test]
fn points_come_row_by_row() {
    let depth = singles(&[1.0, f32::INFINITY, 3.0, -0.0, 5.0, 6.0]);
    let rgb = solid_rgb(3, 2, [1, 2, 3]);
    let params = UnprojectParams {
        rgb_width: 3,
        rgb_height: 2,
        depth_width: 3,
        depth_height: 2,
        min_confidence: Confidence::High,
    };
    let intr = matrix(1.0, 1.0, 0.0, 0.0);
    let pts = unproject(&rgb, &depth, None, &intr, &params);
    let zs: Vec<f64> = pts.iter().map(|p| number(p.z)).collect();
    assert_eq!(zs, [1.0, 3.0, 5.0, 6.0]);
    // No level given is the highest level given for all.
    let high = vec![Confidence::High; 6];
    assert_eq!(unproject(&rgb, &depth, Some(&high), &intr, &params), pts);
}

#[test]
fn an_empty_image_is_no_matter_where_nothing_is_kept() {
    let params = UnprojectParams {
        rgb_width: 0,
        rgb_height: 0,
        depth_width: 2,
        depth_height: 1,
        min_confidence: Confidence::Low,
    };
    let depth = singles(&[f32::NAN, 0.0]);
    assert!(unproject(&[], &depth, None, &matrix(1.0, 1.0, 0.0, 0.0), &params).is_empty());
}

#[test]
fn a_higher_threshold_keeps_less() {
    let depth = singles(&[1.0, 2.0, 3.0, 4.0]);
    let rgb = solid_rgb(4, 1, [1, 1, 1]);
    let conf = [Confidence::Low, Confidence::High, Confidence::Medium, Confidence::High];
    let count = |min_confidence: Confidence| {
        let params = UnprojectParams {
            rgb_width: 4,
            rgb_height: 1,
            depth_width: 4,
            depth_height: 1,
            min_confidence,
        };
        unproject(&rgb, &depth, Some(&conf), &matrix(1.0, 1.0, 0.0, 0.0), &params).len()
    };
    assert_eq!(count(Confidence::Low), 4);
    assert_eq!(count(Confidence::Medium), 3);
    assert_eq!(count(Confidence::High), 2);
}
