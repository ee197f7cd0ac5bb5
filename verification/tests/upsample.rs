use fishsense_laz::double::{Double, Single};
use fishsense_laz::upsample::{
    blend, joint_bilateral_upsample, taps, upsample_row, Tap, UpsampleParams, UpsampledDepth,
    Weight, COLOR_SPREAD, SPATIAL_SPREAD,
};

fn exp(x: Double) -> Double {
    Double { bits: f64::from_bits(x.bits).exp().to_bits() }
}

fn singles(xs: &[f32]) -> Vec<Single> {
    xs.iter().map(|x| Single { bits: x.to_bits() }).collect()
}

fn numbers(up: &UpsampledDepth) -> Vec<f32> {
    up.depth.iter().map(|d| f32::from_bits(d.bits)).collect()
}

fn solid_guide(w: u32, h: u32, color: [u8; 3]) -> Vec<u8> {
    let mut v = Vec::with_capacity((w * h * 3) as usize);
    for _ in 0..(w * h) {
        v.extend_from_slice(&color);
    }
    v
}

#[test]
fn flat_depth_upsamples_to_constant() {
    // 4x4 depth, all 2.0; uniform guide. Interpolating a constant
    // should give the constant everywhere.
    let low = singles(&[2.0_f32; 16]);
    let guide = solid_guide(8, 8, [128, 128, 128]);
    let up = joint_bilateral_upsample(&low, 4, 4, &guide, 8, 8, 2, &exp);
    assert_eq!(up.width, 8);
    assert_eq!(up.height, 8);
    for d in &numbers(&up) {
        assert!((d - 2.0).abs() < 1e-4, "got {d}");
    }
}

#[test]
fn colour_edge_blocks_cross_edge_bleeding() {
    // Two low-res depth samples: near (1.0) on the left, far (5.0)
    // on the right. Two 8-px guides: one with a black|white edge
    // aligned to the depth boundary, one uniform grey.
    let low = singles(&[1.0_f32, 5.0_f32]); // 2x1
    let mut edge_guide = Vec::new();
    for x in 0..8u32 {
        let c = if x < 4 { [0, 0, 0] } else { [255, 255, 255] };
        edge_guide.extend_from_slice(&c);
    }
    let grey_guide = solid_guide(8, 1, [128, 128, 128]);

    let with_edge = numbers(&joint_bilateral_upsample(&low, 2, 1, &edge_guide, 8, 1, 4, &exp));
    let without_edge = numbers(&joint_bilateral_upsample(&low, 2, 1, &grey_guide, 8, 1, 4, &exp));

    // With the colour edge: a sharp step — left half ~1.0, right ~5.0.
    assert!(with_edge[0] < 1.2, "left edge: {}", with_edge[0]);
    assert!(with_edge[3] < 1.5, "near boundary: {}", with_edge[3]);
    assert!(with_edge[4] > 4.5, "past boundary: {}", with_edge[4]);
    assert!(with_edge[7] > 4.8, "right edge: {}", with_edge[7]);

    // Without it: a smooth gradient — the boundary pixel is a blend,
    // well away from either source value.
    assert!(
        without_edge[3] > 2.0 && without_edge[3] < 4.0,
        "uniform-guide boundary should blend: {}",
        without_edge[3]
    );
}

#[test]
fn no_anchors_yields_all_nan() {
    let low = singles(&[f32::NAN; 9]);
    let guide = solid_guide(6, 6, [10, 20, 30]);
    let up = joint_bilateral_upsample(&low, 3, 3, &guide, 6, 6, 2, &exp);
    assert_eq!(up.depth.len(), 36);
    assert!(numbers(&up).iter().all(|d| d.is_nan()));
}

#[test]
fn factor_one_is_a_passthrough_grid() {
    let low = singles(&[1.0_f32, 2.0, 3.0, 4.0]);
    let guide = solid_guide(2, 2, [50, 50, 50]);
    let up = joint_bilateral_upsample(&low, 2, 2, &guide, 2, 2, 1, &exp);
    assert_eq!((up.width, up.height), (2, 2));
    // With a uniform guide and factor 1 each output pixel still
    // averages its 7x7 (clamped) neighbourhood spatially; values
    // stay within the input range.
    for d in &numbers(&up) {
        assert!(*d >= 1.0 && *d <= 4.0, "got {d}");
    }
}

/// The same computation in machine doubles.
fn with_doubles(low: &[f32], lw: i64, lh: i64, rgb: &[u8], gw: i64, gh: i64, factor: i64) -> Vec<f32> {
    let nearest = |x: i64, n: i64, g: i64| -> i64 {
        let p = ((x as f64 + 0.5) * g as f64 / n as f64 - 0.5).round();
        p.clamp(0.0, (g - 1) as f64) as i64
    };
    let color = |x: i64, y: i64| -> [f64; 3] {
        let i = ((y * gw + x) * 3) as usize;
        [f64::from(rgb[i]), f64::from(rgb[i + 1]), f64::from(rgb[i + 2])]
    };
    let f = factor as f64;
    let (ow, oh) = (lw * factor, lh * factor);
    let mut out = Vec::new();
    for oy in 0..oh {
        let ly = (oy as f64 + 0.5) / f - 0.5;
        for ox in 0..ow {
            let lx = (ox as f64 + 0.5) / f - 0.5;
            let ct = color(nearest(ox, ow, gw), nearest(oy, oh, gh));
            let (cx, cy) = (lx.round() as i64, ly.round() as i64);
            let (mut wsum, mut dsum) = (0.0_f64, 0.0_f64);
            for qy in (cy - 3)..=(cy + 3) {
                for qx in (cx - 3)..=(cx + 3) {
                    if qy < 0 || qy >= lh || qx < 0 || qx >= lw {
                        continue;
                    }
                    let s = low[(qy * lw + qx) as usize];
                    if !s.is_finite() {
                        continue;
                    }
                    let (dx, dy) = (qx as f64 - lx, qy as f64 - ly);
                    let ws = (-(dx * dx + dy * dy) / (2.0 * 1.5 * 1.5)).exp();
                    let cq = color(nearest(qx, lw, gw), nearest(qy, lh, gh));
                    let cd = (ct[0] - cq[0]).powi(2)
                        + (ct[1] - cq[1]).powi(2)
                        + (ct[2] - cq[2]).powi(2);
                    let w = ws * (-cd / (2.0 * 30.0 * 30.0)).exp();
                    wsum += w;
                    dsum += w * f64::from(s);
                }
            }
            out.push(if wsum > 0.0 { (dsum / wsum) as f32 } else { f32::NAN });
        }
    }
    out
}

fn compare(lw: u32, lh: u32, gw: u32, gh: u32, factor: u32) {
    let low: Vec<f32> = (0..lw * lh)
        .map(|i| if i % 5 == 3 { f32::NAN } else { 0.5 + 0.37 * ((i * i) % 11) as f32 })
        .collect();
    let rgb: Vec<u8> = (0..gw * gh * 3).map(|i| ((i * i / 7) % 256) as u8).collect();
    let up = joint_bilateral_upsample(&singles(&low), lw, lh, &rgb, gw, gh, factor, &exp);
    assert_eq!((up.width, up.height), (lw * factor, lh * factor));
    let want = with_doubles(
        &low,
        i64::from(lw),
        i64::from(lh),
        &rgb,
        i64::from(gw),
        i64::from(gh),
        i64::from(factor),
    );
    let got = numbers(&up);
    assert_eq!(got.len(), want.len());
    for (g, w) in got.iter().zip(&want) {
        assert!(g == w || (g.is_nan() && w.is_nan()), "got {g}, want {w}");
    }
}

#[test]
fn upsampled_depth_is_that_of_doubles() {
    compare(6, 5, 24, 20, 2);
    compare(5, 4, 33, 17, 3);
    compare(9, 8, 7, 5, 1);
    compare(3, 2, 50, 40, 16);
    compare(12, 1, 4, 1, 5);
}

#[test]
fn the_matching_guide_pixel_is_that_of_doubles() {
    // A guide in which each pixel has its own colour shows which one was taken.
    for (n, g) in [(7u32, 122u32), (256, 1920), (192, 1440), (61, 13), (3, 1000)] {
        let rgb: Vec<u8> = (0..g).flat_map(|x| [(x % 256) as u8, (x / 256) as u8, 0]).collect();
        let low = singles(&vec![1.0; n as usize]);
        let params = UpsampleParams {
            low_width: n,
            low_height: 1,
            guide_width: g,
            guide_height: 1,
            factor: 1,
        };
        let pixel = |x: u32| {
            let p = ((f64::from(x) + 0.5) * f64::from(g) / f64::from(n) - 0.5).round();
            p.clamp(0.0, f64::from(g - 1)) as u32
        };
        for ox in 0..n {
            let near = taps(&low, &rgb, &params, ox, 0);
            let first = ox.saturating_sub(3);
            for (k, tap) in near.iter().enumerate() {
                let (a, b) = (pixel(ox), pixel(first + k as u32));
                let d = |c: u32| f64::from(c);
                let red = d(a % 256) - d(b % 256);
                let green = d(a / 256) - d(b / 256);
                let want = -(red * red + green * green) / 1800.0;
                assert_eq!(f64::from_bits(tap.color.bits), want);
            }
        }
    }
}

#[test]
fn the_window_of_large_grids_is_that_of_doubles() {
    // The centre of the window is where the output pixel lies.
    for factor in [1u32, 2, 3, 5, 7, 16] {
        for o in (0..2000u32).chain(4_000_000_000..4_000_000_100) {
            let position = (f64::from(o) + 0.5) / f64::from(factor) - 0.5;
            assert_eq!(position.round() as i64, i64::from(o / factor));
        }
    }
}

#[test]
fn the_window_has_seven_columns_and_rows() {
    let low = singles(&[1.0; 400]);
    let rgb = solid_guide(20, 20, [9, 9, 9]);
    let params = UpsampleParams {
        low_width: 20,
        low_height: 20,
        guide_width: 20,
        guide_height: 20,
        factor: 2,
    };
    assert_eq!(taps(&low, &rgb, &params, 20, 20).len(), 49);
    assert_eq!(taps(&low, &rgb, &params, 0, 0).len(), 16);
    assert_eq!(taps(&low, &rgb, &params, 39, 20).len(), 28);
}

#[test]
fn a_row_is_a_row_of_the_whole() {
    let low = singles(&[1.0, 2.0, f32::NAN, 4.0, 5.0, 6.5]);
    let rgb: Vec<u8> = (0..6 * 4 * 3).map(|i| (i * 3) as u8).collect();
    let params = UpsampleParams {
        low_width: 3,
        low_height: 2,
        guide_width: 6,
        guide_height: 4,
        factor: 2,
    };
    let up = joint_bilateral_upsample(&low, 3, 2, &rgb, 6, 4, 2, &exp);
    for oy in 0..4u32 {
        let row = upsample_row(&low, &rgb, &params, oy, &exp);
        let at = (oy * 6) as usize;
        assert_eq!(row, up.depth[at..at + 6]);
    }
}

#[test]
fn pixels_far_from_samples_get_no_depth() {
    let mut low = vec![f32::NAN; 10];
    low[0] = 3.0;
    let guide = solid_guide(10, 1, [0, 0, 0]);
    let up = joint_bilateral_upsample(&singles(&low), 10, 1, &guide, 10, 1, 1, &exp);
    let got = numbers(&up);
    assert_eq!(&got[..4], &[3.0; 4]);
    assert!(got[4..].iter().all(|d| d.is_nan()));
}

#[test]
fn a_blend_is_the_weighted_mean() {
    let d = |x: f64| Double { bits: x.to_bits() };
    let tap = |x: f32| Tap { depth: Single { bits: x.to_bits() }, spatial: d(0.0), color: d(0.0) };
    let near = vec![tap(1.0), tap(4.0)];
    let weights = vec![
        Weight { spatial: d(0.5), color: d(1.0) },
        Weight { spatial: d(0.5), color: d(0.5) },
    ];
    assert_eq!(f32::from_bits(blend(&near, &weights).bits), 2.0);
    let nothing = vec![
        Weight { spatial: d(0.0), color: d(1.0) },
        Weight { spatial: d(0.0), color: d(1.0) },
    ];
    assert!(f32::from_bits(blend(&near, &nothing).bits).is_nan());
}

#[test]
fn spreads_are_twice_the_squares() {
    assert_eq!(f64::from_bits(SPATIAL_SPREAD), 2.0 * 1.5 * 1.5);
    assert_eq!(f64::from_bits(COLOR_SPREAD), 2.0 * 30.0 * 30.0);
}

#[test]
fn far_and_unlike_samples_weigh_less() {
    // One row; the guide darkens to the right.
    let low = singles(&[1.0; 9]);
    let rgb: Vec<u8> = (0..9u8).flat_map(|x| [250 - 20 * x; 3]).collect();
    let params = UpsampleParams {
        low_width: 9,
        low_height: 1,
        guide_width: 9,
        guide_height: 1,
        factor: 1,
    };
    let near = taps(&low, &rgb, &params, 4, 0);
    assert_eq!(near.len(), 7);
    for k in 0..3 {
        let (far, close) = (&near[k], &near[k + 1]);
        assert!(far.spatial.less(close.spatial));
        assert!(far.color.less(close.color));
        assert!(near[6 - k].spatial.less(near[5 - k].spatial));
        assert!(near[6 - k].color.less(near[5 - k].color));
        assert_eq!(near[k].spatial, near[6 - k].spatial);
    }
    assert_eq!(f64::from_bits(near[3].spatial.bits), 0.0);
}

#[test]
fn a_guide_of_the_same_size_is_matched_pixel_by_pixel() {
    let n = 37u32;
    let rgb: Vec<u8> = (0..n).flat_map(|x| [(x * 5) as u8, 0, 0]).collect();
    let low = singles(&vec![1.0; n as usize]);
    let params = UpsampleParams {
        low_width: n,
        low_height: 1,
        guide_width: n,
        guide_height: 1,
        factor: 1,
    };
    for ox in 3..n - 3 {
        let near = taps(&low, &rgb, &params, ox, 0);
        for (k, tap) in near.iter().enumerate() {
            let d = 5.0 * (k as f64 - 3.0);
            assert_eq!(f64::from_bits(tap.color.bits), -(d * d) / 1800.0);
        }
    }
}

#[test]
fn flat_depth_upsamples_to_itself() {
    for depth in [2.0_f32, 0.1, 1.0 / 3.0, 7.77, 1.0e-40, 3.0e38] {
        let mut low = vec![depth; 30];
        low[7] = f32::NAN;
        let rgb: Vec<u8> = (0..12 * 10 * 3).map(|i| ((i * i / 5) % 256) as u8).collect();
        let up = joint_bilateral_upsample(&singles(&low), 6, 5, &rgb, 12, 10, 3, &exp);
        assert!(numbers(&up).iter().all(|d| d.to_bits() == depth.to_bits()));
    }
}

#[test]
fn upsampled_depth_stays_in_range() {
    let low: Vec<f32> = (0..48).map(|i| 0.3 + 0.01 * ((i * 37) % 48) as f32).collect();
    let least = low.iter().copied().fold(f32::INFINITY, f32::min);
    let greatest = low.iter().copied().fold(f32::NEG_INFINITY, f32::max);
    let rgb: Vec<u8> = (0..20 * 20 * 3).map(|i| ((i * 91) % 256) as u8).collect();
    let up = joint_bilateral_upsample(&singles(&low), 8, 6, &rgb, 20, 20, 4, &exp);
    assert!(numbers(&up).iter().all(|d| least <= *d && *d <= greatest));
}

#[test]
fn exponents_are_between_200_below_zero_and_zero() {
    // Black and white side by side are as unlike as colours can be.
    let low = singles(&[1.0; 81]);
    let rgb: Vec<u8> = (0..81u32).flat_map(|i| [if i % 2 == 0 { 0u8 } else { 255 }; 3]).collect();
    let params = UpsampleParams {
        low_width: 9,
        low_height: 9,
        guide_width: 9,
        guide_height: 9,
        factor: 1,
    };
    let mut least = 0.0_f64;
    for oy in 0..9u32 {
        for ox in 0..9u32 {
            for tap in taps(&low, &rgb, &params, ox, oy) {
                for x in [f64::from_bits(tap.spatial.bits), f64::from_bits(tap.color.bits)] {
                    assert!((-200.0..=0.0).contains(&x), "{x}");
                    least = least.min(x);
                }
            }
        }
    }
    assert_eq!(least, -(3.0 * 255.0 * 255.0) / 1800.0);
}

#[test]
fn depth_of_either_sign_stays_in_range() {
    let rgb: Vec<u8> = (0..20 * 20 * 3).map(|i| ((i * 91) % 256) as u8).collect();
    let sets: [fn(i32) -> f32; 4] = [
        |i| -0.3 - 0.01 * ((i * 37) % 48) as f32,
        |i| 0.01 * (((i * 37) % 48) - 20) as f32,
        |i| if i % 7 == 0 { 1.0e-40 } else { -3.0e38 },
        |i| if i % 2 == 0 { -0.0 } else { 0.0 },
    ];
    for set in sets {
        let low: Vec<f32> = (0..48).map(set).collect();
        let least = low.iter().copied().fold(f32::INFINITY, f32::min);
        let greatest = low.iter().copied().fold(f32::NEG_INFINITY, f32::max);
        let up = joint_bilateral_upsample(&singles(&low), 8, 6, &rgb, 20, 20, 3, &exp);
        assert!(numbers(&up).iter().all(|d| least <= *d && *d <= greatest));
    }
    let flat = joint_bilateral_upsample(&singles(&[-1.0 / 3.0; 48]), 8, 6, &rgb, 20, 20, 3, &exp);
    assert!(numbers(&flat).iter().all(|d| *d == -1.0 / 3.0));
}
