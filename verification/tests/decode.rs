use fishsense_laz::decode::{
    decode_confidence, decode_depth, decode_intrinsics, Confidence, DecodeError, Intrinsics,
};
use fishsense_laz::double::{Double, Single};

fn double(x: f64) -> Double {
    Double { bits: x.to_bits() }
}

fn number(x: Double) -> f64 {
    f64::from_bits(x.bits)
}

fn single_number(x: Single) -> f32 {
    f32::from_bits(x.bits)
}

fn matrix(fx: f64, fy: f64, cx: f64, cy: f64) -> Intrinsics {
    Intrinsics { fx: double(fx), fy: double(fy), cx: double(cx), cy: double(cy) }
}

#[test]
fn confidence_threshold() {
    assert!(Confidence::High.at_least(Confidence::Medium));
    assert!(Confidence::Medium.at_least(Confidence::Medium));
    assert!(!Confidence::Low.at_least(Confidence::Medium));
}

#[test]
fn depth_roundtrip() {
    let pixels = [0.5_f32, 1.5, f32::NAN, 3.25];
    let bytes: Vec<u8> = pixels.iter().flat_map(|p| p.to_le_bytes()).collect();
    let decoded = decode_depth(&bytes, 2, 2).unwrap();
    assert_eq!(single_number(decoded[0]), 0.5);
    assert_eq!(single_number(decoded[1]), 1.5);
    assert!(single_number(decoded[2]).is_nan());
    assert_eq!(single_number(decoded[3]), 3.25);
}

#[test]
fn depth_size_mismatch() {
    let bytes = vec![0u8; 12];
    assert!(matches!(
        decode_depth(&bytes, 2, 2),
        Err(DecodeError::DepthSizeMismatch { .. })
    ));
}

#[test]
fn confidence_decodes_levels() {
    let bytes = [0u8, 1, 2, 7];
    let conf = decode_confidence(&bytes, 4, 1).unwrap();
    assert_eq!(conf[0], Confidence::Low);
    assert_eq!(conf[1], Confidence::Medium);
    assert_eq!(conf[2], Confidence::High);
    // Unknown values count as low.
    assert_eq!(conf[3], Confidence::Low);
}

#[test]
fn intrinsics_roundtrip() {
    let k: [f64; 9] = [1500.0, 0.0, 960.0, 0.0, 1500.0, 720.0, 0.0, 0.0, 1.0];
    let bytes: Vec<u8> = k.iter().flat_map(|v| v.to_le_bytes()).collect();
    let intr = decode_intrinsics(&bytes).unwrap();
    assert_eq!(number(intr.fx), 1500.0);
    assert_eq!(number(intr.fy), 1500.0);
    assert_eq!(number(intr.cx), 960.0);
    assert_eq!(number(intr.cy), 720.0);
}

#[test]
fn intrinsics_scale_to_depth_resolution() {
    let intr = matrix(1500.0, 1500.0, 960.0, 720.0);
    let scaled = intr.scaled(1920, 1440, 256, 192);
    assert!((number(scaled.fx) - 200.0).abs() < 1e-9);
    assert!((number(scaled.fy) - 200.0).abs() < 1e-9);
    assert!((number(scaled.cx) - 128.0).abs() < 1e-9);
    assert!((number(scaled.cy) - 96.0).abs() < 1e-9);
}

#[test]
fn each_entry_of_the_matrix_has_its_place() {
    let k: [f64; 9] = [1.0, 2.0, 3.0, 4.0, 5.0, 6.0, 7.0, 8.0, 9.0];
    let bytes: Vec<u8> = k.iter().flat_map(|v| v.to_le_bytes()).collect();
    assert_eq!(decode_intrinsics(&bytes).unwrap(), matrix(1.0, 5.0, 3.0, 6.0));
}

#[test]
fn scaling_is_that_of_doubles() {
    let k = matrix(1375.0719, 1375.0719, 968.6433, 723.04926);
    let scaled = k.scaled(1920, 1440, 256, 192);
    let sx = f64::from(256u32) / f64::from(1920u32);
    let sy = f64::from(192u32) / f64::from(1440u32);
    assert_eq!(number(scaled.fx), 1375.0719 * sx);
    assert_eq!(number(scaled.fy), 1375.0719 * sy);
    assert_eq!(number(scaled.cx), 968.6433 * sx);
    assert_eq!(number(scaled.cy), 723.04926 * sy);
}

#[test]
fn scaling_to_the_same_size_changes_nothing() {
    let k = matrix(1604.2147, 1604.2147, 956.5816, 717.7617);
    assert_eq!(k.scaled(1920, 1440, 1920, 1440), k);
    assert_eq!(k.scaled(7, 13, 7, 13), k);
}

#[test]
fn scaling_there_and_back_is_off_by_rounding_alone() {
    let k = matrix(1375.0719, -1375.0719, 968.6433, 0.0);
    for (w, h) in [(256, 192), (3, 7), (1, 1), (4_294_967_295, 4_294_967_291)] {
        let back = k.scaled(1920, 1440, w, h).scaled(w, h, 1920, 1440);
        let pairs = [(k.fx, back.fx), (k.fy, back.fy), (k.cx, back.cx), (k.cy, back.cy)];
        for (a, b) in pairs {
            let bound = 7.0 * number(a).abs() * 2.0_f64.powi(-53);
            assert!((number(b) - number(a)).abs() <= bound, "{w}x{h}: {} {}", number(a), number(b));
        }
    }
}

#[test]
fn a_scaled_pixel_keeps_its_line_of_sight() {
    let k = matrix(1500.0, 1500.0, 960.0, 720.0);
    let s = k.scaled(1920, 1440, 256, 192);
    for u in [0.0, 7.5, 960.0, 1919.5] {
        let before = (u - number(k.cx)) / number(k.fx);
        let after = (u * 256.0 / 1920.0 - number(s.cx)) / number(s.fx);
        assert!((before - after).abs() < 1e-14);
        let before = (u - number(k.cy)) / number(k.fy);
        let after = (u * 192.0 / 1440.0 - number(s.cy)) / number(s.fy);
        assert!((before - after).abs() < 1e-14);
    }
}

#[test]
fn decode_errors_in_words() {
    assert_eq!(
        decode_depth(&[0; 12], 2, 2).unwrap_err(),
        DecodeError::DepthSizeMismatch { len: 12, width: 2, height: 2 }
    );
    assert_eq!(
        decode_depth(&[0; 12], 2, 2).unwrap_err().message(),
        "depth blob length 12 does not match 2x2*4"
    );
    assert_eq!(
        decode_confidence(&[0; 3], 2, 2).unwrap_err().message(),
        "confidence blob length 3 does not match 2x2"
    );
    assert_eq!(
        decode_intrinsics(&[0; 71]).unwrap_err().message(),
        "intrinsics blob length 71 != 72 (9 × f64)"
    );
}

#[test]
fn sizes_whose_product_is_huge_do_not_match() {
    assert!(decode_depth(&[0; 4], u32::MAX, u32::MAX).is_err());
    assert!(decode_confidence(&[0; 4], u32::MAX, u32::MAX).is_err());
    assert_eq!(decode_depth(&[], u32::MAX, 0).unwrap().len(), 0);
}
