use fishsense_laz::batch::{
    all_convertible, failure_line, named, success_line, ConvertRequest, Tally, UsageError,
};
use fishsense_laz::db::PhotoListEntry;
use fishsense_laz::decode::{Confidence, Intrinsics};
use fishsense_laz::double::Double;

fn doubles(xs: &[f64]) -> Vec<Double> {
    xs.iter().map(|x| Double { bits: x.to_bits() }).collect()
}

fn request(intrinsics: Option<Vec<Double>>, upsample: u32) -> ConvertRequest {
    ConvertRequest {
        min_confidence: Confidence::Medium,
        rgb_root: "/data".to_string(),
        intrinsics,
        hfov_degrees: Some(Double { bits: 73.0f64.to_bits() }),
        upsample,
    }
}

#[test]
fn a_request_becomes_options() {
    let v = doubles(&[1375.0719, 1375.5, 968.6433, 723.04926]);
    let opts = request(Some(v.clone()), 8).options().unwrap();
    let k = Intrinsics { fx: v[0], fy: v[1], cx: v[2], cy: v[3] };
    assert_eq!(opts.fallback_intrinsics, Some(k));
    assert_eq!(opts.fallback_hfov_degrees, Some(Double { bits: 73.0f64.to_bits() }));
    assert_eq!(opts.upsample_factor, 8);
    assert_eq!(opts.rgb_root, "/data");
    assert_eq!(opts.min_confidence, Confidence::Medium);
    assert_eq!(request(None, 1).options().unwrap().fallback_intrinsics, None);
}

#[test]
fn a_matrix_has_four_values() {
    for n in [0usize, 1, 3, 5] {
        let e = request(Some(doubles(&vec![1.0; n])), 99).options().unwrap_err();
        assert_eq!(e, UsageError::MatrixValues);
        assert_eq!(e.message(), "--intrinsics expects exactly 4 values: fx,fy,cx,cy");
    }
}

#[test]
fn factors_go_from_one_to_sixteen() {
    assert!(request(None, 1).options().is_ok());
    assert!(request(None, 16).options().is_ok());
    for factor in [0u32, 17, u32::MAX] {
        let e = request(None, factor).options().unwrap_err();
        assert_eq!(e, UsageError::Upsample(factor));
        let want = format!("--upsample must be between 1 and 16 (got {factor})");
        assert_eq!(e.message(), want);
    }
}

fn entry(id: i64, has_depth: bool, has_intrinsics: bool) -> PhotoListEntry {
    PhotoListEntry {
        id,
        utc_unix_timestamp: 0,
        rgb_path: String::new(),
        place_name: None,
        fish_length_m: None,
        has_depth,
        has_intrinsics,
    }
}

fn entries() -> Vec<PhotoListEntry> {
    vec![
        entry(1, true, true),
        entry(2, true, false),
        entry(3, false, true),
        entry(4, false, false),
        entry(5, true, true),
    ]
}

#[test]
fn all_means_those_with_depth_and_a_matrix() {
    let mut opts = request(None, 1).options().unwrap();
    opts.fallback_hfov_degrees = None;
    assert_eq!(all_convertible(&entries(), &opts), [1, 5]);
    assert!(all_convertible(&vec![], &opts).is_empty());
}

#[test]
fn a_fallback_takes_in_those_without_a_matrix() {
    let given = doubles(&[1375.0719, 1375.0719, 968.6433, 723.04926]);
    let mut opts = request(Some(given), 1).options().unwrap();
    opts.fallback_hfov_degrees = None;
    assert_eq!(all_convertible(&entries(), &opts), [1, 2, 5]);
    // An old database: no row has a matrix.
    let old = vec![entry(18, true, false), entry(19, true, false), entry(20, false, false)];
    assert_eq!(all_convertible(&old, &opts), [18, 19]);
    let opts = request(None, 1).options().unwrap();
    assert!(opts.fallback_hfov_degrees.is_some());
    assert_eq!(all_convertible(&old, &opts), [18, 19]);
}

#[test]
fn named_photos() {
    assert_eq!(named(vec![3, 1, 3]).unwrap(), [3, 1, 3]);
    let e = named(vec![]).unwrap_err();
    assert_eq!(e, UsageError::NoPhotos);
    assert_eq!(e.message(), "must specify --ids 1,2,3 or --all");
}

#[test]
fn a_run_fails_only_where_every_photo_failed() {
    let tally = Tally::of(&vec![true, false, false]);
    assert_eq!(tally, Tally { ok: 1, failed: 2 });
    assert!(!tally.all_failed());
    assert_eq!(tally.summary(), "done — 1 ok, 2 failed");
    assert!(Tally::of(&vec![false, false]).all_failed());
    assert!(!Tally::of(&vec![]).all_failed());
    assert!(!Tally::of(&vec![true]).all_failed());
}

#[test]
fn lines_of_a_run() {
    assert_eq!(
        success_line(18, 49_152, "out/photo.laz"),
        "photo 18: wrote 49152 points to out/photo.laz"
    );
    assert_eq!(failure_line(-2, "photo id -2 not found"), "photo -2: photo id -2 not found");
}
