//! A synthetic database and image through the whole pipeline.
use fishsense_laz::batch::all_convertible;
use fishsense_laz::convert::{
    convert_one, default_output_name, prepare, ConvertError, ConvertOptions, RgbContents, RgbFile,
    RADIANS_PER_DEGREE,
};
use fishsense_laz::db::{
    fetch_query, fetched, list_query, resolve_rgb_path, PhotoColumns, PhotoListEntry, PhotoRow,
    Schema,
};
use fishsense_laz::decode::{Confidence, Intrinsics};
use fishsense_laz::double::Double;
use fishsense_laz::upsample::upsample_row;
use fishsense_laz::write::{LazCloud, SCALE_M};
use image::{ImageBuffer, ImageFormat, Rgb};
use las::{point::Format, Builder, Color, Point, Transform, Vector, Version, Writer};
use rusqlite::{Connection, OptionalExtension};
use std::io::Cursor;
use std::path::Path;
use tempfile::tempdir;

fn exp(x: Double) -> Double {
    Double { bits: f64::from_bits(x.bits).exp().to_bits() }
}

fn tan(x: Double) -> Double {
    Double { bits: f64::from_bits(x.bits).tan().to_bits() }
}

fn double(x: f64) -> Double {
    Double { bits: x.to_bits() }
}

fn number(x: Double) -> f64 {
    f64::from_bits(x.bits)
}

fn depth_blob(values: &[f32]) -> Vec<u8> {
    values.iter().flat_map(|f| f.to_le_bytes()).collect()
}

fn matrix_blob(w: u32, h: u32) -> Vec<u8> {
    let (w, h) = (f64::from(w), f64::from(h));
    let k: [f64; 9] = [w, 0.0, w / 2.0, 0.0, h, h / 2.0, 0.0, 0.0, 1.0];
    k.iter().flat_map(|v| v.to_le_bytes()).collect()
}

fn write_synthetic_db(db_path: &Path, rgb_filename: &str, depth_w: u32, depth_h: u32) {
    let conn = Connection::open(db_path).unwrap();
    conn.execute_batch(
        "CREATE TABLE photos (
            id INTEGER PRIMARY KEY AUTOINCREMENT,
            utc_unix_timestamp INTEGER NOT NULL,
            rgb_path TEXT NOT NULL,
            depth_bytes BLOB,
            depth_width INTEGER NOT NULL,
            depth_height INTEGER NOT NULL,
            confidence_bytes BLOB,
            confidence_width INTEGER NOT NULL,
            confidence_height INTEGER NOT NULL,
            intrinsics_bytes BLOB
        );",
    )
    .unwrap();

    // Constant-depth plane at z=2.0 m, 4x4 grid.
    let depth_bytes = depth_blob(&vec![2.0_f32; (depth_w * depth_h) as usize]);
    let confidence_bytes = vec![2u8; (depth_w * depth_h) as usize];

    // K at "RGB" resolution = same as depth here so scaling is a no-op.
    let intrinsics_bytes = matrix_blob(depth_w, depth_h);

    conn.execute(
        "INSERT INTO photos (
            utc_unix_timestamp, rgb_path,
            depth_bytes, depth_width, depth_height,
            confidence_bytes, confidence_width, confidence_height,
            intrinsics_bytes
        ) VALUES (?, ?, ?, ?, ?, ?, ?, ?, ?)",
        (
            1_700_000_000_i64,
            rgb_filename,
            depth_bytes,
            i64::from(depth_w),
            i64::from(depth_h),
            confidence_bytes,
            i64::from(depth_w),
            i64::from(depth_h),
            intrinsics_bytes,
        ),
    )
    .unwrap();
}

fn solid_jpeg(w: u32, h: u32, color: [u8; 3]) -> Vec<u8> {
    let mut img = ImageBuffer::<Rgb<u8>, Vec<u8>>::new(w, h);
    for px in img.pixels_mut() {
        *px = Rgb(color);
    }
    let mut out = Cursor::new(Vec::new());
    img.write_to(&mut out, ImageFormat::Jpeg).unwrap();
    out.into_inner()
}

fn probe(conn: &Connection) -> Schema {
    let mut stmt = conn.prepare("PRAGMA table_info(photos)").unwrap();
    let columns = stmt.query_map([], |r| r.get::<_, String>(1)).unwrap();
    Schema::from_columns(columns.collect::<Result<Vec<_>, _>>().unwrap())
}

fn fetch_photo(conn: &Connection, id: i64) -> PhotoRow {
    let found = conn
        .query_row(&fetch_query(&probe(conn)), [id], |r| {
            Ok(PhotoColumns {
                id: r.get(0)?,
                utc_unix_timestamp: r.get(1)?,
                rgb_path: r.get(2)?,
                depth_bytes: r.get(3)?,
                depth_width: r.get(4)?,
                depth_height: r.get(5)?,
                confidence_bytes: r.get(6)?,
                confidence_width: r.get(7)?,
                confidence_height: r.get(8)?,
                intrinsics_bytes: r.get(9)?,
            })
        })
        .optional()
        .unwrap();
    fetched(found, id).unwrap()
}

fn write_laz(path: &Path, cloud: &LazCloud) {
    let mut builder = Builder::from(Version::new(1, 2));
    builder.point_format = Format::new(2).unwrap();
    let transform = |offset: Double| Transform {
        scale: f64::from_bits(SCALE_M),
        offset: number(offset),
    };
    builder.transforms = Vector {
        x: transform(cloud.offset.x),
        y: transform(cloud.offset.y),
        z: transform(cloud.offset.z),
    };
    let mut writer = Writer::from_path(path, builder.into_header().unwrap()).unwrap();
    for p in &cloud.records {
        writer
            .write_point(Point {
                x: number(p.x),
                y: number(p.y),
                z: number(p.z),
                color: Some(Color { red: p.red, green: p.green, blue: p.blue }),
                ..Default::default()
            })
            .unwrap();
    }
    writer.close().unwrap();
}

fn options(rgb_root: &Path) -> ConvertOptions {
    ConvertOptions {
        min_confidence: Confidence::Medium,
        rgb_root: rgb_root.to_str().unwrap().to_string(),
        fallback_intrinsics: None,
        fallback_hfov_degrees: None,
        upsample_factor: 1,
    }
}

fn jpeg_file(contents: RgbContents) -> RgbFile {
    RgbFile { path: "/data/frame.jpg".to_string(), extension: Some("jpg".to_string()), contents }
}

#[test]
fn fixture_db_converts_to_laz() {
    let dir = tempdir().unwrap();
    let db_path = dir.path().join("fixture.sqlite");
    let rgb_filename = "frame.jpg";
    let depth_w = 4;
    let depth_h = 4;

    write_synthetic_db(&db_path, rgb_filename, depth_w, depth_h);
    let jpeg = solid_jpeg(depth_w, depth_h, [200, 100, 50]);

    let conn = Connection::open(&db_path).unwrap();
    let out = dir.path().join("out.laz");
    let opts = options(dir.path());
    let row = fetch_photo(&conn, 1);
    assert_eq!(
        resolve_rgb_path(&row.rgb_path, &opts.rgb_root),
        dir.path().join("frame.jpg").to_str().unwrap()
    );
    assert_eq!(opts.rgb_path(&row), resolve_rgb_path(&row.rgb_path, &opts.rgb_root));
    let cloud = convert_one(&row, jpeg_file(RgbContents::Bytes(jpeg)), &opts, &exp, &tan).unwrap();
    assert_eq!(cloud.records.len(), (depth_w * depth_h) as usize);
    write_laz(&out, &cloud);

    let mut reader = las::Reader::from_path(&out).unwrap();
    let pts: Vec<las::Point> = reader.points().collect::<Result<_, _>>().unwrap();
    assert_eq!(pts.len(), 16);

    // Every point sits at the same depth (z = 2.0).
    for p in &pts {
        assert!((p.z - 2.0).abs() < 1e-3);
        let c = p.color.expect("color");
        // JPEG is lossy — solid color survives well, but allow a few
        // codes of slop.
        assert!((i32::from(c.red >> 8) - 200).abs() <= 5);
        assert!((i32::from(c.green >> 8) - 100).abs() <= 5);
        assert!((i32::from(c.blue >> 8) - 50).abs() <= 5);
    }

    // Bounding box matches the corner unprojection. With our K
    // (fx=4, cx=2, fy=4, cy=2, all in 4x4-pixel units) and z=2:
    // corner pixel (u=0,v=0): center (0.5,0.5) → x=y=(0.5-2)*2/4=-0.75
    // corner pixel (u=3,v=3): center (3.5,3.5) → x=y=0.75
    let xs: Vec<f64> = pts.iter().map(|p| p.x).collect();
    let ys: Vec<f64> = pts.iter().map(|p| p.y).collect();
    let xmin = xs.iter().copied().fold(f64::INFINITY, f64::min);
    let xmax = xs.iter().copied().fold(f64::NEG_INFINITY, f64::max);
    let ymin = ys.iter().copied().fold(f64::INFINITY, f64::min);
    let ymax = ys.iter().copied().fold(f64::NEG_INFINITY, f64::max);
    assert!((xmin - -0.75).abs() < 1e-3);
    assert!((xmax - 0.75).abs() < 1e-3);
    assert!((ymin - -0.75).abs() < 1e-3);
    assert!((ymax - 0.75).abs() < 1e-3);
}

#[test]
fn queries_run_on_old_and_new_tables() {
    let conn = Connection::open_in_memory().unwrap();
    conn.execute_batch(
        "CREATE TABLE photos (
            id INTEGER PRIMARY KEY, utc_unix_timestamp INTEGER, rgb_path TEXT,
            depth_bytes BLOB, depth_width INTEGER, depth_height INTEGER,
            confidence_bytes BLOB, confidence_width INTEGER, confidence_height INTEGER
        );
        INSERT INTO photos VALUES (5, 6, 'a.jpg', x'00', 2, 3, NULL, 4, 5);",
    )
    .unwrap();
    let row = fetch_photo(&conn, 5);
    assert_eq!((row.id, row.utc_unix_timestamp, row.rgb_path.as_str()), (5, 6, "a.jpg"));
    assert_eq!(row.depth_bytes, [0]);
    assert_eq!((row.depth_width, row.depth_height), (2, 3));
    assert_eq!((row.confidence_width, row.confidence_height), (4, 5));
    assert_eq!(row.confidence_bytes, None);
    assert_eq!(row.intrinsics_bytes, None);
    let listed = |conn: &Connection| -> (Option<String>, Option<f64>, bool, bool) {
        conn.query_row(&list_query(&probe(conn)), [], |r| {
            Ok((r.get(3)?, r.get(4)?, r.get(5)?, r.get(6)?))
        })
        .unwrap()
    };
    assert_eq!(listed(&conn), (None, None, true, false));
    conn.execute_batch(
        "ALTER TABLE photos ADD COLUMN fish_length REAL;
         ALTER TABLE photos ADD COLUMN place_name TEXT;
         ALTER TABLE photos ADD COLUMN intrinsics_bytes BLOB;
         UPDATE photos SET fish_length = 0.25, place_name = 'Reef', intrinsics_bytes = x'0102';",
    )
    .unwrap();
    assert_eq!(listed(&conn), (Some("Reef".to_string()), Some(0.25), true, true));
    assert_eq!(fetch_photo(&conn, 5).intrinsics_bytes, Some(vec![1, 2]));
}

#[test]
fn names_of_clouds() {
    assert_eq!(default_output_name(18, 1_700_000_000), "photo-000018-1700000000.laz");
    assert_eq!(default_output_name(1_234_567, 5), "photo-1234567-5.laz");
    assert_eq!(default_output_name(-1, -2), format!("photo-{:06}-{}.laz", -1, -2));
    assert_ne!(default_output_name(1, 23), default_output_name(12, 3));
}

fn row(depth: &[f32], w: u32, h: u32) -> PhotoRow {
    PhotoRow {
        id: 3,
        utc_unix_timestamp: 0,
        rgb_path: "frame.jpg".to_string(),
        depth_bytes: depth_blob(depth),
        depth_width: w,
        depth_height: h,
        confidence_bytes: None,
        confidence_width: 0,
        confidence_height: 0,
        intrinsics_bytes: Some(matrix_blob(w, h)),
    }
}

fn image_file(w: u32, h: u32) -> RgbFile {
    let img = ImageBuffer::from_fn(w, h, |x, y| Rgb([(x * 9) as u8, (y * 9) as u8, 40u8]));
    let mut out = Cursor::new(Vec::new());
    img.write_to(&mut out, ImageFormat::Png).unwrap();
    jpeg_file(RgbContents::Bytes(out.into_inner()))
}

fn convert(row: &PhotoRow, file: RgbFile, opts: &ConvertOptions) -> Result<LazCloud, ConvertError> {
    convert_one(row, file, opts, &exp, &tan)
}

fn failure(row: &PhotoRow, file: RgbFile, opts: &ConvertOptions) -> String {
    convert(row, file, opts).unwrap_err().message()
}

#[test]
fn what_is_wrong_is_told_in_order() {
    let opts = options(Path::new("/data"));
    let broken = || jpeg_file(RgbContents::NotOpened("No such file".to_string()));
    let mut r = row(&[], 4, 4);
    r.intrinsics_bytes = None;
    assert_eq!(
        failure(&r, broken(), &opts),
        "photo 3 has no depth_bytes (pre-LiDAR or migration-stale row)"
    );
    r.depth_bytes = vec![0; 12];
    assert_eq!(
        failure(&r, broken(), &opts),
        "decode depth for photo 3: depth blob length 12 does not match 4x4*4"
    );
    r.depth_bytes = depth_blob(&[1.0; 16]);
    r.confidence_bytes = Some(vec![2; 15]);
    r.confidence_width = 4;
    r.confidence_height = 4;
    assert_eq!(
        failure(&r, broken(), &opts),
        "decode confidence for photo 3: confidence blob length 15 does not match 4x4"
    );
    r.confidence_bytes = Some(vec![2; 16]);
    assert_eq!(failure(&r, broken(), &opts), "open rgb image at /data/frame.jpg: No such file");
    let unread = jpeg_file(RgbContents::NotRead("Is a directory".to_string()));
    assert_eq!(failure(&r, unread, &opts), "sniff format of /data/frame.jpg: Is a directory");
    let start = solid_jpeg(4, 4, [1, 2, 3])[..20].to_vec();
    let broken_off = jpeg_file(RgbContents::BrokenOff(start, "Input/output error".to_string()));
    assert_eq!(
        failure(&r, broken_off, &opts),
        "decode rgb image at /data/frame.jpg: Input/output error"
    );
    let text = RgbFile {
        path: "/data/frame.txt".to_string(),
        extension: Some("txt".to_string()),
        contents: RgbContents::Bytes(b"hello".to_vec()),
    };
    assert_eq!(
        failure(&r, text, &opts),
        "decode rgb image at /data/frame.txt: \
         The file extension `.\"txt\"` was not recognized as an image format"
    );
    assert_eq!(
        failure(&r, image_file(4, 4), &opts),
        "photo 3 has no intrinsics_bytes (pre-schema-v7 capture); \
         pass --intrinsics fx,fy,cx,cy or --hfov-degrees"
    );
    r.intrinsics_bytes = Some(vec![0; 71]);
    assert_eq!(
        failure(&r, image_file(4, 4), &opts),
        "decode intrinsics for photo 3: intrinsics blob length 71 != 72 (9 × f64)"
    );
    r.intrinsics_bytes = Some(matrix_blob(4, 4));
    r.confidence_bytes = Some(vec![0; 16]);
    assert_eq!(
        failure(&r, image_file(4, 4), &opts),
        "photo 3 produced 0 points after filtering (confidence threshold=Medium)"
    );
    r.confidence_bytes = Some(vec![1; 16]);
    assert_eq!(convert(&r, image_file(4, 4), &opts).unwrap().records.len(), 16);
}

#[test]
fn confidence_of_another_size_is_left_aside() {
    let mut r = row(&[1.0; 16], 4, 4);
    r.confidence_bytes = Some(vec![0; 4]);
    r.confidence_width = 2;
    r.confidence_height = 2;
    let cloud = convert(&r, image_file(4, 4), &options(Path::new("/"))).unwrap();
    assert_eq!(cloud.records.len(), 16);
}

#[test]
fn the_matrix_of_the_row_comes_first() {
    let given = Intrinsics {
        fx: double(1375.0719),
        fy: double(1375.0719),
        cx: double(968.6433),
        cy: double(723.04926),
    };
    let mut opts = options(Path::new("/"));
    opts.fallback_hfov_degrees = Some(double(73.0));
    opts.fallback_intrinsics = Some(given);
    let mut r = row(&[1.0; 4], 2, 2);
    let p = prepare(&r, image_file(8, 6), &opts, &tan).unwrap();
    assert_eq!(p.intrinsics.fx, double(2.0));
    r.intrinsics_bytes = None;
    assert_eq!(prepare(&r, image_file(8, 6), &opts, &tan).unwrap().intrinsics, given);
    r.intrinsics_bytes = Some(vec![]);
    assert_eq!(prepare(&r, image_file(8, 6), &opts, &tan).unwrap().intrinsics, given);
    opts.fallback_intrinsics = None;
    let k = prepare(&r, image_file(8, 6), &opts, &tan).unwrap().intrinsics;
    let focal = 8.0 / (2.0 * (73.0_f64.to_radians() / 2.0).tan());
    assert_eq!(number(k.fx), focal);
    assert_eq!(number(k.fy), focal);
    assert_eq!(number(k.cx), 4.0);
    assert_eq!(number(k.cy), 3.0);
}

#[test]
fn a_degree_in_radians() {
    assert_eq!(f64::from_bits(RADIANS_PER_DEGREE), 1.0_f64.to_radians());
}

#[test]
fn upsampling_multiplies_the_points() {
    let mut opts = options(Path::new("/"));
    opts.upsample_factor = 3;
    let mut r = row(&[1.5; 6], 3, 2);
    let cloud = convert(&r, image_file(12, 8), &opts).unwrap();
    assert_eq!(cloud.records.len(), 9 * 6);
    for p in &cloud.records {
        assert!((number(p.z) - 1.5).abs() < 1e-6);
    }
    // Samples that are not trusted are no anchors.
    r.confidence_bytes = Some(vec![0; 6]);
    r.confidence_width = 3;
    r.confidence_height = 2;
    assert!(matches!(
        convert(&r, image_file(12, 8), &opts),
        Err(ConvertError::NoPoints { id: 3, min_confidence: Confidence::Medium })
    ));
}

#[test]
fn rows_of_a_prepared_photo_make_up_its_depth_map() {
    let mut opts = options(Path::new("/"));
    opts.upsample_factor = 2;
    let r = row(&[1.0, f32::NAN, 2.0, -3.0, 2.5, 1.25], 3, 2);
    let p = prepare(&r, image_file(9, 7), &opts, &tan).unwrap();
    let anchors = p.anchors();
    let numbers: Vec<f32> = anchors.iter().map(|a| f32::from_bits(a.bits)).collect();
    assert_eq!(numbers[0], 1.0);
    assert!(numbers[1].is_nan() && numbers[3].is_nan());
    assert_eq!(&numbers[4..], &[2.5, 1.25]);
    let whole = p.upsampled(&exp);
    let params = p.upsample_params();
    let rows: Vec<_> = (0..4u32)
        .flat_map(|oy| upsample_row(&anchors, &p.rgb.pixels, &params, oy, &exp))
        .collect();
    assert_eq!(whole.depth, rows);
    assert_eq!((whole.width, whole.height), (6, 4));
    let cloud = p.finish(&whole).unwrap();
    assert_eq!(cloud.records, convert(&r, image_file(9, 7), &opts).unwrap().records);
}

#[test]
fn a_factor_of_zero_is_no_upsampling() {
    let mut opts = options(Path::new("/"));
    opts.upsample_factor = 0;
    let cloud = convert(&row(&[1.0; 4], 2, 2), image_file(2, 2), &opts).unwrap();
    assert_eq!(cloud.records.len(), 4);
}

#[test]
fn masking_is_filtering() {
    let mut r = row(&[1.0, 2.0, f32::NAN, 4.0, -5.0, 6.0], 3, 2);
    r.confidence_bytes = Some(vec![2, 0, 2, 1, 2, 9]);
    r.confidence_width = 3;
    r.confidence_height = 2;
    let p = prepare(&r, image_file(5, 5), &options(Path::new("/")), &tan).unwrap();
    let filtered = p.finish(&p.grid).unwrap();
    let mut masked = p.grid.clone();
    masked.depth = p.anchors();
    masked.confidence = None;
    assert_eq!(p.finish(&masked).unwrap().records, filtered.records);
    assert_eq!(filtered.records.len(), 2);
}

#[test]
fn upsampled_pixels_far_from_samples_are_dropped() {
    let mut depth = [f32::NAN; 9];
    depth[0] = 2.0;
    let mut opts = options(Path::new("/"));
    opts.upsample_factor = 2;
    let cloud = convert(&row(&depth, 9, 1), image_file(9, 1), &opts).unwrap();
    // Four of the nine columns reach the sample, in two columns and two rows each.
    assert_eq!(cloud.records.len(), 16);
}

#[test]
fn rejected_samples_do_not_leak_into_an_upsampled_cloud() {
    let mut opts = options(Path::new("/"));
    opts.upsample_factor = 2;
    let with = |rejected: [f32; 3]| {
        let mut r = row(&[1.0, rejected[0], 2.0, rejected[1], 2.5, rejected[2]], 3, 2);
        r.confidence_bytes = Some(vec![2, 0, 1, 0, 2, 0]);
        r.confidence_width = 3;
        r.confidence_height = 2;
        convert(&r, image_file(9, 7), &opts).unwrap()
    };
    let plain = with([1.5, 1.5, 1.5]);
    for rejected in [[90.0, 0.001, 7.0], [f32::NAN, -1.0, f32::INFINITY]] {
        let other = with(rejected);
        assert_eq!(other.records, plain.records);
        assert_eq!(other.offset, plain.offset);
    }
    for p in &plain.records {
        assert!((1.0..=2.5).contains(&number(p.z)), "{}", number(p.z));
    }
    assert!(!plain.records.is_empty() && plain.records.len() <= 3 * 2 * 4);
    let full = row(&[1.0, 1.5, 2.0, 1.25, 2.5, 1.75], 3, 2);
    assert_eq!(convert(&full, image_file(9, 7), &opts).unwrap().records.len(), 3 * 2 * 4);
}

#[test]
fn an_old_database_converts_with_a_given_matrix() {
    let conn = Connection::open_in_memory().unwrap();
    conn.execute_batch(
        "CREATE TABLE photos (
            id INTEGER PRIMARY KEY, utc_unix_timestamp INTEGER, rgb_path TEXT,
            depth_bytes BLOB, depth_width INTEGER, depth_height INTEGER,
            confidence_bytes BLOB, confidence_width INTEGER, confidence_height INTEGER
        );
        INSERT INTO photos VALUES (6, 0, 'b.jpg', NULL, 0, 0, NULL, 0, 0);",
    )
    .unwrap();
    conn.execute(
        "INSERT INTO photos VALUES (5, 1, 'a.jpg', ?, 4, 4, NULL, 0, 0)",
        (depth_blob(&[2.0; 16]),),
    )
    .unwrap();
    let mut stmt = conn.prepare(&list_query(&probe(&conn))).unwrap();
    let entries: Vec<PhotoListEntry> = stmt
        .query_map([], |r| {
            Ok(PhotoListEntry {
                id: r.get(0)?,
                utc_unix_timestamp: r.get(1)?,
                rgb_path: r.get(2)?,
                place_name: r.get(3)?,
                fish_length_m: r.get::<_, Option<f64>>(4)?.map(double),
                has_depth: r.get(5)?,
                has_intrinsics: r.get(6)?,
            })
        })
        .unwrap()
        .collect::<Result<_, _>>()
        .unwrap();
    let mut opts = options(Path::new("/"));
    assert!(all_convertible(&entries, &opts).is_empty());
    opts.fallback_intrinsics = Some(Intrinsics {
        fx: double(1375.0719),
        fy: double(1375.0719),
        cx: double(968.6433),
        cy: double(723.04926),
    });
    assert_eq!(all_convertible(&entries, &opts), [5]);
    let file = jpeg_file(RgbContents::Bytes(solid_jpeg(16, 12, [9, 9, 9])));
    let cloud = convert(&fetch_photo(&conn, 5), file, &opts).unwrap();
    assert_eq!(cloud.records.len(), 16);
    // The first pixel, with the matrix brought to the size of the depth map.
    let (fx, cx) = (1375.0719 * (4.0 / 16.0), 968.6433 * (4.0 / 16.0));
    let x = (0.5 - cx) * 2.0 / fx;
    assert!((number(cloud.records[0].x) - x).abs() < 1e-3);
    opts.fallback_intrinsics = None;
    opts.fallback_hfov_degrees = Some(double(60.0));
    assert_eq!(all_convertible(&entries, &opts), [5]);
}
