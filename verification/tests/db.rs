use fishsense_laz::db::{
    fetch_query, fetched, list_query, resolve_rgb_path, DbError, PhotoColumns, PhotoRow, Schema,
};
use std::path::{Path, PathBuf};

#[test]
fn resolve_absolute_passes_through() {
    let resolved = resolve_rgb_path("/tmp/foo.jpg", "/var/lib");
    assert_eq!(resolved, "/tmp/foo.jpg");
}

#[test]
fn resolve_relative_joins_root() {
    let resolved = resolve_rgb_path("foo.jpg", "/var/lib");
    assert_eq!(resolved, "/var/lib/foo.jpg");
}

#[test]
fn resolving_is_that_of_paths() {
    for root in ["/var/lib", "/var/lib/", "", ".", "a/b", "/", "é"] {
        for path in ["foo.jpg", "/tmp/foo.jpg", "a/b.jpg", "", "./x", "../y", "ü.jpg"] {
            let p = Path::new(path);
            let want = if p.is_absolute() { p.to_path_buf() } else { Path::new(root).join(p) };
            assert_eq!(PathBuf::from(resolve_rgb_path(path, root)), want);
            assert_eq!(resolve_rgb_path(path, root), want.to_str().unwrap());
        }
    }
}

#[test]
fn resolving_twice_is_resolving_once() {
    let once = resolve_rgb_path("a/foo.jpg", "/var/lib");
    assert_eq!(resolve_rgb_path(&once, "/elsewhere"), once);
}

fn schema(columns: &[&str]) -> Schema {
    Schema::from_columns(columns.iter().map(|c| c.to_string()).collect())
}

#[test]
fn a_schema_has_its_columns() {
    let s = schema(&["id", "rgb_path"]);
    assert!(s.has("id"));
    assert!(s.has("rgb_path"));
    assert!(!s.has("rgb"));
    assert!(!s.has("intrinsics_bytes"));
    assert!(!schema(&[]).has(""));
}

#[test]
fn queries_name_the_columns_that_are_there() {
    let full = schema(&["id", "place_name", "fish_length", "intrinsics_bytes"]);
    assert_eq!(
        list_query(&full),
        "SELECT id, utc_unix_timestamp, rgb_path, place_name, fish_length, \
         depth_bytes IS NOT NULL, intrinsics_bytes IS NOT NULL FROM photos ORDER BY id ASC"
    );
    assert_eq!(
        fetch_query(&full),
        "SELECT id, utc_unix_timestamp, rgb_path, depth_bytes, depth_width, depth_height, \
         confidence_bytes, confidence_width, confidence_height, intrinsics_bytes \
         FROM photos WHERE id = ?1"
    );
}

#[test]
fn queries_have_placeholders_for_the_others() {
    let old = schema(&["id"]);
    assert_eq!(
        list_query(&old),
        "SELECT id, utc_unix_timestamp, rgb_path, NULL, NULL, \
         depth_bytes IS NOT NULL, 0 FROM photos ORDER BY id ASC"
    );
    assert_eq!(
        fetch_query(&old),
        "SELECT id, utc_unix_timestamp, rgb_path, depth_bytes, depth_width, depth_height, \
         confidence_bytes, confidence_width, confidence_height, NULL \
         FROM photos WHERE id = ?1"
    );
}

fn columns() -> PhotoColumns {
    PhotoColumns {
        id: 7,
        utc_unix_timestamp: 1_700_000_000,
        rgb_path: "a.jpg".to_string(),
        depth_bytes: None,
        depth_width: 256,
        depth_height: -1,
        confidence_bytes: Some(vec![2]),
        confidence_width: 0x1_0000_0005,
        confidence_height: i64::MIN,
        intrinsics_bytes: None,
    }
}

#[test]
fn sizes_keep_their_low_words() {
    let row = PhotoRow::from_columns(columns());
    assert_eq!(row.id, 7);
    assert_eq!(row.depth_bytes, Vec::<u8>::new());
    assert_eq!(row.depth_width, 256);
    assert_eq!(row.depth_height, (-1i64) as u32);
    assert_eq!(row.confidence_width, 0x1_0000_0005i64 as u32);
    assert_eq!(row.confidence_height, i64::MIN as u32);
    assert_eq!(row.confidence_bytes, Some(vec![2]));
}

#[test]
fn a_photo_is_found_or_not() {
    assert_eq!(fetched(Some(columns()), 7).unwrap().rgb_path, "a.jpg");
    let missing = fetched(None, -3).unwrap_err();
    assert!(matches!(missing, DbError::NotFound(-3)));
    assert_eq!(missing.message(), "photo id -3 not found");
    assert_eq!(DbError::Sqlite("disk".to_string()).message(), "sqlite error: disk");
}
