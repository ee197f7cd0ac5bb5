use fishsense_laz::db::PhotoListEntry;
use fishsense_laz::listing::{database_directory, list, photo_line, rgb_check, RgbCheck};
use std::path::Path;

fn entry(id: i64, has_depth: bool, has_intrinsics: bool, place: Option<&str>) -> PhotoListEntry {
    PhotoListEntry {
        id,
        utc_unix_timestamp: 1_700_000_000,
        rgb_path: format!("{id}.jpg"),
        place_name: place.map(|p| p.to_string()),
        fish_length_m: None,
        has_depth,
        has_intrinsics,
    }
}

#[test]
fn lines_are_those_of_the_formatter() {
    let length = Some(format!("{:>10.1}", 0.4321 * 100.0));
    let line = photo_line(&entry(18, true, true, Some("La Jolla")), &length, true);
    assert_eq!(
        line,
        format!(
            "{:>6}  {:<20}  {}  {:>9}  {}  {}",
            18, "2023-11-14 22:13:20", "      43.2", "    yes", "  yes", "La Jolla"
        )
    );
    let line = photo_line(&entry(-1_234_567, true, false, None), &None, false);
    assert_eq!(
        line,
        format!(
            "{:>6}  {:<20}  {}  {:>9}  {}  {}",
            -1_234_567, "2023-11-14 22:13:20", "         -", "  no(K)", "   no", ""
        )
    );
    let line = photo_line(&entry(3, false, true, None), &None, true);
    assert!(line.contains(&format!("  {:>9}  ", " no(d) ")));
}

#[test]
fn the_header_is_that_of_the_formatter() {
    let listing = list(&vec![entry(1, true, true, None)], &vec![None], &vec![true], false, "r");
    assert_eq!(
        listing.lines[0],
        format!(
            "{:>6}  {:<20}  {:>10}  {:>9}  {:>5}  {:<}",
            "id", "captured (utc)", "fish (cm)", "depth+K?", "rgb?", "place"
        )
    );
}

fn ids(lines: &[String]) -> Vec<i64> {
    lines[1..].iter().map(|l| l.split_whitespace().next().unwrap().parse().unwrap()).collect()
}

#[test]
fn photos_without_an_image_are_hidden() {
    let entries: Vec<PhotoListEntry> = (1..=5).map(|i| entry(i, true, true, None)).collect();
    let lengths = vec![None; 5];
    let present = vec![true, false, true, false, true];
    let listing = list(&entries, &lengths, &present, false, "/data/fish");
    assert_eq!(ids(&listing.lines), [1, 3, 5]);
    assert_eq!(
        listing.note.unwrap(),
        "(2 hidden — RGB file missing under /data/fish; pass --show-missing-rgb to include)"
    );
}

#[test]
fn photos_without_an_image_come_last_where_asked_for() {
    let entries: Vec<PhotoListEntry> = (1..=5).map(|i| entry(i, true, true, None)).collect();
    let lengths = vec![None; 5];
    let present = vec![false, true, false, true, true];
    let listing = list(&entries, &lengths, &present, true, "/data/fish");
    assert_eq!(ids(&listing.lines), [2, 4, 5, 1, 3]);
    assert!(listing.note.is_none());
    assert!(listing.lines[1].contains("    yes    yes"));
    assert!(listing.lines[4].contains("    yes     no"));
}

#[test]
fn no_photos() {
    let listing = list(&vec![], &vec![], &vec![], false, "");
    assert_eq!(listing.lines, ["(no photos)"]);
    assert!(listing.note.is_none());
}

#[test]
fn nothing_hidden_no_note() {
    let listing = list(&vec![entry(9, false, false, None)], &vec![None], &vec![true], false, "r");
    assert!(listing.note.is_none());
    assert_eq!(listing.lines.len(), 2);
}

#[test]
fn bare_names_are_those_of_paths() {
    let paths = [
        "a.jpg", "a", "", ".", "..", "./a", "a/", "a//", "a/.", "a/./", "a/..", "a/b", "/a", "/",
        ".a", "..a", "...", "a/.b", "a/./b", "é.jpg", "a/ ", "//", "./", "a.", "a/.//.",
    ];
    for path in paths {
        let p = Path::new(path);
        let bare = match p.file_name() {
            Some(name) if p.parent().map_or(true, |q| q.as_os_str().is_empty()) => {
                Some(name.to_str().unwrap().to_string())
            }
            _ => None,
        };
        match (rgb_check(path, "/root/dir"), bare) {
            (RgbCheck::Listed(name), Some(want)) => assert_eq!(name, want, "{path}"),
            (RgbCheck::At(at), None) => {
                let want = Path::new("/root/dir").join(p);
                assert_eq!(at, want.to_str().unwrap(), "{path}");
            }
            (got, want) => panic!("{path}: {got:?} but {want:?}"),
        }
    }
}

#[test]
fn images_lie_beside_the_database() {
    let directory = |path: &str| database_directory(Path::new(path).parent().and_then(Path::to_str));
    assert_eq!(directory("/data/captures.sqlite"), "/data");
    assert_eq!(directory("captures.sqlite"), ".");
    assert_eq!(directory("/"), ".");
    assert_eq!(database_directory(Some("/a")), "/a");
    assert_eq!(database_directory(Some("")), ".");
    assert_eq!(database_directory(None), ".");
}
