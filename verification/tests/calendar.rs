use fishsense_laz::calendar::{days_to_ymd, format_iso8601};
use fishsense_laz::text::{
    push_decimal, push_integer, push_left_aligned, push_right_aligned,
};

#[test]
fn days_become_dates() {
    assert_eq!(days_to_ymd(0), (1970, 1, 1));
    assert_eq!(days_to_ymd(-1), (1969, 12, 31));
    assert_eq!(days_to_ymd(59), (1970, 3, 1));
    assert_eq!(days_to_ymd(11_016), (2000, 2, 29));
    assert_eq!(days_to_ymd(11_017), (2000, 3, 1));
    assert_eq!(days_to_ymd(-719_468), (0, 3, 1));
    assert_eq!(days_to_ymd(-719_469), (0, 2, 29));
    assert_eq!(days_to_ymd(-719_529), (-1, 12, 31));
    assert_eq!(days_to_ymd(19_675), (2023, 11, 14));
}

#[test]
fn every_day_follows_the_one_before_it() {
    let mut before = days_to_ymd(-800_000);
    for day in -799_999..400_000 {
        let (y, m, d) = days_to_ymd(day);
        let (py, pm, pd) = before;
        assert!((y, m, d) > (py, pm, pd));
        assert!((y, m, d) == (py, pm, pd + 1) || (d == 1 && pd >= 28));
        before = (y, m, d);
    }
}

#[test]
fn timestamps_in_utc() {
    assert_eq!(format_iso8601(0), "1970-01-01 00:00:00");
    assert_eq!(format_iso8601(1_700_000_000), "2023-11-14 22:13:20");
    assert_eq!(format_iso8601(-1), "1969-12-31 23:59:59");
    assert_eq!(format_iso8601(951_782_399), "2000-02-28 23:59:59");
    assert_eq!(format_iso8601(951_782_400), "2000-02-29 00:00:00");
}

#[test]
fn milliseconds_are_told_by_their_size() {
    assert_eq!(format_iso8601(32_503_680_000), "3000-01-01 00:00:00");
    assert_eq!(format_iso8601(32_503_680_001), "1971-01-12 04:48:00");
    assert_eq!(format_iso8601(1_700_000_000_999), "2023-11-14 22:13:20");
}

#[test]
fn the_ends_of_the_range_have_a_date() {
    assert_eq!(format_iso8601(i64::MIN), "-292277022657-01-27 08:29:52");
    assert_eq!(format_iso8601(i64::MAX), "292278994-08-17 07:12:55");
    assert_eq!(format_iso8601(-62_167_219_201), "-001-12-31 23:59:59");
}

#[test]
fn numbers_are_written_as_the_formatter_writes_them() {
    for x in [0i64, 1, 9, 10, 42, 99_999, 100_000, 123_456_789, -1, -42, -123_456, i64::MIN, i64::MAX] {
        for width in [0usize, 1, 2, 6, 12] {
            let mut out = String::from(">");
            push_integer(&mut out, x, width);
            assert_eq!(out, format!(">{x:0width$}"));
        }
    }
    for n in [0u64, 7, 10, 65_535, u64::MAX] {
        let mut out = String::new();
        push_decimal(&mut out, n);
        assert_eq!(out, format!("{n}"));
    }
}

#[test]
fn columns_are_padded_as_the_formatter_pads_them() {
    for s in ["", "a", "é", "id", "a longer text"] {
        for width in [0usize, 1, 5, 20] {
            let mut out = String::new();
            push_left_aligned(&mut out, s, width);
            push_right_aligned(&mut out, s, width);
            assert_eq!(out, format!("{s:<width$}{s:>width$}"));
        }
    }
}
